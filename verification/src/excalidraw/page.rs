//! Viewer page names and contents.
use vstd::prelude::*;
use crate::text::{self, chars_of, find_from_exec, find_exec, push_all, push_str, replace_char_exec, string_of};
use crate::trusted::{self, is_alphanumeric, to_lowercase};
use crate::excalidraw::links::ExcalidrawRef;

verus! {

/// The marker in the viewer template where the scene JSON goes.
pub const SCENE_MARKER: &'static str = "{{SCENE_JSON}}";

/// A viewer page: its title, its HTML, and the book path it is served at.
pub struct ExcalidrawChapter {
    pub name: String,
    pub content: String,
    pub path: String,
}

/// The characters of `s` that are alphanumeric or `-`.
pub open spec fn slug_chars(s: Seq<char>) -> Seq<char>
    decreases s.len(),
{
    if s.len() == 0 {
        s
    } else {
        slug_chars(s.drop_last()) + if trusted::alphanumeric(s.last()) || s.last() == '-' {
            seq![s.last()]
        } else {
            Seq::empty()
        }
    }
}

/// `s` without leading and trailing `c`.
pub open spec fn trim_char(s: Seq<char>, c: char) -> Seq<char> {
    text::trim_end_char(text::trim_start_char(s, c), c)
}

/// The URL-safe name of a drawing: lowercased, spaces as `-`, only
/// alphanumerics and `-` kept, no `-` at either end.
pub open spec fn spec_excalidraw_slug(stem: Seq<char>) -> Seq<char> {
    trim_char(slug_chars(text::replace_char(trusted::lowercase(stem), ' ', seq!['-'])), '-')
}

pub open spec fn up_dirs(depth: nat) -> Seq<char>
    decreases depth,
{
    if depth == 0 {
        Seq::empty()
    } else {
        up_dirs((depth - 1) as nat) + "../"@
    }
}

/// The relative URL of the viewer page `slug` from a chapter `depth` directories deep.
pub open spec fn spec_excalidraw_href(slug: Seq<char>, depth: nat) -> Seq<char> {
    up_dirs(depth) + "_excalidraw/"@ + slug + ".html"@
}

pub open spec fn viewer_path(slug: Seq<char>) -> Seq<char> {
    "_excalidraw/"@ + slug + ".md"@
}

/// `s[p..]` with every `</` written as `<\/`, so that the JSON cannot close
/// the `<script>` element it sits in.
pub open spec fn escape_from(s: Seq<char>, p: int) -> Seq<char>
    decreases s.len() - p via escape_from_decreases
{
    match text::find_from(s, seq!['<', '/'], p) {
        None => s.subrange(p, s.len() as int),
        Some(pos) => s.subrange(p, pos) + seq!['<', '\\', '/'] + escape_from(s, pos + 2),
    }
}

#[via_fn]
proof fn escape_from_decreases(s: Seq<char>, p: int) {
    if let Some(pos) = text::find_from(s, seq!['<', '/'], p) {
        text::lemma_find_from_some(s, seq!['<', '/'], p);
    }
}

/// The viewer page: the template with the escaped scene JSON in place of
/// its first marker.
pub open spec fn spec_excalidraw_page(template: Seq<char>, json: Seq<char>) -> Seq<char> {
    let m = text::find(template, SCENE_MARKER@)->0;
    template.take(m) + escape_from(json, 0) + template.skip(m + SCENE_MARKER@.len())
}

pub open spec fn error_html(name: Seq<char>, error: Seq<char>) -> Seq<char> {
    "<div style=\"padding:2rem;border:2px solid #c00;border-radius:6px;background:#fff5f5;color:#900;font-family:sans-serif\"><h2>Cannot display: "@
        + name + "</h2><p>"@ + error + "</p></div>"@
}

/// The URL-safe name of a drawing.
pub fn excalidraw_slug(decoded_stem: &str) -> (res: String)
    ensures
        res@ == spec_excalidraw_slug(decoded_stem@),
{
    let low = to_lowercase(decoded_stem);
    let dash: [char; 1] = ['-'];
    let ds = dash.as_slice();
    assert(ds@ =~= seq!['-']);
    let lv = chars_of(low.as_str());
    let r = replace_char_exec(lv.as_slice(), ' ', ds);
    let mut kept: Vec<char> = Vec::new();
    let mut i: usize = 0;
    assert(r@.take(0) =~= Seq::<char>::empty());
    while i < r.len()
        invariant
            i <= r@.len(),
            kept@ == slug_chars(r@.take(i as int)),
        decreases r@.len() - i,
    {
        let c = r[i];
        assert(r@.take(i + 1).drop_last() =~= r@.take(i as int));
        assert(r@.take(i + 1).last() == c);
        if is_alphanumeric(c) || c == '-' {
            kept.push(c);
        }
        assert(kept@ =~= slug_chars(r@.take(i + 1)));
        i += 1;
    }
    assert(r@.take(r@.len() as int) =~= r@);
    let a = text::trim_start_char_len(kept.as_slice(), '-');
    let rest = &kept.as_slice()[a..kept.len()];
    assert(rest@ =~= kept@.skip(a as int));
    let b = text::trim_end_char_len(rest, '-');
    string_of(&rest[0..b])
}

/// The relative URL of the viewer page `slug` from a chapter `depth` directories deep.
pub fn excalidraw_href(slug: &str, depth: usize) -> (res: String)
    ensures
        res@ == spec_excalidraw_href(slug@, depth as nat),
{
    let mut out: Vec<char> = Vec::new();
    let mut k: usize = 0;
    while k < depth
        invariant
            k <= depth,
            out@ == up_dirs(k as nat),
        decreases depth - k,
    {
        push_str(&mut out, "../");
        k += 1;
    }
    push_str(&mut out, "_excalidraw/");
    push_str(&mut out, slug);
    push_str(&mut out, ".html");
    string_of(out.as_slice())
}

fn escape_script_close(json: &[char]) -> (res: Vec<char>)
    ensures
        res@ == escape_from(json@, 0),
{
    let lt: [char; 2] = ['<', '/'];
    let ls = lt.as_slice();
    assert(ls@ =~= seq!['<', '/']);
    let mut out: Vec<char> = Vec::new();
    let mut p: usize = 0;
    loop
        invariant
            p <= json.len(),
            ls@ == seq!['<', '/'],
            escape_from(json@, 0) == out@ + escape_from(json@, p as int),
        decreases json.len() - p,
    {
        match find_from_exec(json, p, ls) {
            None => {
                push_all(&mut out, &json[p..json.len()]);
                return out;
            },
            Some(pos) => {
                proof {
                    text::lemma_find_from_some(json@, seq!['<', '/'], p as int);
                }
                let ghost before = out@;
                push_all(&mut out, &json[p..pos]);
                out.push('<');
                out.push('\\');
                out.push('/');
                assert(out@ =~= before + json@.subrange(p as int, pos as int) + seq!['<', '\\', '/']);
                p = pos + 2;
            },
        }
    }
}

/// Builds the viewer page for a drawing from the viewer template and the
/// scene JSON.
pub fn make_excalidraw_chapter(r: &ExcalidrawRef, json: &str, template: &str) -> (res: ExcalidrawChapter)
    requires
        text::contains(template@, SCENE_MARKER@),
    ensures
        res.name@ == r.name@,
        res.content@ == spec_excalidraw_page(template@, json@),
        res.path@ == viewer_path(r.slug@),
{
    let name = r.name.as_str();
    let slug = r.slug.as_str();
    let tv = chars_of(template);
    let t = tv.as_slice();
    let mv = chars_of(SCENE_MARKER);
    let m = match find_exec(t, mv.as_slice()) {
        Some(m) => m,
        None => {
            assert(false);
            0
        },
    };
    proof {
        text::lemma_find_from_some(t@, mv@, 0);
    }
    assert(m + mv@.len() <= t@.len());
    assert(m + mv.len() <= t.len());
    let jv = chars_of(json);
    let escaped = escape_script_close(jv.as_slice());
    let mut html: Vec<char> = Vec::new();
    push_all(&mut html, &t[0..m]);
    push_all(&mut html, escaped.as_slice());
    push_all(&mut html, &t[m + mv.len()..t.len()]);
    assert(t@.subrange(0, m as int) =~= t@.take(m as int));
    assert(t@.subrange(m + mv@.len(), t@.len() as int) =~= t@.skip(m + mv@.len()));
    let mut path: Vec<char> = Vec::new();
    push_str(&mut path, "_excalidraw/");
    push_str(&mut path, slug);
    push_str(&mut path, ".md");
    ExcalidrawChapter { name: name.to_owned(), content: string_of(html.as_slice()), path: string_of(path.as_slice()) }
}

/// Builds a page that says why a drawing cannot be shown.
pub fn make_excalidraw_error_chapter(r: &ExcalidrawRef, error: &str) -> (res: ExcalidrawChapter)
    ensures
        res.name@ == r.name@,
        res.content@ == error_html(r.name@, error@),
        res.path@ == viewer_path(r.slug@),
{
    let name = r.name.as_str();
    let slug = r.slug.as_str();
    let mut html: Vec<char> = Vec::new();
    push_str(
        &mut html,
        "<div style=\"padding:2rem;border:2px solid #c00;border-radius:6px;background:#fff5f5;color:#900;font-family:sans-serif\"><h2>Cannot display: ",
    );
    push_str(&mut html, name);
    push_str(&mut html, "</h2><p>");
    push_str(&mut html, error);
    push_str(&mut html, "</p></div>");
    let mut path: Vec<char> = Vec::new();
    push_str(&mut path, "_excalidraw/");
    push_str(&mut path, slug);
    push_str(&mut path, ".md");
    ExcalidrawChapter { name: name.to_owned(), content: string_of(html.as_slice()), path: string_of(path.as_slice()) }
}

/// `r` holds `</` somewhere.
pub open spec fn has_close_tag(r: Seq<char>) -> bool {
    exists|i: int| 0 <= i && i + 1 < r.len() && #[trigger] r[i] == '<' && r[i + 1] == '/'
}

proof fn lemma_no_close_concat(a: Seq<char>, b: Seq<char>)
    requires
        !has_close_tag(a),
        !has_close_tag(b),
        !(a.len() > 0 && a.last() == '<' && b.len() > 0 && b[0] == '/'),
    ensures
        !has_close_tag(a + b),
{
    assert forall|i: int| 0 <= i && i + 1 < (a + b).len() implies !(#[trigger] (a + b)[i] == '<' && (a + b)[i + 1] == '/') by {
        if i + 1 < a.len() {
            assert((a + b)[i] == a[i] && (a + b)[i + 1] == a[i + 1]);
        } else if i >= a.len() {
            assert((a + b)[i] == b[i - a.len()] && (a + b)[i + 1] == b[i + 1 - a.len()]);
        } else {
            assert((a + b)[i] == a.last() && (a + b)[i + 1] == b[0]);
        }
    }
}

proof fn lemma_escape_from_no_close(s: Seq<char>, p: int)
    requires
        0 <= p <= s.len(),
    ensures
        !has_close_tag(escape_from(s, p)),
    decreases s.len() - p,
{
    let lt = seq!['<', '/'];
    match text::find_from(s, lt, p) {
        None => {
            text::lemma_find_from_none(s, lt, p);
            let r = s.subrange(p, s.len() as int);
            assert forall|i: int| 0 <= i && i + 1 < r.len() implies !(#[trigger] r[i] == '<' && r[i + 1] == '/') by {
                if r[i] == '<' && r[i + 1] == '/' {
                    assert(s.subrange(p + i, p + i + 2) =~= lt);
                    assert(text::occurs_at(s, lt, p + i));
                }
            }
        },
        Some(pos) => {
            text::lemma_find_from_some(s, lt, p);
            let head = s.subrange(p, pos);
            assert forall|i: int| 0 <= i && i + 1 < head.len() implies !(#[trigger] head[i] == '<' && head[i + 1] == '/') by {
                if head[i] == '<' && head[i + 1] == '/' {
                    assert(s.subrange(p + i, p + i + 2) =~= lt);
                    assert(text::occurs_at(s, lt, p + i));
                }
            }
            let mid = seq!['<', '\\', '/'];
            assert(!has_close_tag(mid)) by {
                assert forall|i: int| 0 <= i && i + 1 < mid.len() implies !(#[trigger] mid[i] == '<' && mid[i + 1] == '/') by {}
            }
            lemma_escape_from_no_close(s, pos + 2);
            let rest = escape_from(s, pos + 2);
            lemma_no_close_concat(head, mid);
            lemma_no_close_concat(head + mid, rest);
            assert((head + mid).last() == '/');
            assert(escape_from(s, p) == head + mid + rest);
        },
    }
}

/// The scene JSON as written into a viewer page holds no `</`, so whatever
/// the drawing contains, it cannot end the `<script>` element it sits in.
pub proof fn law_escaped_json_cannot_close_script(json: Seq<char>)
    ensures
        !has_close_tag(escape_from(json, 0)),
{
    lemma_escape_from_no_close(json, 0);
}

/// The characters of a slug are alphanumeric or `-`.
pub open spec fn slug_safe(s: Seq<char>) -> bool {
    forall|i: int| 0 <= i < s.len() ==> trusted::alphanumeric(#[trigger] s[i]) || s[i] == '-'
}

proof fn lemma_slug_chars_safe(s: Seq<char>)
    ensures
        slug_safe(slug_chars(s)),
    decreases s.len(),
{
    if s.len() > 0 {
        lemma_slug_chars_safe(s.drop_last());
        let prev = slug_chars(s.drop_last());
        let add = if trusted::alphanumeric(s.last()) || s.last() == '-' { seq![s.last()] } else { Seq::empty() };
        assert forall|i: int| 0 <= i < (prev + add).len() implies trusted::alphanumeric(#[trigger] (prev + add)[i]) || (prev + add)[i] == '-' by {
            if i < prev.len() {
                assert((prev + add)[i] == prev[i]);
            } else {
                assert((prev + add)[i] == add[i - prev.len()]);
            }
        }
    }
}

proof fn lemma_trim_start_char(s: Seq<char>, c: char)
    ensures
        exists|k: int| 0 <= k <= s.len() && text::trim_start_char(s, c) == s.skip(k),
        text::trim_start_char(s, c).len() > 0 ==> text::trim_start_char(s, c)[0] != c,
    decreases s.len(),
{
    if s.len() > 0 && s[0] == c {
        lemma_trim_start_char(s.drop_first(), c);
        let k = choose|k: int| 0 <= k <= s.drop_first().len() && text::trim_start_char(s.drop_first(), c) == s.drop_first().skip(k);
        assert(s.drop_first().skip(k) =~= s.skip(k + 1));
    } else {
        assert(s.skip(0) =~= s);
    }
}

proof fn lemma_trim_end_char(s: Seq<char>, c: char)
    ensures
        exists|k: int| 0 <= k <= s.len() && text::trim_end_char(s, c) == s.take(k),
        text::trim_end_char(s, c).len() > 0 ==> text::trim_end_char(s, c).last() != c,
    decreases s.len(),
{
    if s.len() > 0 && s.last() == c {
        lemma_trim_end_char(s.drop_last(), c);
        let k = choose|k: int| 0 <= k <= s.drop_last().len() && text::trim_end_char(s.drop_last(), c) == s.drop_last().take(k);
        assert(s.drop_last().take(k) =~= s.take(k));
    } else {
        assert(s.take(s.len() as int) =~= s);
    }
}

/// A slug is safe in a URL: only alphanumeric characters and `-`, and no
/// `-` at either end.
pub proof fn law_slug_is_url_safe(stem: Seq<char>)
    ensures
        slug_safe(spec_excalidraw_slug(stem)),
        spec_excalidraw_slug(stem).len() > 0 ==> spec_excalidraw_slug(stem)[0] != '-'
            && spec_excalidraw_slug(stem).last() != '-',
{
    let kept = slug_chars(text::replace_char(trusted::lowercase(stem), ' ', seq!['-']));
    lemma_slug_chars_safe(text::replace_char(trusted::lowercase(stem), ' ', seq!['-']));
    lemma_trim_start_char(kept, '-');
    let t = text::trim_start_char(kept, '-');
    let k = choose|k: int| 0 <= k <= kept.len() && t == kept.skip(k);
    lemma_trim_end_char(t, '-');
    let r = text::trim_end_char(t, '-');
    let m = choose|m: int| 0 <= m <= t.len() && r == t.take(m);
    assert forall|i: int| 0 <= i < r.len() implies trusted::alphanumeric(#[trigger] r[i]) || r[i] == '-' by {
        assert(r[i] == kept[k + i]);
    }
    if r.len() > 0 {
        assert(r[0] == t[0]);
    }
}

} // verus!

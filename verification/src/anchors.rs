//! Link normalization: fragments of links are rewritten the way mdBook
//! writes heading ids, and bare URLs become links. Image links, external
//! URLs, fenced code blocks and inline code spans are left as they are.
use vstd::prelude::*;
use crate::text::{self, chars_of, find_exec, push_all, push_str, replace_char_exec, starts_with_exec, string_of};
use crate::lines::{self, fence_step, push_line, split_lines_exec};
use crate::links::{self, next_md_link_exec, next_url_exec};
use crate::spans::{self, code_segments_exec};
use crate::trusted::{self, to_lowercase, url_decode};

verus! {

pub open spec fn is_url_punct(c: char) -> bool {
    c == '.' || c == ',' || c == ';' || c == ':' || c == '!' || c == '?' || c == '"' || c == '\''
}

/// `url` without its trailing `. , ; : ! ? " '` characters.
pub open spec fn spec_strip_url_trailing_punct(url: Seq<char>) -> Seq<char>
    decreases url.len(),
{
    if url.len() > 0 && is_url_punct(url.last()) {
        spec_strip_url_trailing_punct(url.drop_last())
    } else {
        url
    }
}

/// A bare URL as a link, `[url](url)`, with its trailing punctuation kept after the link.
pub open spec fn autolink_url(raw: Seq<char>) -> Seq<char> {
    let u = spec_strip_url_trailing_punct(raw);
    seq!['['] + u + seq![']', '('] + u + seq![')'] + raw.skip(u.len() as int)
}

/// `s[p..]` with every bare URL turned into a link.
pub open spec fn autolink_from(s: Seq<char>, p: int) -> Seq<char>
    decreases s.len() - p via autolink_from_decreases
{
    match links::next_url(s, p) {
        None => s.subrange(p, s.len() as int),
        Some(m) => s.subrange(p, m.0) + autolink_url(s.subrange(m.0, m.1)) + autolink_from(s, m.1),
    }
}

#[via_fn]
proof fn autolink_from_decreases(s: Seq<char>, p: int) {
    if links::next_url(s, p) is Some {
        links::lemma_next_url(s, p);
    }
}

pub open spec fn spec_autolink_gap(s: Seq<char>) -> Seq<char> {
    autolink_from(s, 0)
}

/// A fragment as mdBook writes heading ids: percent-decoded (kept as it is
/// when it does not decode), leading `^` removed, lowercased, spaces as `-`.
pub open spec fn spec_normalize_fragment(f: Seq<char>) -> Seq<char> {
    let d = match trusted::url_decoded(f) {
        Some(x) => x,
        None => f,
    };
    text::replace_char(trusted::lowercase(text::trim_start_char(d, '^')), ' ', seq!['-'])
}

/// An absolute URL: `http://`, `https://`, `//` or `mailto:`.
pub open spec fn is_external(url: Seq<char>) -> bool {
    ||| text::starts_with(url, links::http_prefix())
    ||| text::starts_with(url, links::https_prefix())
    ||| text::starts_with(url, seq!['/', '/'])
    ||| text::starts_with(url, seq!['m', 'a', 'i', 'l', 't', 'o', ':'])
}

/// The link target with its `#fragment` normalized; external URLs and
/// targets without `#` are unchanged.
pub open spec fn spec_normalize_link(url: Seq<char>) -> Seq<char> {
    if is_external(url) {
        url
    } else {
        match text::find(url, seq!['#']) {
            None => url,
            Some(i) => url.take(i) + seq!['#'] + spec_normalize_fragment(url.skip(i + 1)),
        }
    }
}

/// A markdown link as it is written back: image links unchanged, other
/// links with their target normalized.
pub open spec fn render_md_link(s: Seq<char>, m: links::MdLink) -> Seq<char> {
    if m.bang {
        m.whole(s)
    } else {
        seq!['['] + m.text(s) + seq![']', '('] + spec_normalize_link(m.url(s)) + seq![')']
    }
}

/// `s[p..]` with markdown links normalized and bare URLs between them autolinked.
pub open spec fn process_text_from(s: Seq<char>, p: int) -> Seq<char>
    decreases s.len() - p via process_text_from_decreases
{
    match links::next_md_link(s, p) {
        None => spec_autolink_gap(s.subrange(p, s.len() as int)),
        Some(m) => spec_autolink_gap(s.subrange(p, m.start)) + render_md_link(s, m) + process_text_from(s, m.end()),
    }
}

#[via_fn]
proof fn process_text_from_decreases(s: Seq<char>, p: int) {
    if links::next_md_link(s, p) is Some {
        links::lemma_next_md_link(s, p);
    }
}

pub open spec fn spec_process_text(s: Seq<char>) -> Seq<char> {
    process_text_from(s, 0)
}

/// A line with links normalized outside its inline code spans.
pub open spec fn spec_transform_line(line: Seq<char>) -> Seq<char> {
    spans::rewrite_outside_code(line, |t: Seq<char>| spec_process_text(t))
}

/// The chapter with every prose line transformed; a trailing newline is kept.
pub open spec fn spec_process_content(content: Seq<char>) -> Seq<char> {
    let r = lines::rewrite_prose(content, |l: Seq<char>| spec_transform_line(l));
    if text::ends_with(content, seq!['\n']) && !text::ends_with(r, seq!['\n']) {
        r.push('\n')
    } else {
        r
    }
}

/// Strips trailing `. , ; : ! ? " '` from a bare URL.
pub fn strip_url_trailing_punct(url: &str) -> (res: String)
    ensures
        res@ == spec_strip_url_trailing_punct(url@),
{
    let cv = chars_of(url);
    let cs = cv.as_slice();
    let mut k: usize = cs.len();
    assert(cs@.take(k as int) =~= cs@);
    while k > 0 && (cs[k - 1] == '.' || cs[k - 1] == ',' || cs[k - 1] == ';' || cs[k - 1] == ':'
        || cs[k - 1] == '!' || cs[k - 1] == '?' || cs[k - 1] == '"' || cs[k - 1] == '\'')
        invariant
            k <= cs.len(),
            spec_strip_url_trailing_punct(cs@) == spec_strip_url_trailing_punct(cs@.take(k as int)),
        decreases k,
    {
        assert(cs@.take(k as int).drop_last() =~= cs@.take(k - 1));
        k -= 1;
    }
    string_of(&cs[0..k])
}

proof fn lemma_strip_is_prefix(url: Seq<char>)
    ensures
        spec_strip_url_trailing_punct(url).len() <= url.len(),
        spec_strip_url_trailing_punct(url) == url.take(spec_strip_url_trailing_punct(url).len() as int),
    decreases url.len(),
{
    if url.len() > 0 && is_url_punct(url.last()) {
        lemma_strip_is_prefix(url.drop_last());
        let t = spec_strip_url_trailing_punct(url.drop_last());
        assert(url.drop_last().take(t.len() as int) =~= url.take(t.len() as int));
    } else {
        assert(url.take(url.len() as int) =~= url);
    }
}

/// Turns every bare `http://` / `https://` URL of `text` into `[url](url)`.
pub fn autolink_gap(text: &str) -> (res: String)
    ensures
        res@ == spec_autolink_gap(text@),
{
    let sv = chars_of(text);
    let s = sv.as_slice();
    let mut out: Vec<char> = Vec::new();
    let mut p: usize = 0;
    loop
        invariant
            p <= s.len(),
            s@ == text@,
            spec_autolink_gap(s@) == out@ + autolink_from(s@, p as int),
        decreases s.len() - p,
    {
        match next_url_exec(s, p) {
            None => {
                assert(autolink_from(s@, p as int) == s@.subrange(p as int, s@.len() as int));
                push_all(&mut out, &s[p..s.len()]);
                return string_of(out.as_slice());
            },
            Some((a, e)) => {
                proof {
                    links::lemma_next_url(s@, p as int);
                }
                let ghost before = out@;
                assert(autolink_from(s@, p as int) == s@.subrange(p as int, a as int) + autolink_url(s@.subrange(a as int, e as int)) + autolink_from(s@, e as int));
                push_all(&mut out, &s[p..a]);
                let raw = string_of(&s[a..e]);
                let u = strip_url_trailing_punct(raw.as_str());
                let uc = chars_of(u.as_str());
                proof {
                    lemma_strip_is_prefix(raw@);
                }
                out.push('[');
                push_all(&mut out, uc.as_slice());
                out.push(']');
                out.push('(');
                push_all(&mut out, uc.as_slice());
                out.push(')');
                push_all(&mut out, &s[a + uc.len()..e]);
                assert(s@.subrange(a + uc.len(), e as int) =~= s@.subrange(a as int, e as int).skip(uc.len() as int));
                assert(out@ =~= before + s@.subrange(p as int, a as int) + autolink_url(s@.subrange(a as int, e as int)));
                p = e;
            },
        }
    }
}

/// The fragment of a link as mdBook writes heading ids.
pub fn normalize_fragment(fragment: &str) -> (res: String)
    ensures
        res@ == spec_normalize_fragment(fragment@),
{
    let decoded = match url_decode(fragment) {
        Some(d) => d,
        None => string_of(chars_of(fragment).as_slice()),
    };
    let dv = chars_of(decoded.as_str());
    let d = dv.as_slice();
    let k = text::trim_start_char_len(d, '^');
    let rest = string_of(&d[k..d.len()]);
    assert(rest@ =~= d@.skip(k as int));
    let low = to_lowercase(rest.as_str());
    let lc = chars_of(low.as_str());
    let dash: [char; 1] = ['-'];
    let ds = dash.as_slice();
    assert(ds@ =~= seq!['-']);
    let r = replace_char_exec(lc.as_slice(), ' ', ds);
    string_of(r.as_slice())
}

/// The link target with its `#fragment` normalized.
pub fn normalize_link(url: &str) -> (res: String)
    ensures
        res@ == spec_normalize_link(url@),
{
    let uv = chars_of(url);
    let u = uv.as_slice();
    let http: [char; 7] = ['h', 't', 't', 'p', ':', '/', '/'];
    let https: [char; 8] = ['h', 't', 't', 'p', 's', ':', '/', '/'];
    let slashes: [char; 2] = ['/', '/'];
    let mailto: [char; 7] = ['m', 'a', 'i', 'l', 't', 'o', ':'];
    let hash: [char; 1] = ['#'];
    let (a, b, c, d, h) = (http.as_slice(), https.as_slice(), slashes.as_slice(), mailto.as_slice(), hash.as_slice());
    assert(a@ =~= links::http_prefix());
    assert(b@ =~= links::https_prefix());
    assert(c@ =~= seq!['/', '/']);
    assert(d@ =~= seq!['m', 'a', 'i', 'l', 't', 'o', ':']);
    assert(h@ =~= seq!['#']);
    if starts_with_exec(u, a) || starts_with_exec(u, b) || starts_with_exec(u, c)
        || starts_with_exec(u, d) {
        return string_of(u);
    }
    match find_exec(u, h) {
        None => string_of(u),
        Some(i) => {
            proof {
                links::lemma_find_char_bounds(u@, '#', 0);
            }
            assert(i < u.len());
            let frag = string_of(&u[i + 1..u.len()]);
            let nf = normalize_fragment(frag.as_str());
            let mut out: Vec<char> = Vec::new();
            push_all(&mut out, &u[0..i]);
            out.push('#');
            push_str(&mut out, nf.as_str());
            assert(u@.subrange(0, i as int) =~= u@.take(i as int));
            assert(u@.subrange(i + 1, u@.len() as int) =~= u@.skip(i + 1));
            string_of(out.as_slice())
        },
    }
}

/// The markdown link `s[st..=ue]` as it is written back.
fn render_link_exec(s: &[char], st: usize, bang: bool, close: usize, ue: usize) -> (res: Vec<char>)
    requires
        links::md_link_at(s@, st as int) == Some(links::md_link(st as int, bang, close as int, ue as int)),
        st < links::md_link(st as int, bang, close as int, ue as int).text_start() <= close,
        close + 2 < ue,
        ue + 1 <= s.len(),
    ensures
        res@ == render_md_link(s@, links::md_link(st as int, bang, close as int, ue as int)),
{
    let mut out: Vec<char> = Vec::new();
    if bang {
        push_all(&mut out, &s[st..ue + 1]);
    } else {
        out.push('[');
        push_all(&mut out, &s[st + 1..close]);
        out.push(']');
        out.push('(');
        let nl = normalize_link(string_of(&s[close + 2..ue]).as_str());
        push_str(&mut out, nl.as_str());
        out.push(')');
    }
    out
}

/// Normalizes the markdown links of a plain-text segment (one without
/// inline code) and autolinks bare URLs between them.
pub fn process_text(text: &str) -> (res: String)
    ensures
        res@ == spec_process_text(text@),
{
    let sv = chars_of(text);
    let s = sv.as_slice();
    let mut out: Vec<char> = Vec::new();
    let mut p: usize = 0;
    loop
        invariant
            p <= s.len(),
            s@ == text@,
            spec_process_text(s@) == out@ + process_text_from(s@, p as int),
        decreases s.len() - p,
    {
        match next_md_link_exec(s, p) {
            None => {
                assert(process_text_from(s@, p as int) == spec_autolink_gap(s@.subrange(p as int, s@.len() as int)));
                let gap = autolink_gap(string_of(&s[p..s.len()]).as_str());
                push_str(&mut out, gap.as_str());
                return string_of(out.as_slice());
            },
            Some((st, bang, close, ue)) => {
                let ghost m = links::md_link(st as int, bang, close as int, ue as int);
                proof {
                    links::lemma_next_md_link(s@, p as int);
                }
                assert(process_text_from(s@, p as int) == spec_autolink_gap(s@.subrange(p as int, st as int)) + render_md_link(s@, m) + process_text_from(s@, ue + 1));
                let ghost before = out@;
                let gap = autolink_gap(string_of(&s[p..st]).as_str());
                push_str(&mut out, gap.as_str());
                let r = render_link_exec(s, st, bang, close, ue);
                push_all(&mut out, r.as_slice());
                assert(out@ =~= before + spec_autolink_gap(s@.subrange(p as int, st as int)) + render_md_link(s@, m));
                p = ue + 1;
            },
        }
    }
}

/// Normalizes links in a line, leaving inline code spans untouched.
pub fn transform_line(line: &str) -> (res: String)
    ensures
        res@ == spec_transform_line(line@),
{
    let sv = chars_of(line);
    let s = sv.as_slice();
    let segs = code_segments_exec(s);
    let ghost gs = spans::code_segments(s@, 0);
    let ghost f = |t: Seq<char>| spec_process_text(t);
    proof {
        spans::lemma_code_segments_ok(s@, 0);
    }
    let mut out: Vec<char> = Vec::new();
    let mut i: usize = 0;
    assert(gs.take(0) =~= Seq::<(int, int, bool)>::empty());
    while i < segs.len()
        invariant
            i <= segs.len(),
            segs@.len() == gs.len(),
            gs == spans::code_segments(s@, 0),
            spans::segments_ok(s@, gs),
            forall|j: int| 0 <= j < segs@.len() ==> {
                &&& (#[trigger] segs@[j]).0 as int == gs[j].0
                &&& segs@[j].1 as int == gs[j].1
                &&& segs@[j].2 == gs[j].2
            },
            s@ == line@,
            f == (|t: Seq<char>| spec_process_text(t)),
            out@ == spans::render_segments(s@, gs.take(i as int), f),
        decreases segs.len() - i,
    {
        let (a, b, code) = segs[i];
        assert(segs@[i as int].0 as int == gs[i as int].0);
        assert(0 <= gs[i as int].0 <= gs[i as int].1 <= s@.len());
        let ghost before = out@;
        if code {
            push_all(&mut out, &s[a..b]);
        } else {
            let t = process_text(string_of(&s[a..b]).as_str());
            push_str(&mut out, t.as_str());
        }
        assert(out@ == before + spans::render_segment(s@, gs[i as int], f));
        assert(gs.take(i + 1).drop_last() =~= gs.take(i as int));
        assert(gs.take(i + 1).last() == gs[i as int]);
        i += 1;
    }
    assert(gs.take(segs.len() as int) =~= gs);
    string_of(out.as_slice())
}

/// Normalizes links in every line of a chapter outside fenced code blocks.
pub fn process_content(content: &str) -> (res: String)
    ensures
        res@ == spec_process_content(content@),
{
    let cv = chars_of(content);
    let cs = cv.as_slice();
    let ls = split_lines_exec(cs);
    let ghost gl = lines::split_lines(cs@);
    let ghost f = |l: Seq<char>| spec_transform_line(l);
    let ghost outl = lines::map_prose(gl, f);
    let mut out: Vec<char> = Vec::new();
    let mut st: Option<(char, usize)> = None;
    let mut i: usize = 0;
    assert(outl.take(0) =~= Seq::<Seq<char>>::empty());
    while i < ls.len()
        invariant
            i <= ls.len(),
            ls@.len() == gl.len(),
            forall|j: int| 0 <= j < ls@.len() ==> #[trigger] ls@[j]@ == gl[j],
            f == (|l: Seq<char>| spec_transform_line(l)),
            outl == lines::map_prose(gl, f),
            lines::fence_view(st) == lines::fence_before(gl, i as int),
            out@ == lines::join_lines(outl.take(i as int)),
        decreases ls.len() - i,
    {
        let line = ls[i].as_slice();
        assert(line@ == gl[i as int]);
        let verb = fence_step(&mut st, line);
        proof {
            lines::lemma_join_take(outl, i as int);
        }
        assert(verb == lines::verbatim(gl, i as int));
        assert(outl[i as int] == if lines::verbatim(gl, i as int) { gl[i as int] } else { spec_transform_line(gl[i as int]) });
        if verb {
            push_line(&mut out, i == 0, line);
        } else {
            let t = transform_line(string_of(line).as_str());
            let tc = chars_of(t.as_str());
            push_line(&mut out, i == 0, tc.as_slice());
        }
        i += 1;
    }
    assert(outl.take(ls.len() as int) =~= outl);
    let nl: [char; 1] = ['\n'];
    let nls = nl.as_slice();
    assert(nls@ =~= seq!['\n']);
    if text::ends_with_exec(cs, nls) && !text::ends_with_exec(out.as_slice(), nls) {
        out.push('\n');
    }
    string_of(out.as_slice())
}

proof fn lemma_no_md_link(s: Seq<char>, p: int)
    requires
        forall|k: int| 0 <= k < s.len() ==> s[k] != '[',
    ensures
        links::next_md_link(s, p) is None,
    decreases s.len() - p,
{
    if 0 <= p < s.len() {
        lemma_no_md_link(s, p + 1);
    }
}

proof fn lemma_no_url(s: Seq<char>, p: int)
    requires
        forall|k: int| !text::occurs_at(s, "://"@, k),
    ensures
        links::next_url(s, p) is None,
    decreases s.len() - p,
{
    reveal_strlit("://");
    if 0 <= p < s.len() {
        if text::occurs_at(s, links::https_prefix(), p) {
            assert(s.subrange(p + 5, p + 8) =~= "://"@);
            assert(text::occurs_at(s, "://"@, p + 5));
        }
        if text::occurs_at(s, links::http_prefix(), p) {
            assert(s.subrange(p + 4, p + 7) =~= "://"@);
            assert(text::occurs_at(s, "://"@, p + 4));
        }
        lemma_no_url(s, p + 1);
    }
}

/// A chapter with no `[` and no `://` holds no link and no bare URL: the
/// anchor pass leaves it as it is.
pub proof fn law_chapter_without_links_unchanged(content: Seq<char>)
    requires
        !text::contains(content, seq!['[']),
        !text::contains(content, "://"@),
    ensures
        spec_process_content(content) == content,
{
    text::lemma_find_from_none(content, seq!['['], 0);
    text::lemma_find_from_none(content, "://"@, 0);
    let ls = lines::split_lines(content);
    assert forall|i: int| 0 <= i < ls.len() implies spec_transform_line(#[trigger] ls[i]) == ls[i] by {
        let l = ls[i];
        assert forall|a: int, b: int| 0 <= a <= b <= l.len() implies #[trigger] spec_process_text(l.subrange(a, b)) == l.subrange(a, b) by {
            let t = l.subrange(a, b);
            assert forall|k: int| 0 <= k < t.len() implies t[k] != '[' by {
                if t[k] == '[' {
                    assert(t.subrange(k, k + 1) =~= seq!['[']);
                    text::lemma_subrange_occurs(l, seq!['['], a, b, k);
                    text::lemma_split_piece_occurs(content, '\n', seq!['['], i, a + k);
                }
            }
            assert forall|k: int| !text::occurs_at(t, "://"@, k) by {
                if text::occurs_at(t, "://"@, k) {
                    text::lemma_subrange_occurs(l, "://"@, a, b, k);
                    text::lemma_split_piece_occurs(content, '\n', "://"@, i, a + k);
                }
            }
            lemma_no_md_link(t, 0);
            lemma_no_url(t, 0);
            assert(t.subrange(0, t.len() as int) =~= t);
        }
        spans::law_rewrite_outside_code_identity(l, |x: Seq<char>| spec_process_text(x));
    }
    lines::law_rewrite_prose_identity(content, |l: Seq<char>| spec_transform_line(l));
}

/// Image links are written back exactly as they were; the target of any
/// other link only changes after its first `#`, and not at all when it is
/// an external URL.
pub proof fn law_only_fragments_change(s: Seq<char>, m: links::MdLink, url: Seq<char>)
    ensures
        m.bang ==> render_md_link(s, m) == m.whole(s),
        is_external(url) ==> spec_normalize_link(url) == url,
        text::find(url, seq!['#']) is None ==> spec_normalize_link(url) == url,
        text::find(url, seq!['#']) matches Some(i) ==> (!is_external(url) ==> spec_normalize_link(url).take(i + 1) == url.take(i + 1)),
{
    if let Some(i) = text::find(url, seq!['#']) {
        text::lemma_find_from_some(url, seq!['#'], 0);
        if !is_external(url) {
            let r = url.take(i) + seq!['#'] + spec_normalize_fragment(url.skip(i + 1));
            assert(url.subrange(i, i + 1)[0] == url[i]);
            assert(r.take(i + 1) =~= url.take(i + 1));
        }
    }
}

/// External link targets, those starting with `http://`, `https://`, `//`
/// or `mailto:`, are never changed, whatever follows.
pub proof fn law_external_links_untouched(url: Seq<char>)
    requires
        text::starts_with(url, "http://"@) || text::starts_with(url, "https://"@) || text::starts_with(url, "//"@)
            || text::starts_with(url, "mailto:"@),
    ensures
        spec_normalize_link(url) == url,
{
    reveal_strlit("http://");
    reveal_strlit("https://");
    reveal_strlit("//");
    reveal_strlit("mailto:");
    assert("http://"@ =~= links::http_prefix());
    assert("https://"@ =~= links::https_prefix());
    assert("//"@ =~= seq!['/', '/']);
    assert("mailto:"@ =~= seq!['m', 'a', 'i', 'l', 't', 'o', ':']);
}

} // verus!

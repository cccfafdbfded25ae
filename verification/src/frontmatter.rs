//! Front matter: a leading `---` block is removed; its `tags` and
//! `aliases` are shown as a properties panel, each tag a button that
//! searches the book for it.
use vstd::prelude::*;
use crate::text::{self, chars_of, find_exec, push_all, push_str, replace_char_exec, slice_vec, split_char_exec, starts_with_exec, str_lines_exec, string_of, trim_start_len, trim_vec};

verus! {

/// The properties panel's style sheet.
pub const STYLE: &'static str = r#"<style>
.ob-properties{display:flex;flex-direction:column;gap:.3em;padding:.65em 1em;margin-bottom:1.4em;border-radius:6px;background:rgba(128,128,128,.08);border:1px solid rgba(128,128,128,.2);font-size:.9em;line-height:1.5}
.ob-prop-row{display:flex;align-items:center;flex-wrap:wrap;gap:.35em}
.ob-prop-label{font-size:.78em;opacity:.5;min-width:4.5em;flex-shrink:0;font-weight:500}
.ob-tag{display:inline-flex;align-items:center;padding:.1em .55em;border-radius:999px;background:rgba(100,149,237,.18);color:var(--links,cornflowerblue);text-decoration:none;font-size:.82em;cursor:pointer;border:none;font-family:inherit;transition:opacity .15s}
.ob-tag:hover{opacity:.7;text-decoration:none}
.ob-tag::before{content:'#';opacity:.5;margin-right:.08em}
.ob-alias{display:inline-block;padding:.1em .5em;border-radius:4px;background:rgba(128,128,128,.12);font-size:.82em;font-style:italic}
</style>
"#;

/// The script behind the tag buttons: it puts the tag in the search bar.
pub const SCRIPT: &'static str = r#"<script>
function obTagSearch(t){var s=document.getElementById('searchbar');if(s){s.value=t;s.dispatchEvent(new Event('input',{bubbles:true}));s.focus();window.scrollTo(0,0);}}
</script>
"#;

pub open spec fn strings_view(v: Seq<String>) -> Seq<Seq<char>> {
    v.map_values(|x: String| x@)
}

/// The front matter and the rest of the chapter: the chapter starts with
/// `---` and a line break, and the block ends at a line `---` (or at a
/// final `---`).
pub open spec fn spec_extract_frontmatter(content: Seq<char>) -> Option<(Seq<char>, Seq<char>)> {
    let body: Option<Seq<char>> = if text::starts_with(content, "---\r\n"@) {
        Some(content.skip(5))
    } else if text::starts_with(content, "---\n"@) {
        Some(content.skip(4))
    } else {
        None
    };
    match body {
        None => None,
        Some(b) => match text::find(b, "\n---\r\n"@) {
            Some(pos) => Some((b.take(pos), b.skip(pos + 6))),
            None => match text::find(b, "\n---\n"@) {
                Some(pos) => Some((b.take(pos), b.skip(pos + 5))),
                None => if text::ends_with(b, "\n---"@) {
                    Some((b.take(b.len() - 4), Seq::empty()))
                } else {
                    None
                },
            },
        },
    }
}

/// `s` trimmed, without one pair of surrounding `"` or `'` quotes.
pub open spec fn spec_unquote(s: Seq<char>) -> Seq<char> {
    let t = text::trim(s);
    if t.len() >= 2 && ((t[0] == '"' && t.last() == '"') || (t[0] == '\'' && t.last() == '\'')) {
        t.subrange(1, t.len() - 1)
    } else {
        t
    }
}

/// A tag unquoted and without leading `#`.
pub open spec fn spec_normalize_tag(s: Seq<char>) -> Seq<char> {
    text::trim_start_char(spec_unquote(s), '#')
}

pub open spec fn nonempty_only(ts: Seq<Seq<char>>) -> Seq<Seq<char>>
    decreases ts.len(),
{
    if ts.len() == 0 {
        ts
    } else if ts.last().len() > 0 {
        nonempty_only(ts.drop_last()).push(ts.last())
    } else {
        nonempty_only(ts.drop_last())
    }
}

/// `[a, b, c]`: the comma-separated items, normalized, empty ones dropped.
pub open spec fn spec_parse_inline_array(s: Seq<char>) -> Seq<Seq<char>> {
    let t = text::trim(s);
    let inner = if text::starts_with(t, seq!['[']) && text::ends_with(t.skip(1), seq![']']) {
        t.skip(1).drop_last()
    } else {
        t
    };
    nonempty_only(text::split_char(inner, ',').map_values(|x: Seq<char>| spec_normalize_tag(text::trim(x))))
}

/// The `- item` lines from line `j` on; blank lines are skipped and any other line ends the list.
pub open spec fn block_items(ls: Seq<Seq<char>>, j: int) -> Seq<Seq<char>>
    decreases ls.len() - j,
{
    if j < 0 || j >= ls.len() {
        Seq::empty()
    } else {
        let t = text::trim(ls[j]);
        if text::starts_with(t, seq!['-', ' ']) {
            seq![spec_normalize_tag(text::trim(t.skip(2)))] + block_items(ls, j + 1)
        } else if t.len() == 0 {
            block_items(ls, j + 1)
        } else {
            Seq::empty()
        }
    }
}

/// The values of the first line from `i` on that starts with `search`.
pub open spec fn parse_list_from(ls: Seq<Seq<char>>, search: Seq<char>, i: int) -> Seq<Seq<char>>
    decreases ls.len() - i,
{
    if i < 0 || i >= ls.len() {
        Seq::empty()
    } else {
        let t = text::trim_start(ls[i]);
        if !text::starts_with(t, search) {
            parse_list_from(ls, search, i + 1)
        } else {
            let v = text::trim(t.skip(search.len() as int));
            if text::starts_with(v, seq!['[']) {
                spec_parse_inline_array(v)
            } else if v.len() > 0 {
                seq![spec_normalize_tag(v)]
            } else {
                block_items(ls, i + 1)
            }
        }
    }
}

/// The values of `key` in the front matter: an inline array, a single
/// value, or a block list.
pub open spec fn spec_parse_list(yaml: Seq<char>, key: Seq<char>) -> Seq<Seq<char>> {
    parse_list_from(text::str_lines(yaml), key.push(':'), 0)
}

pub open spec fn spec_escape_html(s: Seq<char>) -> Seq<char> {
    text::replace_char(
        text::replace_char(text::replace_char(text::replace_char(s, '&', "&amp;"@), '<', "&lt;"@), '>', "&gt;"@),
        '"',
        "&quot;"@,
    )
}

/// `s` as a double-quoted JavaScript string literal.
pub open spec fn spec_js_str(s: Seq<char>) -> Seq<char> {
    let e = text::replace_char(
        text::replace_char(text::replace_char(text::replace_char(s, '\\', "\\\\"@), '"', "\\\""@), '\n', "\\n"@),
        '\r',
        Seq::empty(),
    );
    seq!['"'] + e + seq!['"']
}

pub open spec fn concat_map(ts: Seq<Seq<char>>, f: spec_fn(Seq<char>) -> Seq<char>) -> Seq<char>
    decreases ts.len(),
{
    if ts.len() == 0 {
        Seq::empty()
    } else {
        concat_map(ts.drop_last(), f) + f(ts.last())
    }
}

pub open spec fn alias_html(a: Seq<char>) -> Seq<char> {
    "<span class=\"ob-alias\">"@ + spec_escape_html(a) + "</span>"@
}

pub open spec fn tag_html(t: Seq<char>) -> Seq<char> {
    "<button class=\"ob-tag\" onclick=\"obTagSearch("@ + spec_js_str(t) + ");\">"@ + spec_escape_html(t) + "</button>"@
}

pub open spec fn properties_html(tags: Seq<Seq<char>>, aliases: Seq<Seq<char>>) -> Seq<char> {
    STYLE@ + SCRIPT@ + "<div class=\"ob-properties\">\n"@
        + (if aliases.len() > 0 {
            "<div class=\"ob-prop-row\"><span class=\"ob-prop-label\">Aliases</span>"@ + concat_map(aliases, |a: Seq<char>| alias_html(a)) + "</div>\n"@
        } else {
            Seq::empty()
        })
        + (if tags.len() > 0 {
            "<div class=\"ob-prop-row\"><span class=\"ob-prop-label\">Tags</span>"@ + concat_map(tags, |t: Seq<char>| tag_html(t)) + "</div>\n"@
        } else {
            Seq::empty()
        })
        + "</div>\n\n"@
}

/// The chapter without its front matter, led by the properties panel when
/// the front matter has tags or aliases.
pub open spec fn spec_process(content: Seq<char>) -> Seq<char> {
    match spec_extract_frontmatter(content) {
        None => content,
        Some(p) => {
            let tags = spec_parse_list(p.0, "tags"@);
            let aliases = spec_parse_list(p.0, "aliases"@);
            let rest = text::trim_start_char(p.1, '\n');
            if tags.len() == 0 && aliases.len() == 0 {
                rest
            } else {
                properties_html(tags, aliases) + rest
            }
        },
    }
}

/// Splits off the front matter: `(front_matter, rest)`.
pub fn extract_frontmatter(content: &str) -> (r: Option<(String, String)>)
    ensures
        r is None <==> spec_extract_frontmatter(content@) is None,
        r matches Some(p) ==> spec_extract_frontmatter(content@) == Some((p.0@, p.1@)),
{
    let cv = chars_of(content);
    let c = cv.as_slice();
    let crlf = chars_of("---\r\n");
    let lf = chars_of("---\n");
    let body: Vec<char> = if starts_with_exec(c, crlf.as_slice()) {
        assert(crlf@.len() == 5) by { reveal_strlit("---\r\n"); }
        slice_vec(c, 5, c.len())
    } else if starts_with_exec(c, lf.as_slice()) {
        assert(lf@.len() == 4) by { reveal_strlit("---\n"); }
        slice_vec(c, 4, c.len())
    } else {
        return None;
    };
    assert(c@.len() >= 5 ==> c@.subrange(5, c@.len() as int) =~= c@.skip(5));
    assert(c@.len() >= 4 ==> c@.subrange(4, c@.len() as int) =~= c@.skip(4));
    let b = body.as_slice();
    let m1 = chars_of("\n---\r\n");
    let m2 = chars_of("\n---\n");
    let m3 = chars_of("\n---");
    proof {
        reveal_strlit("\n---\r\n");
        reveal_strlit("\n---\n");
        reveal_strlit("\n---");
    }
    match find_exec(b, m1.as_slice()) {
        Some(pos) => {
            proof {
                text::lemma_find_from_some(b@, m1@, 0);
            }
            let fm = slice_vec(b, 0, pos);
            let rest = slice_vec(b, pos + 6, b.len());
            assert(b@.subrange(0, pos as int) =~= b@.take(pos as int));
            assert(b@.subrange(pos + 6, b@.len() as int) =~= b@.skip(pos + 6));
            return Some((string_of(fm.as_slice()), string_of(rest.as_slice())));
        },
        None => {},
    }
    match find_exec(b, m2.as_slice()) {
        Some(pos) => {
            proof {
                text::lemma_find_from_some(b@, m2@, 0);
            }
            let fm = slice_vec(b, 0, pos);
            let rest = slice_vec(b, pos + 5, b.len());
            assert(b@.subrange(0, pos as int) =~= b@.take(pos as int));
            assert(b@.subrange(pos + 5, b@.len() as int) =~= b@.skip(pos + 5));
            return Some((string_of(fm.as_slice()), string_of(rest.as_slice())));
        },
        None => {},
    }
    if text::ends_with_exec(b, m3.as_slice()) {
        let fm = slice_vec(b, 0, b.len() - 4);
        assert(b@.subrange(0, b@.len() - 4) =~= b@.take(b@.len() - 4));
        let empty: Vec<char> = Vec::new();
        assert(empty@ =~= Seq::<char>::empty());
        return Some((string_of(fm.as_slice()), string_of(empty.as_slice())));
    }
    None
}

/// Trims `s` and removes one pair of surrounding quotes.
pub fn unquote(s: &str) -> (res: String)
    ensures
        res@ == spec_unquote(s@),
{
    let sv = chars_of(s);
    let t = trim_vec(sv.as_slice());
    let n = t.len();
    if n >= 2 && ((t[0] == '"' && t[n - 1] == '"') || (t[0] == '\'' && t[n - 1] == '\'')) {
        string_of(&t.as_slice()[1..n - 1])
    } else {
        string_of(t.as_slice())
    }
}

/// Unquotes a tag and removes its leading `#`.
pub fn normalize_tag(s: &str) -> (res: String)
    ensures
        res@ == spec_normalize_tag(s@),
{
    let u = unquote(s);
    let uv = chars_of(u.as_str());
    let k = text::trim_start_char_len(uv.as_slice(), '#');
    let r = slice_vec(uv.as_slice(), k, uv.len());
    assert(uv@.subrange(k as int, uv@.len() as int) =~= uv@.skip(k as int));
    string_of(r.as_slice())
}

/// The items of an inline `[a, b]` array.
pub fn parse_inline_array(s: &str) -> (res: Vec<String>)
    ensures
        strings_view(res@) == spec_parse_inline_array(s@),
{
    let sv = chars_of(s);
    let t = trim_vec(sv.as_slice());
    let ts = t.as_slice();
    let closes = ts.len() >= 2 && ts[0] == '[' && ts[ts.len() - 1] == ']';
    proof {
        if ts@.len() >= 1 {
            assert(ts@.subrange(0, 1) =~= seq![ts@[0]]);
        }
        let sk = ts@.skip(1);
        if ts@.len() >= 2 {
            assert(sk.skip(sk.len() - 1) =~= seq![ts@[ts@.len() - 1]]);
        }
        if text::starts_with(ts@, seq!['[']) {
            assert(ts@.subrange(0, 1)[0] == '[');
        }
        if ts@.len() >= 1 && text::ends_with(sk, seq![']']) {
            assert(sk.skip(sk.len() - 1)[0] == ']');
        }
    }
    let inner: Vec<char> = if closes {
        slice_vec(ts, 1, ts.len() - 1)
    } else {
        slice_vec(ts, 0, ts.len())
    };
    assert(ts@.len() >= 2 ==> ts@.subrange(1, ts@.len() - 1) =~= ts@.skip(1).drop_last());
    assert(ts@.subrange(0, ts@.len() as int) =~= ts@);
    let parts = split_char_exec(inner.as_slice(), ',');
    let ghost gp = text::split_char(inner@, ',').map_values(|x: Seq<char>| spec_normalize_tag(text::trim(x)));
    let mut out: Vec<String> = Vec::new();
    let mut i: usize = 0;
    assert(gp.take(0) =~= Seq::<Seq<char>>::empty());
    while i < parts.len()
        invariant
            i <= parts.len(),
            parts@.len() == gp.len(),
            gp == text::split_char(inner@, ',').map_values(|x: Seq<char>| spec_normalize_tag(text::trim(x))),
            forall|j: int| 0 <= j < parts@.len() ==> #[trigger] parts@[j]@ == text::split_char(inner@, ',')[j],
            strings_view(out@) == nonempty_only(gp.take(i as int)),
        decreases parts.len() - i,
    {
        let p = trim_vec(parts[i].as_slice());
        let tag = normalize_tag(string_of(p.as_slice()).as_str());
        assert(gp[i as int] == tag@);
        assert(gp.take(i + 1).drop_last() =~= gp.take(i as int));
        assert(gp.take(i + 1).last() == gp[i as int]);
        let ghost before = out@;
        if !tag.as_str().is_empty() {
            out.push(tag);
            assert(strings_view(out@) =~= strings_view(before).push(out@.last()@));
        }
        i += 1;
    }
    assert(gp.take(parts.len() as int) =~= gp);
    out
}

fn block_items_exec(ls: &Vec<Vec<char>>, start: usize) -> (res: Vec<String>)
    requires
        start <= ls@.len(),
    ensures
        strings_view(res@) == block_items(ls@.map_values(|v: Vec<char>| v@), start as int),
{
    let ghost v = ls@.map_values(|v: Vec<char>| v@);
    let mut out: Vec<String> = Vec::new();
    let mut j: usize = start;
    let dash: [char; 2] = ['-', ' '];
    let ds = dash.as_slice();
    assert(ds@ =~= seq!['-', ' ']);
    while j < ls.len()
        invariant
            start <= j <= ls@.len(),
            v == ls@.map_values(|v: Vec<char>| v@),
            ds@ == seq!['-', ' '],
            block_items(v, start as int) == strings_view(out@) + block_items(v, j as int),
        decreases ls@.len() - j,
    {
        let t = trim_vec(ls[j].as_slice());
        assert(ls@[j as int]@ == v[j as int]);
        if starts_with_exec(t.as_slice(), ds) {
            let item = trim_vec(&t.as_slice()[2..t.len()]);
            assert(t@.subrange(2, t@.len() as int) =~= t@.skip(2));
            let tag = normalize_tag(string_of(item.as_slice()).as_str());
            let ghost before = out@;
            out.push(tag);
            assert(strings_view(out@) =~= strings_view(before) + seq![tag@]);
        } else if t.len() == 0 {
        } else {
            assert(block_items(v, j as int) =~= Seq::<Seq<char>>::empty());
            assert(strings_view(out@) + Seq::<Seq<char>>::empty() =~= strings_view(out@));
            return out;
        }
        j += 1;
    }
    assert(block_items(v, j as int) =~= Seq::<Seq<char>>::empty());
    assert(strings_view(out@) + Seq::<Seq<char>>::empty() =~= strings_view(out@));
    out
}

/// The values of `key` in the front matter `yaml`.
pub fn parse_list(yaml: &str, key: &str) -> (res: Vec<String>)
    ensures
        strings_view(res@) == spec_parse_list(yaml@, key@),
{
    let mut search = chars_of(key);
    search.push(':');
    let yv = chars_of(yaml);
    let ls = str_lines_exec(yv.as_slice());
    let ghost v = ls@.map_values(|v: Vec<char>| v@);
    assert(v =~= text::str_lines(yaml@));
    let mut i: usize = 0;
    while i < ls.len()
        invariant
            i <= ls@.len(),
            v == ls@.map_values(|v: Vec<char>| v@),
            v == text::str_lines(yaml@),
            search@ == key@.push(':'),
            parse_list_from(v, search@, 0) == parse_list_from(v, search@, i as int),
        decreases ls@.len() - i,
    {
        let line = ls[i].as_slice();
        assert(line@ == v[i as int]);
        let k = trim_start_len(line);
        let t = &line[k..line.len()];
        if starts_with_exec(t, search.as_slice()) {
            let value = trim_vec(&t[search.len()..t.len()]);
            assert(t@.subrange(search@.len() as int, t@.len() as int) =~= t@.skip(search@.len() as int));
            if value.len() > 0 && value[0] == '[' {
                assert(value@.subrange(0, 1) =~= seq!['[']);
                return parse_inline_array(string_of(value.as_slice()).as_str());
            }
            proof {
                if text::starts_with(value@, seq!['[']) {
                    assert(value@.subrange(0, 1)[0] == '[');
                }
            }
            if value.len() > 0 {
                let mut r: Vec<String> = Vec::new();
                r.push(normalize_tag(string_of(value.as_slice()).as_str()));
                assert(strings_view(r@) =~= seq![spec_normalize_tag(value@)]);
                return r;
            }
            return block_items_exec(&ls, i + 1);
        }
        i += 1;
    }
    let r: Vec<String> = Vec::new();
    assert(strings_view(r@) =~= Seq::<Seq<char>>::empty());
    r
}

/// Escapes `& < > "` for HTML.
pub fn escape_html(s: &str) -> (res: String)
    ensures
        res@ == spec_escape_html(s@),
{
    let sv = chars_of(s);
    let a = replace_char_exec(sv.as_slice(), '&', chars_of("&amp;").as_slice());
    let b = replace_char_exec(a.as_slice(), '<', chars_of("&lt;").as_slice());
    let c = replace_char_exec(b.as_slice(), '>', chars_of("&gt;").as_slice());
    let d = replace_char_exec(c.as_slice(), '"', chars_of("&quot;").as_slice());
    string_of(d.as_slice())
}

/// `s` as a double-quoted JavaScript string literal.
pub fn js_str(s: &str) -> (res: String)
    ensures
        res@ == spec_js_str(s@),
{
    let sv = chars_of(s);
    let a = replace_char_exec(sv.as_slice(), '\\', chars_of("\\\\").as_slice());
    let b = replace_char_exec(a.as_slice(), '"', chars_of("\\\"").as_slice());
    let c = replace_char_exec(b.as_slice(), '\n', chars_of("\\n").as_slice());
    let nothing: Vec<char> = Vec::new();
    assert(nothing@ =~= Seq::<char>::empty());
    let d = replace_char_exec(c.as_slice(), '\r', nothing.as_slice());
    let mut out: Vec<char> = Vec::new();
    out.push('"');
    push_all(&mut out, d.as_slice());
    out.push('"');
    string_of(out.as_slice())
}

fn concat_aliases(aliases: &Vec<String>) -> (res: Vec<char>)
    ensures
        res@ == concat_map(strings_view(aliases@), |a: Seq<char>| alias_html(a)),
{
    let ghost v = strings_view(aliases@);
    let ghost f = |a: Seq<char>| alias_html(a);
    let mut out: Vec<char> = Vec::new();
    let mut i: usize = 0;
    assert(v.take(0) =~= Seq::<Seq<char>>::empty());
    while i < aliases.len()
        invariant
            i <= aliases@.len(),
            v == strings_view(aliases@),
            f == (|a: Seq<char>| alias_html(a)),
            out@ == concat_map(v.take(i as int), f),
        decreases aliases@.len() - i,
    {
        push_str(&mut out, "<span class=\"ob-alias\">");
        let e = escape_html(aliases[i].as_str());
        push_str(&mut out, e.as_str());
        push_str(&mut out, "</span>");
        assert(v.take(i + 1).drop_last() =~= v.take(i as int));
        assert(v.take(i + 1).last() == aliases@[i as int]@);
        i += 1;
    }
    assert(v.take(aliases@.len() as int) =~= v);
    out
}

fn concat_tags(tags: &Vec<String>) -> (res: Vec<char>)
    ensures
        res@ == concat_map(strings_view(tags@), |t: Seq<char>| tag_html(t)),
{
    let ghost v = strings_view(tags@);
    let ghost f = |t: Seq<char>| tag_html(t);
    let mut out: Vec<char> = Vec::new();
    let mut i: usize = 0;
    assert(v.take(0) =~= Seq::<Seq<char>>::empty());
    while i < tags.len()
        invariant
            i <= tags@.len(),
            v == strings_view(tags@),
            f == (|t: Seq<char>| tag_html(t)),
            out@ == concat_map(v.take(i as int), f),
        decreases tags@.len() - i,
    {
        push_str(&mut out, "<button class=\"ob-tag\" onclick=\"obTagSearch(");
        let j = js_str(tags[i].as_str());
        push_str(&mut out, j.as_str());
        push_str(&mut out, ");\">");
        let e = escape_html(tags[i].as_str());
        push_str(&mut out, e.as_str());
        push_str(&mut out, "</button>");
        assert(v.take(i + 1).drop_last() =~= v.take(i as int));
        assert(v.take(i + 1).last() == tags@[i as int]@);
        i += 1;
    }
    assert(v.take(tags@.len() as int) =~= v);
    out
}

/// Replaces the front matter with a properties panel of its tags and aliases.
pub fn process(content: &str) -> (res: String)
    ensures
        res@ == spec_process(content@),
{
    let (fm, rest) = match extract_frontmatter(content) {
        None => {
            return content.to_owned();
        },
        Some(p) => p,
    };
    let tags = parse_list(fm.as_str(), "tags");
    let aliases = parse_list(fm.as_str(), "aliases");
    let rv = chars_of(rest.as_str());
    let k = text::trim_start_char_len(rv.as_slice(), '\n');
    let rest_t = &rv.as_slice()[k..rv.len()];
    assert(rest_t@ =~= rv@.skip(k as int));
    if tags.len() == 0 && aliases.len() == 0 {
        return string_of(rest_t);
    }
    let mut out: Vec<char> = Vec::new();
    push_str(&mut out, STYLE);
    push_str(&mut out, SCRIPT);
    push_str(&mut out, "<div class=\"ob-properties\">\n");
    if aliases.len() > 0 {
        push_str(&mut out, "<div class=\"ob-prop-row\"><span class=\"ob-prop-label\">Aliases</span>");
        let a = concat_aliases(&aliases);
        push_all(&mut out, a.as_slice());
        push_str(&mut out, "</div>\n");
    }
    if tags.len() > 0 {
        push_str(&mut out, "<div class=\"ob-prop-row\"><span class=\"ob-prop-label\">Tags</span>");
        let t = concat_tags(&tags);
        push_all(&mut out, t.as_slice());
        push_str(&mut out, "</div>\n");
    }
    push_str(&mut out, "</div>\n\n");
    push_all(&mut out, rest_t);
    string_of(out.as_slice())
}

/// Escaped text holds no `<`, `>` or `"`: whatever a tag or an alias says,
/// it cannot open or close an element or end an attribute value.
pub proof fn law_escaped_html_is_inert(s: Seq<char>)
    ensures
        !spec_escape_html(s).contains('<'),
        !spec_escape_html(s).contains('>'),
        !spec_escape_html(s).contains('"'),
{
    reveal_strlit("&amp;");
    reveal_strlit("&lt;");
    reveal_strlit("&gt;");
    reveal_strlit("&quot;");
    let a = text::replace_char(s, '&', "&amp;"@);
    let b = text::replace_char(a, '<', "&lt;"@);
    let c = text::replace_char(b, '>', "&gt;"@);
    let d = text::replace_char(c, '"', "&quot;"@);
    assert(!"&amp;"@.contains('<') && !"&amp;"@.contains('>') && !"&amp;"@.contains('"'));
    assert(!"&lt;"@.contains('<') && !"&lt;"@.contains('>') && !"&lt;"@.contains('"'));
    assert(!"&gt;"@.contains('<') && !"&gt;"@.contains('>') && !"&gt;"@.contains('"'));
    assert(!"&quot;"@.contains('<') && !"&quot;"@.contains('>') && !"&quot;"@.contains('"'));
    text::lemma_replace_char_contains(b, '>', "&gt;"@, '<');
    text::lemma_replace_char_contains(a, '<', "&lt;"@, '<');
    text::lemma_replace_char_contains(c, '"', "&quot;"@, '<');
    text::lemma_replace_char_contains(c, '"', "&quot;"@, '>');
    text::lemma_replace_char_contains(b, '>', "&gt;"@, '>');
    text::lemma_replace_char_contains(c, '"', "&quot;"@, '"');
}

/// A chapter that does not start with a `---` line has no front matter and
/// is left as it is.
pub proof fn law_chapter_without_frontmatter_unchanged(content: Seq<char>)
    requires
        !text::starts_with(content, "---\n"@),
        !text::starts_with(content, "---\r\n"@),
    ensures
        spec_process(content) == content,
{
}

/// An opening front matter line.
pub open spec fn is_opener(o: Seq<char>) -> bool {
    o == "---\r\n"@ || o == "---\n"@
}

/// A closing front matter line; the bare `\n---` only at the very end.
pub open spec fn is_closer(c: Seq<char>, rest: Seq<char>) -> bool {
    c == "\n---\r\n"@ || c == "\n---\n"@ || (c == "\n---"@ && rest.len() == 0)
}

proof fn lemma_found_split(b: Seq<char>, pat: Seq<char>)
    requires
        text::find(b, pat) is Some,
    ensures
        b == b.take(text::find(b, pat)->0) + pat + b.skip(text::find(b, pat)->0 + pat.len()),
{
    text::lemma_find_from_some(b, pat, 0);
    let pos = text::find(b, pat)->0;
    assert(b.subrange(pos, pos + pat.len()) == pat);
    assert(b =~= b.take(pos) + b.subrange(pos, pos + pat.len()) + b.skip(pos + pat.len()));
}

/// Splitting off the front matter loses nothing: the chapter is an opening
/// `---` line, the front matter, a closing `---` line and the rest.
pub proof fn law_frontmatter_split(content: Seq<char>)
    ensures
        spec_extract_frontmatter(content) matches Some(p) ==> exists|o: Seq<char>, c: Seq<char>|
            #![trigger is_opener(o), is_closer(c, p.1)]
            is_opener(o) && is_closer(c, p.1) && content == o + p.0 + c + p.1,
{
    reveal_strlit("---\r\n");
    reveal_strlit("---\n");
    reveal_strlit("\n---\r\n");
    reveal_strlit("\n---\n");
    reveal_strlit("\n---");
    if let Some(p) = spec_extract_frontmatter(content) {
        let o: Seq<char> = if text::starts_with(content, "---\r\n"@) { "---\r\n"@ } else { "---\n"@ };
        assert(text::starts_with(content, o));
        assert(content.subrange(0, o.len() as int) == o);
        let b = content.skip(o.len() as int);
        assert(content =~= o + b);
        let c: Seq<char> = if text::find(b, "\n---\r\n"@) is Some {
            lemma_found_split(b, "\n---\r\n"@);
            "\n---\r\n"@
        } else if text::find(b, "\n---\n"@) is Some {
            lemma_found_split(b, "\n---\n"@);
            "\n---\n"@
        } else {
            assert(text::ends_with(b, "\n---"@));
            assert(b =~= b.take(b.len() - 4) + b.skip(b.len() - 4));
            "\n---"@
        };
        assert(is_opener(o) && is_closer(c, p.1));
        assert(content =~= o + p.0 + c + p.1);
    }
}

/// Reading the four entities back: `&amp;`, `&lt;`, `&gt;` and `&quot;`
/// become `&`, `<`, `>` and `"`; everything else stays.
pub open spec fn unescape_html(t: Seq<char>) -> Seq<char>
    decreases t.len(),
{
    if t.len() == 0 {
        t
    } else if text::starts_with(t, seq!['&', 'a', 'm', 'p', ';']) {
        seq!['&'] + unescape_html(t.skip(5))
    } else if text::starts_with(t, seq!['&', 'l', 't', ';']) {
        seq!['<'] + unescape_html(t.skip(4))
    } else if text::starts_with(t, seq!['&', 'g', 't', ';']) {
        seq!['>'] + unescape_html(t.skip(4))
    } else if text::starts_with(t, seq!['&', 'q', 'u', 'o', 't', ';']) {
        seq!['"'] + unescape_html(t.skip(6))
    } else {
        seq![t[0]] + unescape_html(t.drop_first())
    }
}

/// One character escaped.
pub open spec fn escape_char(c: char) -> Seq<char> {
    if c == '&' {
        "&amp;"@
    } else if c == '<' {
        "&lt;"@
    } else if c == '>' {
        "&gt;"@
    } else if c == '"' {
        "&quot;"@
    } else {
        seq![c]
    }
}

proof fn lemma_replace_char_append(a: Seq<char>, b: Seq<char>, c: char, r: Seq<char>)
    ensures
        text::replace_char(a + b, c, r) == text::replace_char(a, c, r) + text::replace_char(b, c, r),
    decreases a.len(),
{
    if a.len() > 0 {
        lemma_replace_char_append(a.drop_first(), b, c, r);
        assert((a + b).drop_first() =~= a.drop_first() + b);
    } else {
        assert(a + b =~= b);
    }
}

proof fn lemma_replace_char_free(s: Seq<char>, c: char, r: Seq<char>)
    requires
        !s.contains(c),
    ensures
        text::replace_char(s, c, r) == s,
    decreases s.len(),
{
    if s.len() > 0 {
        assert(s.drop_first().contains(c) ==> s.contains(c)) by {
            if s.drop_first().contains(c) {
                let k = choose|k: int| 0 <= k < s.drop_first().len() && s.drop_first()[k] == c;
                assert(s[k + 1] == c);
            }
        }
        lemma_replace_char_free(s.drop_first(), c, r);
        assert(s[0] != c);
        assert(s =~= seq![s[0]] + s.drop_first());
    }
}

proof fn lemma_escape_first(s: Seq<char>)
    requires
        s.len() > 0,
    ensures
        spec_escape_html(s) == escape_char(s[0]) + spec_escape_html(s.drop_first()),
{
    reveal_strlit("&amp;");
    reveal_strlit("&lt;");
    reveal_strlit("&gt;");
    reveal_strlit("&quot;");
    let h = seq![s[0]];
    let rest = s.drop_first();
    assert(s =~= h + rest);
    let r1 = text::replace_char(h, '&', "&amp;"@);
    let r2 = text::replace_char(r1, '<', "&lt;"@);
    let r3 = text::replace_char(r2, '>', "&gt;"@);
    let r4 = text::replace_char(r3, '"', "&quot;"@);
    lemma_replace_char_append(h, rest, '&', "&amp;"@);
    let q1 = text::replace_char(rest, '&', "&amp;"@);
    lemma_replace_char_append(r1, q1, '<', "&lt;"@);
    let q2 = text::replace_char(q1, '<', "&lt;"@);
    lemma_replace_char_append(r2, q2, '>', "&gt;"@);
    let q3 = text::replace_char(q2, '>', "&gt;"@);
    lemma_replace_char_append(r3, q3, '"', "&quot;"@);
    assert(h.drop_first() =~= Seq::<char>::empty());
    assert(r1 =~= if s[0] == '&' { "&amp;"@ } else { h });
    if s[0] == '&' {
        lemma_replace_char_free("&amp;"@, '<', "&lt;"@);
        lemma_replace_char_free("&amp;"@, '>', "&gt;"@);
        lemma_replace_char_free("&amp;"@, '"', "&quot;"@);
    } else {
        assert(text::replace_char(h.drop_first(), '<', "&lt;"@) =~= Seq::<char>::empty());
        assert(r2 =~= if s[0] == '<' { "&lt;"@ } else { h });
        if s[0] == '<' {
            lemma_replace_char_free("&lt;"@, '>', "&gt;"@);
            lemma_replace_char_free("&lt;"@, '"', "&quot;"@);
        } else {
            assert(text::replace_char(h.drop_first(), '>', "&gt;"@) =~= Seq::<char>::empty());
            assert(r3 =~= if s[0] == '>' { "&gt;"@ } else { h });
            if s[0] == '>' {
                lemma_replace_char_free("&gt;"@, '"', "&quot;"@);
            } else {
                assert(text::replace_char(h.drop_first(), '"', "&quot;"@) =~= Seq::<char>::empty());
            }
        }
    }
    assert(r4 == escape_char(s[0]));
}

/// Escaping loses nothing: reading the entities back gives the text again.
pub proof fn law_escape_html_round_trip(s: Seq<char>)
    ensures
        unescape_html(spec_escape_html(s)) == s,
    decreases s.len(),
{
    reveal_strlit("&amp;");
    reveal_strlit("&lt;");
    reveal_strlit("&gt;");
    reveal_strlit("&quot;");
    if s.len() == 0 {
        assert(spec_escape_html(s) =~= s);
    } else {
        lemma_escape_first(s);
        law_escape_html_round_trip(s.drop_first());
        let e = escape_char(s[0]);
        let t = spec_escape_html(s.drop_first());
        let w = e + t;
        assert(w.skip(e.len() as int) =~= t);
        if s[0] == '&' {
            assert(w.subrange(0, 5) =~= seq!['&', 'a', 'm', 'p', ';']);
        } else if s[0] == '<' {
            assert(w.subrange(0, 4) =~= seq!['&', 'l', 't', ';']);
        } else if s[0] == '>' {
            assert(w.subrange(0, 4) =~= seq!['&', 'g', 't', ';']);
            assert(!text::starts_with(w, seq!['&', 'l', 't', ';'])) by {
                if text::starts_with(w, seq!['&', 'l', 't', ';']) {
                    assert(w.subrange(0, 4)[1] == 'l');
                }
            }
            assert(!text::starts_with(w, seq!['&', 'a', 'm', 'p', ';'])) by {
                if text::starts_with(w, seq!['&', 'a', 'm', 'p', ';']) {
                    assert(w.subrange(0, 5)[1] == 'a');
                }
            }
        } else if s[0] == '"' {
            assert(w.subrange(0, 6) =~= seq!['&', 'q', 'u', 'o', 't', ';']);
            assert(!text::starts_with(w, seq!['&', 'l', 't', ';'])) by {
                if text::starts_with(w, seq!['&', 'l', 't', ';']) {
                    assert(w.subrange(0, 4)[1] == 'l');
                }
            }
            assert(!text::starts_with(w, seq!['&', 'g', 't', ';'])) by {
                if text::starts_with(w, seq!['&', 'g', 't', ';']) {
                    assert(w.subrange(0, 4)[1] == 'g');
                }
            }
            assert(!text::starts_with(w, seq!['&', 'a', 'm', 'p', ';'])) by {
                if text::starts_with(w, seq!['&', 'a', 'm', 'p', ';']) {
                    assert(w.subrange(0, 5)[1] == 'a');
                }
            }
        } else {
            assert(w[0] == s[0]);
            assert(!text::starts_with(w, seq!['&', 'a', 'm', 'p', ';'])) by {
                if text::starts_with(w, seq!['&', 'a', 'm', 'p', ';']) {
                    assert(w.subrange(0, 5)[0] == '&');
                }
            }
            assert(!text::starts_with(w, seq!['&', 'l', 't', ';'])) by {
                if text::starts_with(w, seq!['&', 'l', 't', ';']) {
                    assert(w.subrange(0, 4)[0] == '&');
                }
            }
            assert(!text::starts_with(w, seq!['&', 'g', 't', ';'])) by {
                if text::starts_with(w, seq!['&', 'g', 't', ';']) {
                    assert(w.subrange(0, 4)[0] == '&');
                }
            }
            assert(!text::starts_with(w, seq!['&', 'q', 'u', 'o', 't', ';'])) by {
                if text::starts_with(w, seq!['&', 'q', 'u', 'o', 't', ';']) {
                    assert(w.subrange(0, 6)[0] == '&');
                }
            }
            assert(w.drop_first() =~= t);
        }
        assert(s =~= seq![s[0]] + s.drop_first());
    }
}

/// `str::replace`: every occurrence of `pat` in `s`, left to right, replaced by `rep`.
pub open spec fn replace_all(s: Seq<char>, pat: Seq<char>, rep: Seq<char>) -> Seq<char> {
    text::replace_from(s, pat, rep, 0)
}

/// Undoing the escape with four `str::replace` calls, `&quot;`, `&gt;`,
/// `&lt;` and `&amp;` in that order.
pub open spec fn unescape_by_replace(r: Seq<char>) -> Seq<char> {
    replace_all(replace_all(replace_all(replace_all(r, "&quot;"@, "\""@), "&gt;"@, ">"@), "&lt;"@, "<"@), "&amp;"@, "&"@)
}

/// The character that replace number `k` (from 0) restores.
pub open spec fn entity_char(k: int) -> char {
    if k == 0 {
        '"'
    } else if k == 1 {
        '>'
    } else if k == 2 {
        '<'
    } else {
        '&'
    }
}

/// A character of the escaped text after the first `k` replaces: restored
/// when its entity has been replaced, else still escaped.
pub open spec fn esc_stage(x: char, k: int) -> Seq<char> {
    if (x == '"' && k >= 1) || (x == '>' && k >= 2) || (x == '<' && k >= 3) || (x == '&' && k >= 4) {
        seq![x]
    } else {
        escape_char(x)
    }
}

pub open spec fn stage_chunks(s: Seq<char>, k: int) -> Seq<Seq<char>> {
    Seq::new(s.len(), |i: int| esc_stage(s[i], k))
}

proof fn lemma_escape_flatten(s: Seq<char>)
    ensures
        spec_escape_html(s) == text::flatten(stage_chunks(s, 0)),
    decreases s.len(),
{
    if s.len() > 0 {
        lemma_escape_first(s);
        lemma_escape_flatten(s.drop_first());
        assert(stage_chunks(s, 0).drop_first() =~= stage_chunks(s.drop_first(), 0));
    } else {
        assert(spec_escape_html(s) =~= Seq::<char>::empty());
    }
}

proof fn lemma_stage_four(s: Seq<char>)
    ensures
        text::flatten(stage_chunks(s, 4)) == s,
    decreases s.len(),
{
    if s.len() > 0 {
        lemma_stage_four(s.drop_first());
        assert(stage_chunks(s, 4).drop_first() =~= stage_chunks(s.drop_first(), 4));
        assert(stage_chunks(s, 4)[0] == seq![s[0]]);
        assert(s =~= seq![s[0]] + s.drop_first());
    }
}

proof fn lemma_stage_step(s: Seq<char>, k: int)
    requires
        0 <= k <= 3,
    ensures
        replace_all(text::flatten(stage_chunks(s, k)), escape_char(entity_char(k)), seq![entity_char(k)]) == text::flatten(stage_chunks(s, k + 1)),
{
    reveal_strlit("&amp;");
    reveal_strlit("&lt;");
    reveal_strlit("&gt;");
    reveal_strlit("&quot;");
    let pat = escape_char(entity_char(k));
    let rep = seq![entity_char(k)];
    let cs = stage_chunks(s, k);
    assert(pat[0] == '&');
    assert forall|i: int| 0 <= i < cs.len() implies text::chunk_fits(#[trigger] cs[i], pat) by {
        let c = cs[i];
        let x = s[i];
        if c.len() == 1 {
            assert(c[0] == x);
            assert(x != '&');
            assert(c[0] != pat[0]);
        } else if c != pat {
            assert(c[1] != pat[1]);
        }
    }
    text::lemma_replace_chunks(Seq::empty(), cs, pat, rep);
    assert(Seq::<char>::empty() + text::flatten(cs) =~= text::flatten(cs));
    assert forall|i: int| 0 <= i < cs.len() implies #[trigger] text::replaced_chunks(cs, pat, rep)[i] == stage_chunks(s, k + 1)[i] by {
        let x = s[i];
        if x == entity_char(k) {
            assert(cs[i] == pat);
        } else if cs[i].len() > 1 {
            assert(cs[i][1] != pat[1] || cs[i].len() != pat.len());
        }
    }
    assert(text::replaced_chunks(cs, pat, rep) =~= stage_chunks(s, k + 1));
}

/// Undoing the escape with the chain of four `str::replace` calls gives the
/// text back.
pub proof fn law_escape_html_replace_round_trip(s: Seq<char>)
    ensures
        unescape_by_replace(spec_escape_html(s)) == s,
{
    reveal_strlit("\"");
    reveal_strlit(">");
    reveal_strlit("<");
    reveal_strlit("&");
    lemma_escape_flatten(s);
    lemma_stage_step(s, 0);
    lemma_stage_step(s, 1);
    lemma_stage_step(s, 2);
    lemma_stage_step(s, 3);
    lemma_stage_four(s);
    assert("\""@ =~= seq![entity_char(0)]);
    assert(">"@ =~= seq![entity_char(1)]);
    assert("<"@ =~= seq![entity_char(2)]);
    assert("&"@ =~= seq![entity_char(3)]);
}

} // verus!

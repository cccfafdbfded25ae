//! Callouts: a `> [!type] Title` line and the `> ` lines after it become a
//! styled HTML block; `+` / `-` after the type make it foldable, expanded
//! or collapsed.
use vstd::prelude::*;
use crate::text::{self, chars_of, find_exec, occurs_at_exec, push_all, push_str, starts_with_exec, string_of, trim_start_len, trim_vec};
use crate::lines::{self, fence_step, split_lines_exec};
use crate::trusted::{self, to_lowercase};

verus! {

/// The canonical name of a callout type; aliases map to their type.
pub open spec fn spec_normalize_callout_type(raw: Seq<char>) -> Seq<char> {
    if raw == "summary"@ || raw == "tldr"@ {
        "abstract"@
    } else if raw == "hint"@ || raw == "important"@ {
        "tip"@
    } else if raw == "check"@ || raw == "done"@ {
        "success"@
    } else if raw == "help"@ || raw == "faq"@ {
        "question"@
    } else if raw == "caution"@ || raw == "attention"@ {
        "warning"@
    } else if raw == "fail"@ || raw == "missing"@ {
        "failure"@
    } else if raw == "error"@ {
        "danger"@
    } else if raw == "cite"@ {
        "quote"@
    } else {
        raw
    }
}

/// `t` with its first character upper-cased when it is an ASCII lower-case letter.
pub open spec fn capitalize(t: Seq<char>) -> Seq<char> {
    if t.len() > 0 && 'a' <= t[0] && t[0] <= 'z' {
        seq![((t[0] as int) - 32) as char] + t.skip(1)
    } else {
        t
    }
}

pub open spec fn callout_prefix() -> Seq<char> {
    seq!['>', ' ', '[', '!']
}

/// `(type, title, foldable)` of a callout header line: `foldable` is
/// `Some(true)` for `+`, `Some(false)` for `-`; an empty title is the
/// capitalized type.
pub open spec fn spec_parse_callout_header(line: Seq<char>) -> Option<(Seq<char>, Seq<char>, Option<bool>)> {
    let t = text::trim_start(line);
    if !text::starts_with(t, callout_prefix()) {
        None
    } else {
        let rest = t.skip(4);
        match text::find(rest, seq![']']) {
            None => None,
            Some(be) => {
                let raw = trusted::lowercase(text::trim(rest.take(be)));
                let after = rest.skip(be + 1);
                let fold: Option<bool> = if text::starts_with(after, seq!['+']) {
                    Some(true)
                } else if text::starts_with(after, seq!['-']) {
                    Some(false)
                } else {
                    None
                };
                let title_str = if fold is Some { text::trim(after.skip(1)) } else { text::trim(after) };
                let canonical = spec_normalize_callout_type(raw);
                let title = if title_str.len() == 0 { capitalize(canonical) } else { title_str };
                Some((canonical, title, fold))
            },
        }
    }
}

/// The HTML of a callout; its body lines are joined with newlines and
/// surrounded by blank lines so that they are read as markdown.
pub open spec fn spec_render_callout(t: Seq<char>, title: Seq<char>, foldable: Option<bool>, body: Seq<Seq<char>>) -> Seq<char> {
    let body_md = text::join_char(body, '\n');
    match foldable {
        Some(expanded) => "<details class=\"callout callout-"@ + t + "\" data-callout=\""@ + t + "\""@
            + (if expanded { " open"@ } else { Seq::empty() })
            + ">\n<summary class=\"callout-title\">"@ + title + "</summary>\n<div class=\"callout-content\">\n\n"@
            + body_md + "\n\n</div>\n</details>\n\n"@,
        None => "<div class=\"callout callout-"@ + t + "\" data-callout=\""@ + t
            + "\">\n<div class=\"callout-title\">"@ + title + "</div>\n<div class=\"callout-content\">\n\n"@
            + body_md + "\n\n</div>\n</div>\n\n"@,
    }
}

/// A line that continues a callout body: `> ` followed by text, or a lone `>`.
pub open spec fn is_body_line(l: Seq<char>) -> bool {
    text::starts_with(l, seq!['>', ' ']) || l == seq!['>']
}

pub open spec fn body_text(l: Seq<char>) -> Seq<char> {
    if text::starts_with(l, seq!['>', ' ']) {
        l.skip(2)
    } else {
        Seq::empty()
    }
}

/// The index of the first line at or after `j` that does not continue a callout body.
pub open spec fn body_end(ls: Seq<Seq<char>>, j: int) -> int
    decreases ls.len() - j,
{
    if j < 0 || j >= ls.len() {
        j
    } else if is_body_line(ls[j]) {
        body_end(ls, j + 1)
    } else {
        j
    }
}

proof fn lemma_body_end(ls: Seq<Seq<char>>, j: int)
    requires
        0 <= j,
    ensures
        j <= body_end(ls, j),
        j <= ls.len() ==> body_end(ls, j) <= ls.len(),
        forall|k: int| j <= k < body_end(ls, j) ==> is_body_line(#[trigger] ls[k]),
    decreases ls.len() - j,
{
    if j < ls.len() && is_body_line(ls[j]) {
        lemma_body_end(ls, j + 1);
    }
}

pub open spec fn body_lines(ls: Seq<Seq<char>>, from: int, to: int) -> Seq<Seq<char>> {
    Seq::new((to - from) as nat, |k: int| body_text(ls[from + k]))
}

/// The output for lines `i..` given the open fence before line `i`, and
/// whether a callout was rendered among them.
pub open spec fn callouts_from(ls: Seq<Seq<char>>, i: int, fence: Option<(char, nat)>) -> (Seq<char>, bool)
    decreases ls.len() - i via callouts_from_decreases
{
    if i < 0 || i >= ls.len() {
        (Seq::empty(), false)
    } else {
        let line = ls[i];
        let nl: Seq<char> = if i < ls.len() - 1 { seq!['\n'] } else { Seq::empty() };
        if lines::is_fence_line(line) || fence is Some {
            let r = callouts_from(ls, i + 1, lines::fence_next(fence, line));
            (line + nl + r.0, r.1)
        } else {
            match spec_parse_callout_header(line) {
                Some(h) => {
                    let k = body_end(ls, i + 1);
                    let r = callouts_from(ls, k, fence);
                    (spec_render_callout(h.0, h.1, h.2, body_lines(ls, i + 1, k)) + r.0, true)
                },
                None => {
                    let r = callouts_from(ls, i + 1, fence);
                    (line + nl + r.0, r.1)
                },
            }
        }
    }
}

#[via_fn]
proof fn callouts_from_decreases(ls: Seq<Seq<char>>, i: int, fence: Option<(char, nat)>) {
    if 0 <= i < ls.len() {
        lemma_body_end(ls, i + 1);
    }
}

/// The chapter with its callouts rendered, and whether it had any.
pub open spec fn spec_convert_callouts(content: Seq<char>) -> (Seq<char>, bool) {
    callouts_from(lines::split_lines(content), 0, None)
}

/// Whether `s` is the literal `lit`.
fn eq_lit(s: &[char], lit: &str) -> (b: bool)
    ensures
        b == (s@ == lit@),
{
    let lv = chars_of(lit);
    let l = lv.as_slice();
    if s.len() != l.len() {
        return false;
    }
    let r = occurs_at_exec(s, 0, l);
    assert(r ==> s@.subrange(0, l@.len() as int) =~= s@);
    assert(s@ == l@ ==> s@.subrange(0, l@.len() as int) =~= s@);
    r
}

/// The canonical name of a callout type.
pub fn normalize_callout_type(raw: &str) -> (res: String)
    ensures
        res@ == spec_normalize_callout_type(raw@),
{
    let rv = chars_of(raw);
    let r = rv.as_slice();
    if eq_lit(r, "summary") || eq_lit(r, "tldr") {
        "abstract".to_owned()
    } else if eq_lit(r, "hint") || eq_lit(r, "important") {
        "tip".to_owned()
    } else if eq_lit(r, "check") || eq_lit(r, "done") {
        "success".to_owned()
    } else if eq_lit(r, "help") || eq_lit(r, "faq") {
        "question".to_owned()
    } else if eq_lit(r, "caution") || eq_lit(r, "attention") {
        "warning".to_owned()
    } else if eq_lit(r, "fail") || eq_lit(r, "missing") {
        "failure".to_owned()
    } else if eq_lit(r, "error") {
        "danger".to_owned()
    } else if eq_lit(r, "cite") {
        "quote".to_owned()
    } else {
        raw.to_owned()
    }
}

fn capitalize_exec(t: &[char]) -> (res: Vec<char>)
    ensures
        res@ == capitalize(t@),
{
    let mut out: Vec<char> = Vec::new();
    if t.len() > 0 && 'a' <= t[0] && t[0] <= 'z' {
        let up = ((t[0] as u8) - 32) as char;
        assert(up == ((t@[0] as int) - 32) as char);
        out.push(up);
        push_all(&mut out, &t[1..t.len()]);
        assert(t@.subrange(1, t@.len() as int) =~= t@.skip(1));
    } else {
        push_all(&mut out, t);
    }
    out
}

/// Parses `> [!type]`, `> [!type]+ Title`, `> [!type]- Title` etc.
pub fn parse_callout_header(line: &str) -> (r: Option<(String, String, Option<bool>)>)
    ensures
        r is None <==> spec_parse_callout_header(line@) is None,
        r matches Some(h) ==> spec_parse_callout_header(line@) == Some((h.0@, h.1@, h.2)),
{
    let lv = chars_of(line);
    let l = lv.as_slice();
    let k = trim_start_len(l);
    let t = &l[k..l.len()];
    let pre: [char; 4] = ['>', ' ', '[', '!'];
    let ps = pre.as_slice();
    assert(ps@ =~= callout_prefix());
    if !starts_with_exec(t, ps) {
        return None;
    }
    let rest = &t[4..t.len()];
    assert(rest@ =~= t@.skip(4));
    let br: [char; 1] = [']'];
    let bs = br.as_slice();
    assert(bs@ =~= seq![']']);
    match find_exec(rest, bs) {
        None => None,
        Some(be) => {
            proof {
                crate::links::lemma_find_char_bounds(rest@, ']', 0);
            }
            let raw_t = trim_vec(&rest[0..be]);
            assert(rest@.subrange(0, be as int) =~= rest@.take(be as int));
            let raw = to_lowercase(string_of(raw_t.as_slice()).as_str());
            let after = &rest[be + 1..rest.len()];
            assert(after@ =~= rest@.skip(be + 1));
            let fold: Option<bool> = if after.len() > 0 && after[0] == '+' {
                Some(true)
            } else if after.len() > 0 && after[0] == '-' {
                Some(false)
            } else {
                None
            };
            proof {
                assert(after@.len() > 0 ==> after@.subrange(0, 1) =~= seq![after@[0]]);
                if text::starts_with(after@, seq!['+']) {
                    assert(after@.subrange(0, 1)[0] == '+');
                }
                if text::starts_with(after@, seq!['-']) {
                    assert(after@.subrange(0, 1)[0] == '-');
                }
            }
            let title_t = if fold.is_some() {
                let tail = &after[1..after.len()];
                assert(tail@ =~= after@.skip(1));
                trim_vec(tail)
            } else {
                trim_vec(after)
            };
            let canonical = normalize_callout_type(raw.as_str());
            let title = if title_t.len() == 0 {
                let cc = chars_of(canonical.as_str());
                let c = capitalize_exec(cc.as_slice());
                string_of(c.as_slice())
            } else {
                string_of(title_t.as_slice())
            };
            Some((canonical, title, fold))
        },
    }
}

/// Joins the lines of `body` with newlines.
fn join_body(body: &[String]) -> (res: Vec<char>)
    ensures
        res@ == text::join_char(body@.map_values(|s: String| s@), '\n'),
{
    let ghost bs = body@.map_values(|s: String| s@);
    let mut out: Vec<char> = Vec::new();
    let mut i: usize = 0;
    assert(bs.take(0) =~= Seq::<Seq<char>>::empty());
    while i < body.len()
        invariant
            i <= body.len(),
            bs == body@.map_values(|s: String| s@),
            out@ == text::join_char(bs.take(i as int), '\n'),
        decreases body.len() - i,
    {
        proof {
            text::lemma_join_char_take(bs, '\n', i as int);
        }
        if i > 0 {
            out.push('\n');
        }
        push_str(&mut out, body[i].as_str());
        i += 1;
    }
    assert(bs.take(body.len() as int) =~= bs);
    out
}

/// The HTML block of a callout; foldable callouts use `<details>`.
pub fn render_callout(callout_type: &str, title: &str, foldable: Option<bool>, body: &[String]) -> (res: String)
    ensures
        res@ == spec_render_callout(callout_type@, title@, foldable, body@.map_values(|s: String| s@)),
{
    let body_md = join_body(body);
    let mut out: Vec<char> = Vec::new();
    match foldable {
        Some(expanded) => {
            push_str(&mut out, "<details class=\"callout callout-");
            push_str(&mut out, callout_type);
            push_str(&mut out, "\" data-callout=\"");
            push_str(&mut out, callout_type);
            push_str(&mut out, "\"");
            if expanded {
                push_str(&mut out, " open");
            }
            push_str(&mut out, ">\n<summary class=\"callout-title\">");
            push_str(&mut out, title);
            push_str(&mut out, "</summary>\n<div class=\"callout-content\">\n\n");
            push_all(&mut out, body_md.as_slice());
            push_str(&mut out, "\n\n</div>\n</details>\n\n");
        },
        None => {
            push_str(&mut out, "<div class=\"callout callout-");
            push_str(&mut out, callout_type);
            push_str(&mut out, "\" data-callout=\"");
            push_str(&mut out, callout_type);
            push_str(&mut out, "\">\n<div class=\"callout-title\">");
            push_str(&mut out, title);
            push_str(&mut out, "</div>\n<div class=\"callout-content\">\n\n");
            push_all(&mut out, body_md.as_slice());
            push_str(&mut out, "\n\n</div>\n</div>\n\n");
        },
    }
    string_of(out.as_slice())
}

pub open spec fn lines_view(ls: Seq<Vec<char>>) -> Seq<Seq<char>> {
    ls.map_values(|v: Vec<char>| v@)
}

fn is_body_line_exec(l: &[char]) -> (b: bool)
    ensures
        b == is_body_line(l@),
{
    let gt: [char; 2] = ['>', ' '];
    let gs = gt.as_slice();
    assert(gs@ =~= seq!['>', ' ']);
    let b = starts_with_exec(l, gs) || (l.len() == 1 && l[0] == '>');
    assert(l@.len() == 1 && l@[0] == '>' ==> l@ =~= seq!['>']);
    b
}

/// The body lines of a callout whose header is line `start - 1`, and the
/// index of the first line after the body.
fn collect_body(ls: &[Vec<char>], start: usize) -> (r: (Vec<String>, usize))
    requires
        start <= ls.len(),
    ensures
        r.1 as int == body_end(lines_view(ls@), start as int),
        r.0@.map_values(|s: String| s@) == body_lines(lines_view(ls@), start as int, r.1 as int),
{
    let ghost v = lines_view(ls@);
    let mut k: usize = start;
    let mut body: Vec<String> = Vec::new();
    while k < ls.len() && is_body_line_exec(ls[k].as_slice())
        invariant
            start <= k <= ls.len(),
            v == lines_view(ls@),
            body_end(v, start as int) == body_end(v, k as int),
            body@.len() == k - start,
            forall|j: int| 0 <= j < body@.len() ==> #[trigger] body@[j]@ == body_text(v[start + j]),
        decreases ls.len() - k,
    {
        let l = ls[k].as_slice();
        assert(l@ == v[k as int]);
        let gt: [char; 2] = ['>', ' '];
        let gs = gt.as_slice();
        assert(gs@ =~= seq!['>', ' ']);
        if starts_with_exec(l, gs) {
            let t = &l[2..l.len()];
            assert(t@ =~= l@.skip(2));
            body.push(string_of(t));
        } else {
            body.push(string_of(&l[0..0]));
            assert(l@.subrange(0, 0) =~= Seq::<char>::empty());
        }
        k += 1;
    }
    assert(body@.map_values(|s: String| s@) =~= body_lines(v, start as int, k as int));
    (body, k)
}

/// Renders every callout outside fenced code blocks; also says whether there was one.
pub fn convert_callouts(content: &str) -> (res: (String, bool))
    ensures
        res.0@ == spec_convert_callouts(content@).0,
        res.1 == spec_convert_callouts(content@).1,
{
    let cv = chars_of(content);
    let ls = split_lines_exec(cv.as_slice());
    let ghost gl = lines::split_lines(cv@);
    assert(gl =~= lines_view(ls@));
    let n = ls.len();
    let mut out: Vec<char> = Vec::new();
    let mut had: bool = false;
    let mut st: Option<(char, usize)> = None;
    let mut i: usize = 0;
    while i < n
        invariant
            i <= n,
            n == ls@.len(),
            ls@.len() == gl.len(),
            gl == lines::split_lines(cv@),
            gl == lines_view(ls@),
            cv@ == content@,
            forall|j: int| 0 <= j < ls@.len() ==> #[trigger] ls@[j]@ == gl[j],
            callouts_from(gl, 0, None).0 == out@ + callouts_from(gl, i as int, lines::fence_view(st)).0,
            callouts_from(gl, 0, None).1 == (had || callouts_from(gl, i as int, lines::fence_view(st)).1),
        decreases n - i,
    {
        let line = ls[i].as_slice();
        assert(line@ == gl[i as int]);
        let ghost fence = lines::fence_view(st);
        let verb = fence_step(&mut st, line);
        let header = if verb { None } else { parse_callout_header(string_of(line).as_str()) };
        let ghost before = out@;
        match header {
            Some(h) => {
                let (t, title, fold) = h;
                proof {
                    lemma_body_end(gl, i + 1);
                }
                let (body, k) = collect_body(ls.as_slice(), i + 1);
                let r = render_callout(t.as_str(), title.as_str(), fold, body.as_slice());
                push_str(&mut out, r.as_str());
                had = true;
                assert(callouts_from(gl, i as int, fence).0 == r@ + callouts_from(gl, k as int, fence).0);
                i = k;
            },
            None => {
                if i + 1 < n {
                    push_all(&mut out, line);
                    out.push('\n');
                } else {
                    push_all(&mut out, line);
                }
                assert(out@ =~= before + line@ + (if i < n - 1 { seq!['\n'] } else { Seq::<char>::empty() }));
                i += 1;
            },
        }
    }
    (string_of(out.as_slice()), had)
}

proof fn lemma_callouts_plain(ls: Seq<Seq<char>>, i: int, fence: Option<(char, nat)>)
    requires
        0 <= i,
        forall|j: int| 0 <= j < ls.len() ==> spec_parse_callout_header(#[trigger] ls[j]) is None,
    ensures
        callouts_from(ls, i, fence) == (if i < ls.len() { text::join_char(ls.skip(i), '\n') } else { Seq::<char>::empty() }, false),
    decreases ls.len() - i,
{
    if i < ls.len() {
        let line = ls[i];
        let next_fence = if lines::is_fence_line(line) || fence is Some { lines::fence_next(fence, line) } else { fence };
        lemma_callouts_plain(ls, i + 1, next_fence);
        if i < ls.len() - 1 {
            text::lemma_join_char_front(ls.skip(i), '\n');
            assert(ls.skip(i).drop_first() =~= ls.skip(i + 1));
            assert(ls.skip(i)[0] == line);
        } else {
            assert(ls.skip(i) =~= seq![line]);
            assert(line + Seq::<char>::empty() + Seq::<char>::empty() =~= line);
        }
    }
}

/// A chapter without `[!` holds no callout header: the conversion leaves
/// it as it is and reports no callout.
pub proof fn law_chapter_without_callouts_unchanged(content: Seq<char>)
    requires
        !text::contains(content, "[!"@),
    ensures
        spec_convert_callouts(content) == (content, false),
{
    reveal_strlit("[!");
    text::lemma_find_from_none(content, "[!"@, 0);
    let ls = lines::split_lines(content);
    text::lemma_split_char_len(content, '\n');
    assert forall|j: int| 0 <= j < ls.len() implies spec_parse_callout_header(#[trigger] ls[j]) is None by {
        let l = ls[j];
        let t = text::trim_start(l);
        if text::starts_with(t, callout_prefix()) {
            text::lemma_trim_start_skip(l);
            let m = choose|m: int| 0 <= m <= l.len() && t == l.skip(m);
            assert(l.subrange(m + 2, m + 4) =~= "[!"@);
            text::lemma_split_piece_occurs(content, '\n', "[!"@, j, m + 2);
        }
    }
    lemma_callouts_plain(ls, 0, None);
    assert(ls.skip(0) =~= ls);
    text::lemma_join_split(content, '\n');
}

/// Some line at or after `i`, outside fenced code, is a callout header.
pub open spec fn header_from(ls: Seq<Seq<char>>, i: int) -> bool {
    exists|k: int| i <= k < ls.len() && !lines::verbatim(ls, k) && (#[trigger] spec_parse_callout_header(ls[k])) is Some
}

proof fn lemma_callouts_flag(ls: Seq<Seq<char>>, i: int)
    requires
        0 <= i <= ls.len(),
    ensures
        callouts_from(ls, i, lines::fence_before(ls, i)).1 <==> header_from(ls, i),
        !callouts_from(ls, i, lines::fence_before(ls, i)).1 ==> callouts_from(ls, i, lines::fence_before(ls, i)).0 == (if i
            < ls.len() {
            text::join_char(ls.skip(i), '\n')
        } else {
            Seq::<char>::empty()
        }),
    decreases ls.len() - i,
{
    if i < ls.len() {
        let line = ls[i];
        let f = lines::fence_before(ls, i);
        lemma_callouts_flag(ls, i + 1);
        assert(lines::fence_before(ls, i + 1) == lines::fence_next(f, line));
        if lines::verbatim(ls, i) || spec_parse_callout_header(line) is None {
            assert(!lines::is_fence_line(line) ==> lines::fence_next(f, line) == f);
            assert(header_from(ls, i) <==> header_from(ls, i + 1)) by {
                if header_from(ls, i) {
                    let k = choose|k: int| i <= k < ls.len() && !lines::verbatim(ls, k) && (#[trigger] spec_parse_callout_header(ls[k])) is Some;
                    assert(k != i);
                }
            }
            if i < ls.len() - 1 {
                text::lemma_join_char_front(ls.skip(i), '\n');
                assert(ls.skip(i).drop_first() =~= ls.skip(i + 1));
                assert(ls.skip(i)[0] == line);
            } else {
                assert(ls.skip(i) =~= seq![line]);
                assert(line + Seq::<char>::empty() + Seq::<char>::empty() =~= line);
            }
        } else {
            assert(spec_parse_callout_header(ls[i]) is Some);
            assert(header_from(ls, i));
        }
    }
}

/// The callout pass reports a callout exactly when a line outside fenced
/// code is a callout header; when it reports none, the chapter comes back
/// as it was.
pub proof fn law_callout_flag(content: Seq<char>)
    ensures
        spec_convert_callouts(content).1 <==> header_from(lines::split_lines(content), 0),
        !spec_convert_callouts(content).1 ==> spec_convert_callouts(content).0 == content,
{
    let ls = lines::split_lines(content);
    text::lemma_split_char_len(content, '\n');
    lemma_callouts_flag(ls, 0);
    assert(lines::fence_before(ls, 0) is None);
    assert(ls.skip(0) =~= ls);
    text::lemma_join_split(content, '\n');
}

/// Each alias names the Obsidian type it stands for, and every other type
/// name is its own canonical name.
pub proof fn law_callout_aliases(raw: Seq<char>)
    ensures
        spec_normalize_callout_type("summary"@) == "abstract"@,
        spec_normalize_callout_type("tldr"@) == "abstract"@,
        spec_normalize_callout_type("hint"@) == "tip"@,
        spec_normalize_callout_type("important"@) == "tip"@,
        spec_normalize_callout_type("check"@) == "success"@,
        spec_normalize_callout_type("done"@) == "success"@,
        spec_normalize_callout_type("help"@) == "question"@,
        spec_normalize_callout_type("faq"@) == "question"@,
        spec_normalize_callout_type("caution"@) == "warning"@,
        spec_normalize_callout_type("attention"@) == "warning"@,
        spec_normalize_callout_type("fail"@) == "failure"@,
        spec_normalize_callout_type("missing"@) == "failure"@,
        spec_normalize_callout_type("error"@) == "danger"@,
        spec_normalize_callout_type("cite"@) == "quote"@,
        !(raw == "summary"@ || raw == "tldr"@ || raw == "hint"@ || raw == "important"@ || raw == "check"@
            || raw == "done"@ || raw == "help"@ || raw == "faq"@ || raw == "caution"@ || raw == "attention"@
            || raw == "fail"@ || raw == "missing"@ || raw == "error"@ || raw == "cite"@) ==> spec_normalize_callout_type(raw) == raw,
{
    reveal_strlit("summary");
    reveal_strlit("tldr");
    reveal_strlit("hint");
    reveal_strlit("important");
    reveal_strlit("check");
    reveal_strlit("done");
    reveal_strlit("help");
    reveal_strlit("faq");
    reveal_strlit("caution");
    reveal_strlit("attention");
    reveal_strlit("fail");
    reveal_strlit("missing");
    reveal_strlit("error");
    reveal_strlit("cite");
    assert("tldr"@.len() != "summary"@.len());
    assert("hint"@.len() != "summary"@.len());
    assert("hint"@[0] != "tldr"@[0]);
    assert("important"@.len() != "summary"@.len());
    assert("important"@.len() != "tldr"@.len());
    assert("important"@.len() != "hint"@.len());
    assert("check"@.len() != "summary"@.len());
    assert("check"@.len() != "tldr"@.len());
    assert("check"@.len() != "hint"@.len());
    assert("check"@.len() != "important"@.len());
    assert("done"@.len() != "summary"@.len());
    assert("done"@[0] != "tldr"@[0]);
    assert("done"@[0] != "hint"@[0]);
    assert("done"@.len() != "important"@.len());
    assert("done"@.len() != "check"@.len());
    assert("help"@.len() != "summary"@.len());
    assert("help"@[0] != "tldr"@[0]);
    assert("help"@[1] != "hint"@[1]);
    assert("help"@.len() != "important"@.len());
    assert("help"@.len() != "check"@.len());
    assert("help"@[0] != "done"@[0]);
    assert("faq"@.len() != "summary"@.len());
    assert("faq"@.len() != "tldr"@.len());
    assert("faq"@.len() != "hint"@.len());
    assert("faq"@.len() != "important"@.len());
    assert("faq"@.len() != "check"@.len());
    assert("faq"@.len() != "done"@.len());
    assert("faq"@.len() != "help"@.len());
    assert("caution"@[0] != "summary"@[0]);
    assert("caution"@.len() != "tldr"@.len());
    assert("caution"@.len() != "hint"@.len());
    assert("caution"@.len() != "important"@.len());
    assert("caution"@.len() != "check"@.len());
    assert("caution"@.len() != "done"@.len());
    assert("caution"@.len() != "help"@.len());
    assert("caution"@.len() != "faq"@.len());
    assert("attention"@.len() != "summary"@.len());
    assert("attention"@.len() != "tldr"@.len());
    assert("attention"@.len() != "hint"@.len());
    assert("attention"@[0] != "important"@[0]);
    assert("attention"@.len() != "check"@.len());
    assert("attention"@.len() != "done"@.len());
    assert("attention"@.len() != "help"@.len());
    assert("attention"@.len() != "faq"@.len());
    assert("attention"@.len() != "caution"@.len());
    assert("fail"@.len() != "summary"@.len());
    assert("fail"@[0] != "tldr"@[0]);
    assert("fail"@[0] != "hint"@[0]);
    assert("fail"@.len() != "important"@.len());
    assert("fail"@.len() != "check"@.len());
    assert("fail"@[0] != "done"@[0]);
    assert("fail"@[0] != "help"@[0]);
    assert("fail"@.len() != "faq"@.len());
    assert("fail"@.len() != "caution"@.len());
    assert("fail"@.len() != "attention"@.len());
    assert("missing"@[0] != "summary"@[0]);
    assert("missing"@.len() != "tldr"@.len());
    assert("missing"@.len() != "hint"@.len());
    assert("missing"@.len() != "important"@.len());
    assert("missing"@.len() != "check"@.len());
    assert("missing"@.len() != "done"@.len());
    assert("missing"@.len() != "help"@.len());
    assert("missing"@.len() != "faq"@.len());
    assert("missing"@[0] != "caution"@[0]);
    assert("missing"@.len() != "attention"@.len());
    assert("missing"@.len() != "fail"@.len());
    assert("error"@.len() != "summary"@.len());
    assert("error"@.len() != "tldr"@.len());
    assert("error"@.len() != "hint"@.len());
    assert("error"@.len() != "important"@.len());
    assert("error"@[0] != "check"@[0]);
    assert("error"@.len() != "done"@.len());
    assert("error"@.len() != "help"@.len());
    assert("error"@.len() != "faq"@.len());
    assert("error"@.len() != "caution"@.len());
    assert("error"@.len() != "attention"@.len());
    assert("error"@.len() != "fail"@.len());
    assert("error"@.len() != "missing"@.len());
    assert("cite"@.len() != "summary"@.len());
    assert("cite"@[0] != "tldr"@[0]);
    assert("cite"@[0] != "hint"@[0]);
    assert("cite"@.len() != "important"@.len());
    assert("cite"@.len() != "check"@.len());
    assert("cite"@[0] != "done"@[0]);
    assert("cite"@[0] != "help"@[0]);
    assert("cite"@.len() != "faq"@.len());
    assert("cite"@.len() != "caution"@.len());
    assert("cite"@.len() != "attention"@.len());
    assert("cite"@[0] != "fail"@[0]);
    assert("cite"@.len() != "missing"@.len());
    assert("cite"@.len() != "error"@.len());
}

} // verus!

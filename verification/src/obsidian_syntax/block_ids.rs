//! Block ids: `^id` at the end of a line, or alone on a line, become
//! `<span id="id">` anchors.
use vstd::prelude::*;
use crate::text::{self, chars_of, push_all, push_str, rfind_exec, starts_with_exec, string_of, trim_start_len, trim_vec};
use crate::lines::{self, fence_step, push_line, split_lines_exec};

verus! {

pub open spec fn ascii_alnum(c: char) -> bool {
    ('0' <= c && c <= '9') || ('A' <= c && c <= 'Z') || ('a' <= c && c <= 'z')
}

/// A character a block id may hold.
pub open spec fn id_char(c: char) -> bool {
    ascii_alnum(c) || c == '-'
}

/// Number of block-id characters at the start of `s`.
pub open spec fn id_run(s: Seq<char>) -> nat
    decreases s.len(),
{
    if s.len() > 0 && id_char(s[0]) {
        1 + id_run(s.drop_first())
    } else {
        0
    }
}

/// Number of ASCII digits at the start of `s`.
pub open spec fn digit_run(s: Seq<char>) -> nat
    decreases s.len(),
{
    if s.len() > 0 && '0' <= s[0] && s[0] <= '9' {
        1 + digit_run(s.drop_first())
    } else {
        0
    }
}

/// `s` carries no markdown block prefix: no heading, blockquote, `:` line,
/// list bullet (`- `, `* `, `+ `) or ordered-list number (`1. `, `1) `).
pub open spec fn spec_is_plain_paragraph(s: Seq<char>) -> bool {
    let t = text::trim_start(s);
    let d = if digit_run(t) < t.len() { digit_run(t) } else { 0 };
    &&& !text::starts_with(t, seq!['#'])
    &&& !text::starts_with(t, seq!['>'])
    &&& !text::starts_with(t, seq![':'])
    &&& !text::starts_with(t, seq!['-', ' '])
    &&& !text::starts_with(t, seq!['*', ' '])
    &&& !text::starts_with(t, seq!['+', ' '])
    &&& !(d > 0 && (text::starts_with(t.skip(d as int), seq!['.', ' ']) || text::starts_with(t.skip(d as int), seq![')', ' '])))
}

pub open spec fn empty_anchor(id: Seq<char>) -> Seq<char> {
    "<span id=\""@ + id + "\"></span>"@
}

/// One line with its block id turned into an anchor.
pub open spec fn spec_convert_block_id_line(line: Seq<char>) -> Seq<char> {
    let t = text::trim(line);
    if t.len() > 1 && t[0] == '^' && id_run(t.skip(1)) == t.len() - 1 {
        empty_anchor(t.skip(1))
    } else {
        match text::rfind(line, seq![' ', '^']) {
            None => line,
            Some(pos) => {
                let after = line.skip(pos + 2);
                let n = id_run(after);
                let id = after.take(n as int);
                let before = line.take(pos);
                if n > 0 && text::trim(after.skip(n as int)).len() == 0 {
                    if spec_is_plain_paragraph(before) {
                        "<span id=\""@ + id + "\">"@ + before + "</span>"@
                    } else {
                        before + " "@ + empty_anchor(id)
                    }
                } else {
                    line
                }
            },
        }
    }
}

pub open spec fn spec_convert_block_ids(content: Seq<char>) -> Seq<char> {
    lines::rewrite_prose(content, |l: Seq<char>| spec_convert_block_id_line(l))
}

fn is_id_char(c: char) -> (b: bool)
    ensures
        b == id_char(c),
{
    ('0' <= c && c <= '9') || ('A' <= c && c <= 'Z') || ('a' <= c && c <= 'z') || c == '-'
}

fn id_run_exec(s: &[char], i: usize) -> (n: usize)
    requires
        i <= s.len(),
    ensures
        n == id_run(s@.skip(i as int)),
        i + n <= s.len(),
{
    let mut k: usize = i;
    while k < s.len() && is_id_char(s[k])
        invariant
            i <= k <= s.len(),
            id_run(s@.skip(i as int)) == (k - i) + id_run(s@.skip(k as int)),
        decreases s.len() - k,
    {
        assert(s@.skip(k as int).drop_first() =~= s@.skip(k + 1));
        k += 1;
    }
    k - i
}

fn digit_run_exec(s: &[char]) -> (n: usize)
    ensures
        n == digit_run(s@),
        n <= s.len(),
{
    let mut k: usize = 0;
    assert(s@.skip(0) =~= s@);
    while k < s.len() && '0' <= s[k] && s[k] <= '9'
        invariant
            k <= s.len(),
            digit_run(s@) == k + digit_run(s@.skip(k as int)),
        decreases s.len() - k,
    {
        assert(s@.skip(k as int).drop_first() =~= s@.skip(k + 1));
        k += 1;
    }
    k
}

fn starts2(s: &[char], a: char, b: char) -> (r: bool)
    ensures
        r == text::starts_with(s@, seq![a, b]),
{
    let r = s.len() >= 2 && s[0] == a && s[1] == b;
    assert(r ==> s@.subrange(0, 2) =~= seq![a, b]);
    assert(text::starts_with(s@, seq![a, b]) ==> s@.subrange(0, 2)[0] == a && s@.subrange(0, 2)[1] == b);
    r
}

fn starts1(s: &[char], a: char) -> (r: bool)
    ensures
        r == text::starts_with(s@, seq![a]),
{
    let r = s.len() >= 1 && s[0] == a;
    assert(r ==> s@.subrange(0, 1) =~= seq![a]);
    assert(text::starts_with(s@, seq![a]) ==> s@.subrange(0, 1)[0] == a);
    r
}

/// Whether `s` is plain paragraph text, without a markdown block prefix.
pub fn is_plain_paragraph(s: &str) -> (b: bool)
    ensures
        b == spec_is_plain_paragraph(s@),
{
    let cv = chars_of(s);
    let k = trim_start_len(cv.as_slice());
    let t = &cv.as_slice()[k..cv.len()];
    if starts1(t, '#') || starts1(t, '>') || starts1(t, ':') {
        return false;
    }
    if starts2(t, '-', ' ') || starts2(t, '*', ' ') || starts2(t, '+', ' ') {
        return false;
    }
    let dr = digit_run_exec(t);
    let d = if dr < t.len() { dr } else { 0 };
    if d > 0 {
        let after = &t[d..t.len()];
        assert(after@ =~= t@.skip(d as int));
        if starts2(after, '.', ' ') || starts2(after, ')', ' ') {
            return false;
        }
    }
    true
}

fn push_empty_anchor(out: &mut Vec<char>, id: &[char])
    ensures
        final(out)@ == old(out)@ + empty_anchor(id@),
{
    push_str(out, "<span id=\"");
    push_all(out, id);
    push_str(out, "\"></span>");
}

/// Turns the block id of one line into an anchor.
pub fn convert_block_id_line(line: &str) -> (res: String)
    ensures
        res@ == spec_convert_block_id_line(line@),
{
    let lv = chars_of(line);
    let l = lv.as_slice();
    let tv = trim_vec(l);
    let t = tv.as_slice();
    if t.len() > 1 && t[0] == '^' {
        let n = id_run_exec(t, 1);
        if n == t.len() - 1 {
            let mut out: Vec<char> = Vec::new();
            let rest = &t[1..t.len()];
            assert(rest@ =~= t@.skip(1));
            push_empty_anchor(&mut out, rest);
            return string_of(out.as_slice());
        }
    }
    let pat: [char; 2] = [' ', '^'];
    let ps = pat.as_slice();
    assert(ps@ =~= seq![' ', '^']);
    match rfind_exec(l, ps) {
        None => string_of(l),
        Some(pos) => {
            proof {
                text::lemma_rfind_from_some(l@, seq![' ', '^'], l@.len() - 2);
            }
            assert(pos + 2 <= l.len());
            let n = id_run_exec(l, pos + 2);
            let after_id = &l[pos + 2 + n..l.len()];
            assert(after_id@ =~= l@.skip(pos + 2).skip(n as int));
            let rt = trim_vec(after_id);
            if n > 0 && rt.len() == 0 {
                let before = &l[0..pos];
                let id = &l[pos + 2..pos + 2 + n];
                assert(before@ =~= l@.take(pos as int));
                assert(id@ =~= l@.skip(pos + 2).take(n as int));
                let mut out: Vec<char> = Vec::new();
                if is_plain_paragraph(string_of(before).as_str()) {
                    push_str(&mut out, "<span id=\"");
                    push_all(&mut out, id);
                    push_str(&mut out, "\">");
                    push_all(&mut out, before);
                    push_str(&mut out, "</span>");
                } else {
                    push_all(&mut out, before);
                    push_str(&mut out, " ");
                    push_empty_anchor(&mut out, id);
                }
                string_of(out.as_slice())
            } else {
                string_of(l)
            }
        },
    }
}

/// Converts block ids outside fenced code blocks.
pub fn convert_block_ids(content: &str) -> (res: String)
    ensures
        res@ == spec_convert_block_ids(content@),
{
    let cv = chars_of(content);
    let ls = split_lines_exec(cv.as_slice());
    let ghost gl = lines::split_lines(cv@);
    let ghost f = |l: Seq<char>| spec_convert_block_id_line(l);
    let ghost outl = lines::map_prose(gl, f);
    let mut out: Vec<char> = Vec::new();
    let mut st: Option<(char, usize)> = None;
    let mut i: usize = 0;
    assert(outl.take(0) =~= Seq::<Seq<char>>::empty());
    while i < ls.len()
        invariant
            i <= ls.len(),
            ls@.len() == gl.len(),
            gl == lines::split_lines(cv@),
            cv@ == content@,
            forall|j: int| 0 <= j < ls@.len() ==> #[trigger] ls@[j]@ == gl[j],
            f == (|l: Seq<char>| spec_convert_block_id_line(l)),
            outl == lines::map_prose(gl, f),
            lines::fence_view(st) == lines::fence_before(gl, i as int),
            out@ == lines::join_lines(outl.take(i as int)),
        decreases ls.len() - i,
    {
        let line = ls[i].as_slice();
        assert(line@ == gl[i as int]);
        let verb = fence_step(&mut st, line);
        proof {
            lines::lemma_join_take(outl, i as int);
        }
        assert(outl[i as int] == if lines::verbatim(gl, i as int) { gl[i as int] } else { spec_convert_block_id_line(gl[i as int]) });
        if verb {
            push_line(&mut out, i == 0, line);
        } else {
            let t = convert_block_id_line(string_of(line).as_str());
            let tc = chars_of(t.as_str());
            push_line(&mut out, i == 0, tc.as_slice());
        }
        i += 1;
    }
    assert(outl.take(ls.len() as int) =~= outl);
    string_of(out.as_slice())
}

/// A chapter without `^` holds no block id: the conversion leaves it as it is.
pub proof fn law_chapter_without_block_ids_unchanged(content: Seq<char>)
    requires
        !content.contains('^'),
    ensures
        spec_convert_block_ids(content) == content,
{
    let ls = lines::split_lines(content);
    assert forall|i: int| 0 <= i < ls.len() implies spec_convert_block_id_line(#[trigger] ls[i]) == ls[i] by {
        let l = ls[i];
        assert(!l.contains('^')) by {
            if l.contains('^') {
                let k = choose|k: int| 0 <= k < l.len() && l[k] == '^';
                assert(l.subrange(k, k + 1) =~= seq!['^']);
                text::lemma_split_piece_occurs(content, '\n', seq!['^'], i, k);
                text::lemma_find_from_some(content, seq!['^'], 0);
                let m = text::find(content, seq!['^'])->0;
                assert(content.subrange(m, m + 1)[0] == content[m]);
            }
        }
        let t = text::trim(l);
        if t.len() > 1 && t[0] == '^' {
            text::lemma_trim_end_is_prefix(text::trim_start(l));
            text::lemma_trim_start_is_suffix(l, 0);
        }
        if let Some(pos) = text::rfind(l, seq![' ', '^']) {
            text::lemma_rfind_from_some(l, seq![' ', '^'], l.len() - 2);
            assert(l.subrange(pos, pos + 2)[1] == l[pos + 1]);
        }
    }
    lines::law_rewrite_prose_identity(content, |l: Seq<char>| spec_convert_block_id_line(l));
}

/// A blockquote, heading or `:` line (its first non-blank character is
/// `>`, `#` or `:`) is never wrapped in an anchor: whatever its block id
/// becomes, the converted line still starts with the same blank characters
/// and that character.
pub proof fn law_block_prefixed_lines_not_wrapped(line: Seq<char>, w: int)
    requires
        0 <= w < line.len(),
        forall|i: int| 0 <= i < w ==> text::is_ws(#[trigger] line[i]),
        line[w] == '>' || line[w] == '#' || line[w] == ':',
    ensures
        text::starts_with(spec_convert_block_id_line(line), line.take(w + 1)),
{
    let r = spec_convert_block_id_line(line);
    let c = line[w];
    assert(!text::is_ws(c));
    text::lemma_trim_start_at(line, w);
    let ts = text::trim_start(line);
    assert(ts[0] == c);
    text::lemma_trim_end_keeps_first(ts);
    text::lemma_trim_end_is_prefix(ts);
    assert(text::trim(line)[0] == c);
    match text::rfind(line, seq![' ', '^']) {
        None => {
            assert(r == line);
        },
        Some(pos) => {
            text::lemma_rfind_from_some(line, seq![' ', '^'], line.len() - 2);
            assert(line.subrange(pos, pos + 2) == seq![' ', '^']);
            assert(line[pos] == ' ' && line[pos + 1] == '^');
            assert(pos > w) by {
                if pos <= w {
                    if pos + 1 < w {
                        assert(text::is_ws(line[pos + 1]));
                    }
                }
            }
            let after = line.skip(pos + 2);
            let n = id_run(after);
            let before = line.take(pos);
            if n > 0 && text::trim(after.skip(n as int)).len() == 0 {
                assert forall|i: int| 0 <= i < w implies text::is_ws(#[trigger] before[i]) by {
                    assert(before[i] == line[i]);
                }
                assert(before[w] == c);
                text::lemma_trim_start_at(before, w);
                assert(text::trim_start(before).subrange(0, 1) =~= seq![c]);
                assert(!spec_is_plain_paragraph(before));
                assert(r.subrange(0, w + 1) =~= line.take(w + 1));
            } else {
                assert(r == line);
            }
        },
    }
    assert(r.len() >= w + 1);
    assert(r.subrange(0, w + 1) =~= line.take(w + 1));
}

} // verus!

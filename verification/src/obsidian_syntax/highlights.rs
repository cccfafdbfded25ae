//! Highlights: `==text==` becomes `<mark>text</mark>`; `===` runs, inline
//! code spans and fenced code blocks are left alone.
use vstd::prelude::*;
use crate::text::{self, chars_of, push_all, push_str, string_of};
use crate::lines::{self, fence_step, push_line, split_lines_exec};
use crate::spans::{self, code_segments_exec};

verus! {

/// `==` opening a highlight at `i`: not preceded by `=`, followed by a
/// character that is neither `=` nor a newline.
pub open spec fn opens_at(c: Seq<char>, i: int) -> bool {
    &&& 0 <= i
    &&& i + 2 < c.len()
    &&& c[i] == '='
    &&& c[i + 1] == '='
    &&& (i == 0 || c[i - 1] != '=')
    &&& c[i + 2] != '='
    &&& c[i + 2] != '\n'
}

/// `==` closing a highlight whose text starts at `cs`: after at least one
/// character, not preceded by `=`, not followed by `=`.
pub open spec fn closes_at(c: Seq<char>, cs: int, j: int) -> bool {
    &&& j + 1 < c.len()
    &&& c[j] == '='
    &&& c[j + 1] == '='
    &&& j > cs
    &&& c[j - 1] != '='
    &&& (j + 2 >= c.len() || c[j + 2] != '=')
}

/// The first closing `==` at or after `j` for text starting at `cs`; a newline stops the search.
pub open spec fn find_close(c: Seq<char>, cs: int, j: int) -> Option<int>
    decreases c.len() - j,
{
    if j < 0 || j >= c.len() || c[j] == '\n' {
        None
    } else if closes_at(c, cs, j) {
        Some(j)
    } else {
        find_close(c, cs, j + 1)
    }
}

proof fn lemma_find_close(c: Seq<char>, cs: int, j: int)
    requires
        find_close(c, cs, j) is Some,
    ensures
        j <= find_close(c, cs, j)->0,
        closes_at(c, cs, find_close(c, cs, j)->0),
    decreases c.len() - j,
{
    if j < 0 || j >= c.len() || c[j] == '\n' {
    } else if closes_at(c, cs, j) {
    } else {
        lemma_find_close(c, cs, j + 1);
    }
}

/// `c[i..]` with its highlights marked.
pub open spec fn highlight_from(c: Seq<char>, i: int) -> Seq<char>
    decreases c.len() - i via highlight_from_decreases
{
    if i < 0 || i >= c.len() {
        Seq::empty()
    } else if opens_at(c, i) && find_close(c, i + 2, i + 2) is Some {
        let j = find_close(c, i + 2, i + 2)->0;
        "<mark>"@ + c.subrange(i + 2, j) + "</mark>"@ + highlight_from(c, j + 2)
    } else {
        seq![c[i]] + highlight_from(c, i + 1)
    }
}

#[via_fn]
proof fn highlight_from_decreases(c: Seq<char>, i: int) {
    if 0 <= i < c.len() && opens_at(c, i) && find_close(c, i + 2, i + 2) is Some {
        lemma_find_close(c, i + 2, i + 2);
    }
}

pub open spec fn spec_highlight_segment(text: Seq<char>) -> Seq<char> {
    highlight_from(text, 0)
}

pub open spec fn spec_highlight_line(line: Seq<char>) -> Seq<char> {
    spans::rewrite_outside_code(line, |t: Seq<char>| spec_highlight_segment(t))
}

pub open spec fn spec_convert_highlights(content: Seq<char>) -> Seq<char> {
    lines::rewrite_prose(content, |l: Seq<char>| spec_highlight_line(l))
}

fn find_close_exec(c: &[char], cs: usize) -> (r: Option<usize>)
    requires
        cs <= c.len(),
    ensures
        match r {
            Some(j) => find_close(c@, cs as int, cs as int) == Some(j as int),
            None => find_close(c@, cs as int, cs as int) is None,
        },
{
    let mut j: usize = cs;
    while j < c.len()
        invariant
            cs <= j <= c.len(),
            find_close(c@, cs as int, cs as int) == find_close(c@, cs as int, j as int),
        decreases c.len() - j,
    {
        if c[j] == '\n' {
            return None;
        }
        if j + 1 < c.len() && c[j] == '=' && c[j + 1] == '=' && j > cs && c[j - 1] != '=' && (j + 2
            >= c.len() || c[j + 2] != '=') {
            return Some(j);
        }
        j += 1;
    }
    None
}

/// Marks `==highlight==` runs in a text without inline code.
pub fn highlight_segment(text: &str) -> (res: String)
    ensures
        res@ == spec_highlight_segment(text@),
{
    let cv = chars_of(text);
    let c = cv.as_slice();
    let n = c.len();
    let mut out: Vec<char> = Vec::new();
    let mut i: usize = 0;
    while i < n
        invariant
            i <= n,
            n == c@.len(),
            c@ == text@,
            spec_highlight_segment(c@) == out@ + highlight_from(c@, i as int),
        decreases n - i,
    {
        let opens = c[i] == '=' && i + 1 < n && c[i + 1] == '=' && (i == 0 || c[i - 1] != '=') && i
            + 2 < n && c[i + 2] != '=' && c[i + 2] != '\n';
        assert(opens == opens_at(c@, i as int));
        let mut done = false;
        if opens {
            match find_close_exec(c, i + 2) {
                Some(j) => {
                    proof {
                        lemma_find_close(c@, i + 2, i + 2);
                    }
                    let ghost before = out@;
                    push_str(&mut out, "<mark>");
                    push_all(&mut out, &c[i + 2..j]);
                    push_str(&mut out, "</mark>");
                    assert(out@ == before + "<mark>"@ + c@.subrange(i + 2, j as int) + "</mark>"@);
                    i = j + 2;
                    done = true;
                },
                None => {},
            }
        }
        if !done {
            out.push(c[i]);
            i += 1;
        }
    }
    assert(highlight_from(c@, i as int) =~= Seq::<char>::empty());
    assert(out@ + Seq::<char>::empty() =~= out@);
    string_of(out.as_slice())
}

/// Marks highlights in a line, leaving inline code spans untouched.
pub fn highlight_line(line: &str) -> (res: String)
    ensures
        res@ == spec_highlight_line(line@),
{
    let sv = chars_of(line);
    let s = sv.as_slice();
    let segs = code_segments_exec(s);
    let ghost gs = spans::code_segments(s@, 0);
    let ghost f = |t: Seq<char>| spec_highlight_segment(t);
    proof {
        spans::lemma_code_segments_ok(s@, 0);
    }
    let mut out: Vec<char> = Vec::new();
    let mut i: usize = 0;
    assert(gs.take(0) =~= Seq::<(int, int, bool)>::empty());
    while i < segs.len()
        invariant
            i <= segs.len(),
            segs@.len() == gs.len(),
            gs == spans::code_segments(s@, 0),
            spans::segments_ok(s@, gs),
            forall|j: int| 0 <= j < segs@.len() ==> {
                &&& (#[trigger] segs@[j]).0 as int == gs[j].0
                &&& segs@[j].1 as int == gs[j].1
                &&& segs@[j].2 == gs[j].2
            },
            s@ == line@,
            f == (|t: Seq<char>| spec_highlight_segment(t)),
            out@ == spans::render_segments(s@, gs.take(i as int), f),
        decreases segs.len() - i,
    {
        let (a, b, code) = segs[i];
        assert(segs@[i as int].0 as int == gs[i as int].0);
        assert(0 <= gs[i as int].0 <= gs[i as int].1 <= s@.len());
        let ghost before = out@;
        if code {
            push_all(&mut out, &s[a..b]);
        } else {
            let t = highlight_segment(string_of(&s[a..b]).as_str());
            push_str(&mut out, t.as_str());
        }
        assert(out@ == before + spans::render_segment(s@, gs[i as int], f));
        assert(gs.take(i + 1).drop_last() =~= gs.take(i as int));
        assert(gs.take(i + 1).last() == gs[i as int]);
        i += 1;
    }
    assert(gs.take(segs.len() as int) =~= gs);
    string_of(out.as_slice())
}

/// Marks highlights outside fenced code blocks.
pub fn convert_highlights(content: &str) -> (res: String)
    ensures
        res@ == spec_convert_highlights(content@),
{
    let cv = chars_of(content);
    let ls = split_lines_exec(cv.as_slice());
    let ghost gl = lines::split_lines(cv@);
    let ghost f = |l: Seq<char>| spec_highlight_line(l);
    let ghost outl = lines::map_prose(gl, f);
    let mut out: Vec<char> = Vec::new();
    let mut st: Option<(char, usize)> = None;
    let mut i: usize = 0;
    assert(outl.take(0) =~= Seq::<Seq<char>>::empty());
    while i < ls.len()
        invariant
            i <= ls.len(),
            ls@.len() == gl.len(),
            gl == lines::split_lines(cv@),
            cv@ == content@,
            forall|j: int| 0 <= j < ls@.len() ==> #[trigger] ls@[j]@ == gl[j],
            f == (|l: Seq<char>| spec_highlight_line(l)),
            outl == lines::map_prose(gl, f),
            lines::fence_view(st) == lines::fence_before(gl, i as int),
            out@ == lines::join_lines(outl.take(i as int)),
        decreases ls.len() - i,
    {
        let line = ls[i].as_slice();
        assert(line@ == gl[i as int]);
        let verb = fence_step(&mut st, line);
        proof {
            lines::lemma_join_take(outl, i as int);
        }
        assert(outl[i as int] == if lines::verbatim(gl, i as int) { gl[i as int] } else { spec_highlight_line(gl[i as int]) });
        if verb {
            push_line(&mut out, i == 0, line);
        } else {
            let t = highlight_line(string_of(line).as_str());
            let tc = chars_of(t.as_str());
            push_line(&mut out, i == 0, tc.as_slice());
        }
        i += 1;
    }
    assert(outl.take(ls.len() as int) =~= outl);
    string_of(out.as_slice())
}

proof fn lemma_highlight_plain(c: Seq<char>, i: int)
    requires
        0 <= i,
        forall|k: int| 0 <= k && k + 1 < c.len() ==> !(#[trigger] c[k] == '=' && c[k + 1] == '='),
    ensures
        highlight_from(c, i) == if i < c.len() { c.skip(i) } else { Seq::<char>::empty() },
    decreases c.len() - i,
{
    if i < c.len() {
        lemma_highlight_plain(c, i + 1);
        if i + 1 < c.len() {
            assert(seq![c[i]] + c.skip(i + 1) =~= c.skip(i));
        } else {
            assert(seq![c[i]] + Seq::<char>::empty() =~= c.skip(i));
        }
    }
}

/// A chapter without `==` holds no highlight: highlighting leaves it as it is.
pub proof fn law_chapter_without_highlights_unchanged(content: Seq<char>)
    requires
        !text::contains(content, "=="@),
    ensures
        spec_convert_highlights(content) == content,
{
    reveal_strlit("==");
    text::lemma_find_from_none(content, "=="@, 0);
    let ls = lines::split_lines(content);
    assert forall|i: int| 0 <= i < ls.len() implies spec_highlight_line(#[trigger] ls[i]) == ls[i] by {
        let l = ls[i];
        assert forall|a: int, b: int| 0 <= a <= b <= l.len() implies #[trigger] spec_highlight_segment(l.subrange(a, b)) == l.subrange(a, b) by {
            let t = l.subrange(a, b);
            assert forall|k: int| 0 <= k && k + 1 < t.len() implies !(#[trigger] t[k] == '=' && t[k + 1] == '=') by {
                if t[k] == '=' && t[k + 1] == '=' {
                    assert(t.subrange(k, k + 2) =~= "=="@);
                    text::lemma_subrange_occurs(l, "=="@, a, b, k);
                    text::lemma_split_piece_occurs(content, '\n', "=="@, i, a + k);
                }
            }
            lemma_highlight_plain(t, 0);
            if t.len() == 0 {
                assert(t =~= Seq::<char>::empty());
            } else {
                assert(t.skip(0) =~= t);
            }
        }
        spans::law_rewrite_outside_code_identity(l, |x: Seq<char>| spec_highlight_segment(x));
    }
    lines::law_rewrite_prose_identity(content, |l: Seq<char>| spec_highlight_line(l));
}

} // verus!

//! `%%...%%` comments, which may span lines, are removed outside fenced
//! code blocks.
use vstd::prelude::*;
use crate::text::{self, chars_of, push_all, string_of};
use crate::lines::{self, fence_step, push_line, split_lines_exec};

verus! {

/// `s[i..]` without its comments, given whether a comment is open at `i`;
/// also whether a comment is open at the end. Each `%%` toggles the state.
pub open spec fn strip_from(s: Seq<char>, i: int, in_comment: bool) -> (Seq<char>, bool)
    decreases s.len() - i,
{
    if i < 0 || i >= s.len() {
        (Seq::empty(), in_comment)
    } else if i + 1 < s.len() && s[i] == '%' && s[i + 1] == '%' {
        strip_from(s, i + 2, !in_comment)
    } else if !in_comment {
        let r = strip_from(s, i + 1, in_comment);
        (seq![s[i]] + r.0, r.1)
    } else {
        strip_from(s, i + 1, in_comment)
    }
}

pub open spec fn spec_strip_line_comments(line: Seq<char>, in_comment: bool) -> (Seq<char>, bool) {
    strip_from(line, 0, in_comment)
}

/// The state between lines: the open fence and whether a comment is open.
/// A fence line opens or closes a block only outside a comment.
pub open spec fn comment_fence(st: (Option<(char, nat)>, bool), line: Seq<char>) -> Option<(char, nat)> {
    if !st.1 {
        lines::fence_next(st.0, line)
    } else {
        st.0
    }
}

pub open spec fn comment_next(st: (Option<(char, nat)>, bool), line: Seq<char>) -> (Option<(char, nat)>, bool) {
    let f = comment_fence(st, line);
    if f is Some {
        (f, st.1)
    } else {
        (f, spec_strip_line_comments(line, st.1).1)
    }
}

/// A line as it is written out: inside a code block as it is, else without comments.
pub open spec fn comment_out(st: (Option<(char, nat)>, bool), line: Seq<char>) -> Seq<char> {
    if comment_fence(st, line) is Some {
        line
    } else {
        spec_strip_line_comments(line, st.1).0
    }
}

pub open spec fn comment_state_before(ls: Seq<Seq<char>>, i: int) -> (Option<(char, nat)>, bool)
    decreases i,
{
    if i <= 0 {
        (None, false)
    } else {
        comment_next(comment_state_before(ls, i - 1), ls[i - 1])
    }
}

pub open spec fn spec_remove_comments(content: Seq<char>) -> Seq<char> {
    let ls = lines::split_lines(content);
    lines::join_lines(Seq::new(ls.len(), |i: int| comment_out(comment_state_before(ls, i), ls[i])))
}

/// Removes the comment parts of one line; `in_comment` says whether a
/// comment is open before the line and is left saying whether one is open after it.
pub fn strip_line_comments(line: &str, in_comment: &mut bool) -> (res: String)
    ensures
        res@ == spec_strip_line_comments(line@, *old(in_comment)).0,
        *final(in_comment) == spec_strip_line_comments(line@, *old(in_comment)).1,
{
    let cv = chars_of(line);
    let s = cv.as_slice();
    let mut out: Vec<char> = Vec::new();
    let mut i: usize = 0;
    let ghost start = *in_comment;
    while i < s.len()
        invariant
            i <= s.len() + 1,
            s@ == line@,
            strip_from(s@, 0, start) == (out@ + strip_from(s@, i as int, *in_comment).0, strip_from(s@, i as int, *in_comment).1),
        decreases s.len() + 1 - i,
    {
        if i + 1 < s.len() && s[i] == '%' && s[i + 1] == '%' {
            *in_comment = !*in_comment;
            i += 2;
        } else if !*in_comment {
            out.push(s[i]);
            i += 1;
        } else {
            i += 1;
        }
    }
    assert(strip_from(s@, i as int, *in_comment).0 =~= Seq::<char>::empty());
    assert(out@ =~= out@ + Seq::<char>::empty());
    string_of(out.as_slice())
}

/// Removes `%%...%%` comments outside fenced code blocks.
pub fn remove_comments(content: &str) -> (res: String)
    ensures
        res@ == spec_remove_comments(content@),
{
    let cv = chars_of(content);
    let ls = split_lines_exec(cv.as_slice());
    let ghost gl = lines::split_lines(cv@);
    let ghost outl = Seq::new(gl.len(), |i: int| comment_out(comment_state_before(gl, i), gl[i]));
    let mut out: Vec<char> = Vec::new();
    let mut fence: Option<(char, usize)> = None;
    let mut in_comment: bool = false;
    let mut i: usize = 0;
    assert(outl.take(0) =~= Seq::<Seq<char>>::empty());
    while i < ls.len()
        invariant
            i <= ls.len(),
            ls@.len() == gl.len(),
            gl == lines::split_lines(cv@),
            cv@ == content@,
            forall|j: int| 0 <= j < ls@.len() ==> #[trigger] ls@[j]@ == gl[j],
            outl == Seq::new(gl.len(), |i: int| comment_out(comment_state_before(gl, i), gl[i])),
            (lines::fence_view(fence), in_comment) == comment_state_before(gl, i as int),
            out@ == lines::join_lines(outl.take(i as int)),
        decreases ls.len() - i,
    {
        let line = ls[i].as_slice();
        assert(line@ == gl[i as int]);
        let ghost st = comment_state_before(gl, i as int);
        if !in_comment {
            let _ = fence_step(&mut fence, line);
        }
        assert(lines::fence_view(fence) == comment_fence(st, gl[i as int]));
        proof {
            lines::lemma_join_take(outl, i as int);
        }
        if fence.is_some() {
            push_line(&mut out, i == 0, line);
        } else {
            let t = strip_line_comments(string_of(line).as_str(), &mut in_comment);
            let tc = chars_of(t.as_str());
            push_line(&mut out, i == 0, tc.as_slice());
        }
        assert(comment_state_before(gl, i + 1) == comment_next(st, gl[i as int]));
        i += 1;
    }
    assert(outl.take(ls.len() as int) =~= outl);
    string_of(out.as_slice())
}

/// `s` has `%%` starting at `i`.
pub open spec fn percent_pair_at(s: Seq<char>, i: int) -> bool {
    0 <= i && i + 1 < s.len() && s[i] == '%' && s[i + 1] == '%'
}

proof fn lemma_strip_plain(s: Seq<char>, i: int)
    requires
        0 <= i,
        forall|k: int| !#[trigger] percent_pair_at(s, k),
    ensures
        strip_from(s, i, false) == (if i < s.len() { s.skip(i) } else { Seq::<char>::empty() }, false),
    decreases s.len() - i,
{
    if i < s.len() {
        assert(!percent_pair_at(s, i));
        lemma_strip_plain(s, i + 1);
        if i + 1 < s.len() {
            assert(seq![s[i]] + s.skip(i + 1) =~= s.skip(i));
        } else {
            assert(seq![s[i]] + Seq::<char>::empty() =~= s.skip(i));
        }
    }
}

proof fn lemma_state_stays_open_free(ls: Seq<Seq<char>>, i: int)
    requires
        0 <= i <= ls.len(),
        forall|j: int, k: int| 0 <= j < ls.len() ==> !#[trigger] percent_pair_at(ls[j], k),
    ensures
        comment_state_before(ls, i).1 == false,
    decreases i,
{
    if i > 0 {
        lemma_state_stays_open_free(ls, i - 1);
        let l = ls[i - 1];
        assert forall|k: int| !#[trigger] percent_pair_at(l, k) by {
            assert(!percent_pair_at(ls[i - 1], k));
        }
        lemma_strip_plain(l, 0);
    }
}

/// A chapter without `%%` holds no comment: comment removal leaves it as it is.
pub proof fn law_chapter_without_comments_unchanged(content: Seq<char>)
    requires
        !text::contains(content, "%%"@),
    ensures
        spec_remove_comments(content) == content,
{
    reveal_strlit("%%");
    text::lemma_find_from_none(content, "%%"@, 0);
    let ls = lines::split_lines(content);
    assert forall|j: int, k: int| 0 <= j < ls.len() implies !#[trigger] percent_pair_at(ls[j], k) by {
        if percent_pair_at(ls[j], k) {
            assert(ls[j].subrange(k, k + 2) =~= "%%"@);
            text::lemma_split_piece_occurs(content, '\n', "%%"@, j, k);
        }
    }
    assert forall|i: int| 0 <= i < ls.len() implies #[trigger] comment_out(comment_state_before(ls, i), ls[i]) == ls[i] by {
        lemma_state_stays_open_free(ls, i);
        assert forall|k: int| !#[trigger] percent_pair_at(ls[i], k) by {}
        lemma_strip_plain(ls[i], 0);
        if ls[i].len() == 0 {
            assert(ls[i] =~= Seq::<char>::empty());
        } else {
            assert(ls[i].skip(0) =~= ls[i]);
        }
    }
    assert(Seq::new(ls.len(), |i: int| comment_out(comment_state_before(ls, i), ls[i])) =~= ls);
    text::lemma_join_split(content, '\n');
}

} // verus!

//! Lines of a chapter and fenced code blocks.
//!
//! Every pass splits a chapter on `'\n'`, leaves fence lines and the lines
//! inside a fenced code block as they are, and rewrites the others. The
//! fence state machine here is the one all passes share.
use vstd::prelude::*;
use crate::text::{self, push_all, run_len_exec, trim_start_len};

verus! {

/// `s.split('\n')`: the pieces between newlines (always at least one).
pub open spec fn split_lines(s: Seq<char>) -> Seq<Seq<char>> {
    text::split_char(s, '\n')
}

/// `lines.join("\n")`.
pub open spec fn join_lines(ls: Seq<Seq<char>>) -> Seq<char> {
    text::join_char(ls, '\n')
}

/// A run of three or more backticks or tildes at the start of `t`:
/// `(is_fence, fence_char, run_length)`.
pub open spec fn fence_of(t: Seq<char>) -> (bool, char, nat) {
    if t.len() > 0 && (t[0] == '`' || t[0] == '~') && text::run_len(t, t[0]) >= 3 {
        (true, t[0], text::run_len(t, t[0]))
    } else {
        (false, '`', 0)
    }
}

/// Whether `line` (leading white space ignored) is a fence line.
pub open spec fn is_fence_line(line: Seq<char>) -> bool {
    fence_of(text::trim_start(line)).0
}

/// The open fence after `line`, given the open fence before it: a fence line
/// opens a block when none is open, and closes the open block when it uses
/// the same character and is at least as long.
pub open spec fn fence_next(st: Option<(char, nat)>, line: Seq<char>) -> Option<(char, nat)> {
    let f = fence_of(text::trim_start(line));
    if !f.0 {
        st
    } else {
        match st {
            None => Some((f.1, f.2)),
            Some(open) => if f.1 == open.0 && f.2 >= open.1 {
                None
            } else {
                st
            },
        }
    }
}

/// The open fence before line `i`.
pub open spec fn fence_before(lines: Seq<Seq<char>>, i: int) -> Option<(char, nat)>
    decreases i,
{
    if i <= 0 {
        None
    } else {
        fence_next(fence_before(lines, i - 1), lines[i - 1])
    }
}

/// Line `i` is kept as it is: it is a fence line or lies inside a fenced block.
pub open spec fn verbatim(lines: Seq<Seq<char>>, i: int) -> bool {
    is_fence_line(lines[i]) || fence_before(lines, i) is Some
}

/// The lines with `f` applied to every line that is not verbatim.
pub open spec fn map_prose(lines: Seq<Seq<char>>, f: spec_fn(Seq<char>) -> Seq<char>) -> Seq<Seq<char>> {
    Seq::new(lines.len(), |i: int| if verbatim(lines, i) { lines[i] } else { f(lines[i]) })
}

/// `f` applied to every line of `s` outside fenced code blocks.
pub open spec fn rewrite_prose(s: Seq<char>, f: spec_fn(Seq<char>) -> Seq<char>) -> Seq<char> {
    join_lines(map_prose(split_lines(s), f))
}

pub open spec fn fence_view(st: Option<(char, usize)>) -> Option<(char, nat)> {
    match st {
        None => None,
        Some(p) => Some((p.0, p.1 as nat)),
    }
}

/// Adding one line to the joined prefix.
pub proof fn lemma_join_take(ls: Seq<Seq<char>>, i: int)
    requires
        0 <= i < ls.len(),
    ensures
        join_lines(ls.take(i + 1)) == if i == 0 {
            ls[0]
        } else {
            join_lines(ls.take(i)) + seq!['\n'] + ls[i]
        },
{
    text::lemma_join_char_take(ls, '\n', i);
}

/// `split('\n')`.
pub fn split_lines_exec(s: &[char]) -> (res: Vec<Vec<char>>)
    ensures
        res@.len() == split_lines(s@).len(),
        forall|i: int| 0 <= i < res@.len() ==> #[trigger] res@[i]@ == split_lines(s@)[i],
{
    text::split_char_exec(s, '\n')
}

/// The fence run at the start of `trimmed`: `(is_fence, fence_char, run_length)`.
pub fn detect_fence(trimmed: &[char]) -> (res: (bool, char, usize))
    ensures
        res.0 == fence_of(trimmed@).0,
        res.1 == fence_of(trimmed@).1,
        res.2 as nat == fence_of(trimmed@).2,
{
    if trimmed.len() > 0 && (trimmed[0] == '`' || trimmed[0] == '~') {
        let c = trimmed[0];
        let n = run_len_exec(trimmed, c);
        if n >= 3 {
            return (true, c, n);
        }
    }
    (false, '`', 0)
}

/// Advances the fence state over `line`; returns whether `line` is kept verbatim.
pub fn fence_step(st: &mut Option<(char, usize)>, line: &[char]) -> (verbatim: bool)
    ensures
        verbatim == (is_fence_line(line@) || fence_view(*old(st)) is Some),
        fence_view(*final(st)) == fence_next(fence_view(*old(st)), line@),
{
    let k = trim_start_len(line);
    let (is_fence, fc, flen) = detect_fence(&line[k..line.len()]);
    let was_open = st.is_some();
    if is_fence {
        match *st {
            None => {
                *st = Some((fc, flen));
            },
            Some((f, c)) => {
                if fc == f && flen >= c {
                    *st = None;
                }
            },
        }
    }
    is_fence || was_open
}

/// Appends a line to a joined prefix: the newline separator unless it is the first line.
pub fn push_line(out: &mut Vec<char>, first: bool, line: &[char])
    ensures
        final(out)@ == if first { old(out)@ + line@ } else { old(out)@ + seq!['\n'] + line@ },
{
    if !first {
        out.push('\n');
    }
    push_all(out, line);
}

/// A pass that leaves every line outside fenced code blocks as it is leaves
/// the chapter as it is.
pub proof fn law_rewrite_prose_identity(s: Seq<char>, f: spec_fn(Seq<char>) -> Seq<char>)
    requires
        forall|i: int| 0 <= i < split_lines(s).len() && !verbatim(split_lines(s), i) ==> f(#[trigger] split_lines(s)[i]) == split_lines(s)[i],
    ensures
        rewrite_prose(s, f) == s,
{
    let ls = split_lines(s);
    assert(map_prose(ls, f) =~= ls);
    text::lemma_join_split(s, '\n');
}

/// Every line outside fenced code blocks is `f` of the line as it was, and
/// every line inside one (fences included) is the line as it was: the
/// rewritten chapter is these lines joined.
pub proof fn law_fenced_lines_kept(s: Seq<char>, f: spec_fn(Seq<char>) -> Seq<char>, i: int)
    requires
        0 <= i < split_lines(s).len(),
    ensures
        rewrite_prose(s, f) == join_lines(map_prose(split_lines(s), f)),
        map_prose(split_lines(s), f).len() == split_lines(s).len(),
        verbatim(split_lines(s), i) ==> map_prose(split_lines(s), f)[i] == split_lines(s)[i],
        !verbatim(split_lines(s), i) ==> map_prose(split_lines(s), f)[i] == f(split_lines(s)[i]),
{
}

} // verus!

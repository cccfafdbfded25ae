//! Obsidian-style single line breaks turned into CommonMark hard breaks.
use vstd::prelude::*;
use crate::text::{self, chars_of, push_all, ends_with_exec, string_of, trim_end_len, trim_start_len};
use crate::lines::{self, fence_step, push_line, split_lines_exec};

verus! {

/// Line `i` gets two trailing spaces: it is not blank, the next line exists
/// and is not blank, and it does not already end with two spaces or `\`.
pub open spec fn needs_break(ls: Seq<Seq<char>>, i: int) -> bool {
    &&& text::trim(ls[i]).len() > 0
    &&& i + 1 < ls.len()
    &&& text::trim(ls[i + 1]).len() > 0
    &&& !text::ends_with(ls[i], seq![' ', ' '])
    &&& !text::ends_with(ls[i], seq!['\\'])
}

pub open spec fn hard_break_lines(ls: Seq<Seq<char>>) -> Seq<Seq<char>> {
    Seq::new(
        ls.len(),
        |i: int|
            if !lines::verbatim(ls, i) && needs_break(ls, i) {
                ls[i] + seq![' ', ' ']
            } else {
                ls[i]
            },
    )
}

/// The chapter with a hard break after every prose line that is followed by
/// another non-blank line.
pub open spec fn spec_patch_hard_line_breaks(content: Seq<char>) -> Seq<char> {
    lines::join_lines(hard_break_lines(lines::split_lines(content)))
}

fn is_blank(line: &[char]) -> (b: bool)
    ensures
        b == (text::trim(line@).len() == 0),
{
    let a = trim_start_len(line);
    let rest = &line[a..line.len()];
    let b = trim_end_len(rest);
    b == 0
}

/// Convert Obsidian-style single line breaks to CommonMark hard line breaks.
pub fn patch_hard_line_breaks(content: &str) -> (res: String)
    ensures
        res@ == spec_patch_hard_line_breaks(content@),
{
    let cs = chars_of(content);
    let ls = split_lines_exec(cs.as_slice());
    let ghost gl = lines::split_lines(cs@);
    let ghost outl = hard_break_lines(gl);
    let mut out: Vec<char> = Vec::new();
    let mut st: Option<(char, usize)> = None;
    let mut i: usize = 0;
    assert(outl.take(0) =~= Seq::<Seq<char>>::empty());
    while i < ls.len()
        invariant
            i <= ls.len(),
            ls@.len() == gl.len(),
            forall|j: int| 0 <= j < ls@.len() ==> #[trigger] ls@[j]@ == gl[j],
            outl == hard_break_lines(gl),
            lines::fence_view(st) == lines::fence_before(gl, i as int),
            out@ == lines::join_lines(outl.take(i as int)),
        decreases ls.len() - i,
    {
        let line = ls[i].as_slice();
        assert(line@ == gl[i as int]);
        let verb = fence_step(&mut st, line);
        let mut piece: Vec<char> = Vec::new();
        push_all(&mut piece, line);
        if !verb {
            let spaces: [char; 2] = [' ', ' '];
            let back: [char; 1] = ['\\'];
            let nb = !is_blank(line) && i + 1 < ls.len() && !is_blank(ls[i + 1].as_slice())
                && !ends_with_exec(line, spaces.as_slice()) && !ends_with_exec(line, back.as_slice());
            proof {
                assert(spaces@ =~= seq![' ', ' ']);
                assert(back@ =~= seq!['\\']);
                if i + 1 < ls.len() {
                    assert(ls@[i + 1]@ == gl[i + 1]);
                }
            }
            if nb {
                piece.push(' ');
                piece.push(' ');
            }
        }
        assert(piece@ =~= outl[i as int]);
        proof {
            lines::lemma_join_take(outl, i as int);
        }
        push_line(&mut out, i == 0, piece.as_slice());
        i += 1;
    }
    assert(outl.take(ls.len() as int) =~= outl);
    string_of(out.as_slice())
}

/// Two spaces added after a line that is not blank change neither whether it
/// is blank nor whether it is a fence line.
proof fn lemma_padded_line(g: Seq<char>)
    requires
        text::trim(g).len() > 0,
    ensures
        text::trim(g + seq![' ', ' ']).len() > 0,
        lines::fence_of(text::trim_start(g + seq![' ', ' '])) == lines::fence_of(text::trim_start(g)),
{
    let sp = seq![' ', ' '];
    let t = text::trim_start(g);
    assert(t.len() > 0);
    text::lemma_trim_start_append(g, sp);
    text::lemma_trim_start_skip(g);
    assert(!text::is_ws(t[0])) by {
        if text::is_ws(t[0]) {
            lemma_trim_start_first(g);
        }
    }
    assert((t + sp)[0] == t[0]);
    text::lemma_trim_end_keeps_first(t + sp);
    text::lemma_run_len_append(t, sp, t[0]);
    assert(text::run_len(sp, '`') == 0);
    assert(text::run_len(sp, '~') == 0);
}

proof fn lemma_trim_start_first(g: Seq<char>)
    ensures
        text::trim_start(g).len() > 0 ==> !text::is_ws(text::trim_start(g)[0]),
    decreases g.len(),
{
    if g.len() > 0 && text::is_ws(g[0]) {
        lemma_trim_start_first(g.drop_first());
    }
}

proof fn lemma_fence_before_same(gl: Seq<Seq<char>>, hl: Seq<Seq<char>>, i: int)
    requires
        gl.len() == hl.len(),
        0 <= i <= gl.len(),
        forall|k: int| 0 <= k < gl.len() ==> lines::fence_of(text::trim_start(#[trigger] hl[k])) == lines::fence_of(text::trim_start(gl[k])),
    ensures
        lines::fence_before(hl, i) == lines::fence_before(gl, i),
    decreases i,
{
    if i > 0 {
        lemma_fence_before_same(gl, hl, i - 1);
        assert(lines::fence_of(text::trim_start(hl[i - 1])) == lines::fence_of(text::trim_start(gl[i - 1])));
    }
}

/// Adding the hard breaks again changes nothing: every line that got two
/// spaces now ends with them, and no other line has changed whether it is
/// blank or a fence.
pub proof fn law_hard_breaks_idempotent(content: Seq<char>)
    ensures
        spec_patch_hard_line_breaks(spec_patch_hard_line_breaks(content)) == spec_patch_hard_line_breaks(content),
{
    let gl = lines::split_lines(content);
    let hl = hard_break_lines(gl);
    text::lemma_split_char_len(content, '\n');
    text::lemma_split_char_no_sep(content, '\n');
    assert forall|i: int, j: int| 0 <= i < hl.len() && 0 <= j < hl[i].len() implies hl[i][j] != '\n' by {
        if j < gl[i].len() {
            assert(hl[i][j] == gl[i][j]);
        }
    }
    text::lemma_split_join(hl, '\n');
    assert(lines::split_lines(lines::join_lines(hl)) == hl);
    assert forall|k: int| 0 <= k < gl.len() implies lines::fence_of(text::trim_start(#[trigger] hl[k])) == lines::fence_of(text::trim_start(gl[k]))
        && (text::trim(hl[k]).len() > 0 <==> text::trim(gl[k]).len() > 0) by {
        if hl[k] != gl[k] {
            lemma_padded_line(gl[k]);
        }
    }
    assert forall|i: int| 0 <= i < gl.len() implies #[trigger] lines::verbatim(hl, i) == lines::verbatim(gl, i) by {
        lemma_fence_before_same(gl, hl, i);
        assert(lines::fence_of(text::trim_start(hl[i])) == lines::fence_of(text::trim_start(gl[i])));
    }
    assert forall|i: int| 0 <= i < hl.len() implies #[trigger] hard_break_lines(hl)[i] == hl[i] by {
        assert(lines::verbatim(hl, i) == lines::verbatim(gl, i));
        if hl[i] != gl[i] {
            assert(text::ends_with(hl[i], seq![' ', ' '])) by {
                assert(hl[i].skip(hl[i].len() - 2) =~= seq![' ', ' ']);
            }
        } else if !lines::verbatim(gl, i) && i + 1 < gl.len() {
            assert(lines::fence_of(text::trim_start(hl[i + 1])) == lines::fence_of(text::trim_start(gl[i + 1])));
        }
    }
    assert(hard_break_lines(hl) =~= hl);
}

} // verus!

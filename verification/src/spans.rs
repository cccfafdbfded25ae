//! Inline code spans of a line.
//!
//! A line is cut into segments: an inline code span runs from a run of `n`
//! backticks to the next `n` backticks; text outside spans is prose. When a
//! run of backticks is never closed, the rest of the line, backticks
//! included, is one prose segment.
use vstd::prelude::*;
use crate::text::{self, find_from_exec, run_len_exec};

verus! {

pub open spec fn repeat_char(c: char, n: nat) -> Seq<char> {
    Seq::new(n, |i: int| c)
}

/// Segments `(start, end, is_code)` of `line[p..]`.
pub open spec fn code_segments(line: Seq<char>, p: int) -> Seq<(int, int, bool)>
    decreases line.len() - p via code_segments_decreases
{
    if p < 0 || p >= line.len() {
        Seq::empty()
    } else {
        match text::find_from(line, seq!['`'], p) {
            None => seq![(p, line.len() as int, false)],
            Some(pos) => {
                let tc = text::run_len(line.skip(pos), '`');
                match text::find_from(line, repeat_char('`', tc), pos + tc) {
                    Some(e) => seq![(p, pos, false), (pos, e + tc, true)] + code_segments(line, e + tc),
                    None => seq![(p, pos, false), (pos, line.len() as int, false)],
                }
            },
        }
    }
}

#[via_fn]
proof fn code_segments_decreases(line: Seq<char>, p: int) {
    if 0 <= p < line.len() {
        if let Some(pos) = text::find_from(line, seq!['`'], p) {
            lemma_segment_step(line, p, pos);
        }
    }
}

proof fn lemma_run_len_pos(s: Seq<char>, c: char)
    requires
        s.len() > 0,
        s[0] == c,
    ensures
        text::run_len(s, c) >= 1,
{
}

proof fn lemma_run_len_bound(s: Seq<char>, c: char)
    ensures
        text::run_len(s, c) <= s.len(),
    decreases s.len(),
{
    if s.len() > 0 && s[0] == c {
        lemma_run_len_bound(s.drop_first(), c);
    }
}

proof fn lemma_segment_step(line: Seq<char>, p: int, pos: int)
    requires
        0 <= p < line.len(),
        text::find_from(line, seq!['`'], p) == Some(pos),
    ensures
        p <= pos < line.len(),
        text::run_len(line.skip(pos), '`') >= 1,
        pos + text::run_len(line.skip(pos), '`') <= line.len(),
        text::find_from(line, repeat_char('`', text::run_len(line.skip(pos), '`')), pos + text::run_len(line.skip(pos), '`')) matches Some(e)
            ==> pos + text::run_len(line.skip(pos), '`') <= e && e + text::run_len(line.skip(pos), '`') <= line.len(),
{
    crate::links::lemma_find_char_bounds(line, '`', p);
    lemma_run_len_pos(line.skip(pos), '`');
    lemma_run_len_bound(line.skip(pos), '`');
    let tc = text::run_len(line.skip(pos), '`');
    if let Some(e) = text::find_from(line, repeat_char('`', tc), pos + tc) {
        text::lemma_find_from_some(line, repeat_char('`', tc), pos + tc);
    }
}

/// The piece of output for one segment: code spans are kept, prose goes through `f`.
pub open spec fn render_segment(line: Seq<char>, seg: (int, int, bool), f: spec_fn(Seq<char>) -> Seq<char>) -> Seq<char> {
    if seg.2 {
        line.subrange(seg.0, seg.1)
    } else {
        f(line.subrange(seg.0, seg.1))
    }
}

pub open spec fn render_segments(line: Seq<char>, segs: Seq<(int, int, bool)>, f: spec_fn(Seq<char>) -> Seq<char>) -> Seq<char>
    decreases segs.len(),
{
    if segs.len() == 0 {
        Seq::empty()
    } else {
        render_segments(line, segs.drop_last(), f) + render_segment(line, segs.last(), f)
    }
}

/// `line` with `f` applied to the text outside inline code spans.
pub open spec fn rewrite_outside_code(line: Seq<char>, f: spec_fn(Seq<char>) -> Seq<char>) -> Seq<char> {
    render_segments(line, code_segments(line, 0), f)
}

pub proof fn lemma_render_segments_add(line: Seq<char>, a: Seq<(int, int, bool)>, b: Seq<(int, int, bool)>, f: spec_fn(Seq<char>) -> Seq<char>)
    ensures
        render_segments(line, a + b, f) == render_segments(line, a, f) + render_segments(line, b, f),
    decreases b.len(),
{
    if b.len() == 0 {
        assert(a + b =~= a);
    } else {
        lemma_render_segments_add(line, a, b.drop_last(), f);
        assert((a + b).drop_last() =~= a + b.drop_last());
        assert((a + b).last() == b.last());
    }
}

/// Every segment lies inside the line, in order.
pub open spec fn segments_ok(line: Seq<char>, segs: Seq<(int, int, bool)>) -> bool {
    forall|i: int| 0 <= i < segs.len() ==> 0 <= (#[trigger] segs[i]).0 <= segs[i].1 <= line.len()
}

pub proof fn lemma_code_segments_ok(line: Seq<char>, p: int)
    requires
        0 <= p,
    ensures
        segments_ok(line, code_segments(line, p)),
    decreases line.len() - p,
{
    if p < line.len() {
        if let Some(pos) = text::find_from(line, seq!['`'], p) {
            lemma_segment_step(line, p, pos);
            let tc = text::run_len(line.skip(pos), '`');
            if let Some(e) = text::find_from(line, repeat_char('`', tc), pos + tc) {
                lemma_code_segments_ok(line, e + tc);
                let rest = code_segments(line, e + tc);
                let head = seq![(p, pos, false), (pos, e + tc, true)];
                assert forall|i: int| 0 <= i < (head + rest).len() implies 0 <= (#[trigger] (head + rest)[i]).0 <= (head + rest)[i].1 <= line.len() by {
                    if i >= 2 {
                        assert((head + rest)[i] == rest[i - 2]);
                    }
                }
            }
        }
    }
}

/// The segments of `line`, as `(start, end, is_code)`.
pub fn code_segments_exec(line: &[char]) -> (segs: Vec<(usize, usize, bool)>)
    ensures
        segs@.len() == code_segments(line@, 0).len(),
        forall|i: int| 0 <= i < segs@.len() ==> {
            &&& (#[trigger] segs@[i]).0 as int == code_segments(line@, 0)[i].0
            &&& segs@[i].1 as int == code_segments(line@, 0)[i].1
            &&& segs@[i].2 == code_segments(line@, 0)[i].2
        },
{
    let mut segs: Vec<(usize, usize, bool)> = Vec::new();
    let ghost all = code_segments(line@, 0);
    let mut p: usize = 0;
    let tick: [char; 1] = ['`'];
    let ts = tick.as_slice();
    assert(ts@ =~= seq!['`']);
    while p < line.len()
        invariant
            p <= line.len(),
            ts@ == seq!['`'],
            all == code_segments(line@, 0),
            all == segs@.map_values(|t: (usize, usize, bool)| (t.0 as int, t.1 as int, t.2)) + code_segments(line@, p as int),
        decreases line.len() - p,
    {
        let ghost before = segs@;
        match find_from_exec(line, p, ts) {
            None => {
                segs.push((p, line.len(), false));
                assert(segs@.map_values(|t: (usize, usize, bool)| (t.0 as int, t.1 as int, t.2)) =~= before.map_values(|t: (usize, usize, bool)| (t.0 as int, t.1 as int, t.2)) + code_segments(line@, p as int));
                p = line.len();
            },
            Some(pos) => {
                proof {
                    lemma_segment_step(line@, p as int, pos as int);
                }
                let tail = &line[pos..line.len()];
                assert(tail@ =~= line@.skip(pos as int));
                let tc = run_len_exec(tail, '`');
                let mut closing: Vec<char> = Vec::new();
                let mut k: usize = 0;
                while k < tc
                    invariant
                        k <= tc,
                        closing@ =~= repeat_char('`', k as nat),
                    decreases tc - k,
                {
                    closing.push('`');
                    k += 1;
                }
                match find_from_exec(line, pos + tc, closing.as_slice()) {
                    Some(e) => {
                        proof {
                            text::lemma_find_from_some(line@, repeat_char('`', tc as nat), (pos + tc) as int);
                        }
                        segs.push((p, pos, false));
                        segs.push((pos, e + tc, true));
                        let ghost head = seq![(p as int, pos as int, false), (pos as int, (e + tc) as int, true)];
                        assert(segs@.map_values(|t: (usize, usize, bool)| (t.0 as int, t.1 as int, t.2)) =~= before.map_values(|t: (usize, usize, bool)| (t.0 as int, t.1 as int, t.2)) + head);
                        assert(code_segments(line@, p as int) == head + code_segments(line@, (e + tc) as int));
                        p = e + tc;
                    },
                    None => {
                        segs.push((p, pos, false));
                        segs.push((pos, line.len(), false));
                        assert(segs@.map_values(|t: (usize, usize, bool)| (t.0 as int, t.1 as int, t.2)) =~= before.map_values(|t: (usize, usize, bool)| (t.0 as int, t.1 as int, t.2)) + code_segments(line@, p as int));
                        p = line.len();
                    },
                }
            },
        }
    }
    assert(code_segments(line@, p as int) =~= Seq::<(int, int, bool)>::empty());
    assert forall|i: int| 0 <= i < segs@.len() implies {
        &&& (#[trigger] segs@[i]).0 as int == code_segments(line@, 0)[i].0
        &&& segs@[i].1 as int == code_segments(line@, 0)[i].1
        &&& segs@[i].2 == code_segments(line@, 0)[i].2
    } by {
        assert(all[i] == segs@.map_values(|t: (usize, usize, bool)| (t.0 as int, t.1 as int, t.2))[i]);
    }
    segs
}

proof fn lemma_segments_tile(line: Seq<char>, p: int, f: spec_fn(Seq<char>) -> Seq<char>)
    requires
        0 <= p <= line.len(),
        forall|a: int, b: int| 0 <= a <= b <= line.len() ==> #[trigger] f(line.subrange(a, b)) == line.subrange(a, b),
    ensures
        render_segments(line, code_segments(line, p), f) == line.subrange(p, line.len() as int),
    decreases line.len() - p,
{
    if p >= line.len() {
        assert(line.subrange(p, line.len() as int) =~= Seq::<char>::empty());
    } else {
        match text::find_from(line, seq!['`'], p) {
            None => {
                let segs = seq![(p, line.len() as int, false)];
                assert(render_segments(line, segs, f) == render_segments(line, segs.drop_last(), f) + render_segment(line, segs.last(), f));
                assert(segs.drop_last() =~= Seq::<(int, int, bool)>::empty());
                assert(f(line.subrange(p, line.len() as int)) == line.subrange(p, line.len() as int));
            },
            Some(pos) => {
                lemma_segment_step(line, p, pos);
                let tc = text::run_len(line.skip(pos), '`');
                let a = seq![(p, pos, false)];
                assert(render_segments(line, a, f) == render_segments(line, a.drop_last(), f) + render_segment(line, a.last(), f));
                assert(a.drop_last() =~= Seq::<(int, int, bool)>::empty());
                assert(f(line.subrange(p, pos)) == line.subrange(p, pos));
                match text::find_from(line, repeat_char('`', tc), pos + tc) {
                    Some(e) => {
                        let b = seq![(pos, e + tc, true)];
                        assert(render_segments(line, b, f) == render_segments(line, b.drop_last(), f) + render_segment(line, b.last(), f));
                        assert(b.drop_last() =~= Seq::<(int, int, bool)>::empty());
                        lemma_segments_tile(line, e + tc, f);
                        let rest = code_segments(line, e + tc);
                        assert(seq![(p, pos, false), (pos, e + tc, true)] =~= a + b);
                        lemma_render_segments_add(line, a, b, f);
                        lemma_render_segments_add(line, a + b, rest, f);
                        assert(line.subrange(p, pos) + line.subrange(pos, e + tc) + line.subrange(e + tc, line.len() as int)
                            =~= line.subrange(p, line.len() as int));
                    },
                    None => {
                        let b = seq![(pos, line.len() as int, false)];
                        assert(render_segments(line, b, f) == render_segments(line, b.drop_last(), f) + render_segment(line, b.last(), f));
                        assert(b.drop_last() =~= Seq::<(int, int, bool)>::empty());
                        assert(f(line.subrange(pos, line.len() as int)) == line.subrange(pos, line.len() as int));
                        assert(seq![(p, pos, false), (pos, line.len() as int, false)] =~= a + b);
                        lemma_render_segments_add(line, a, b, f);
                        assert(line.subrange(p, pos) + line.subrange(pos, line.len() as int) =~= line.subrange(p, line.len() as int));
                    },
                }
            },
        }
    }
}

/// A line whose every part `f` leaves as it is comes back unchanged: the
/// code spans and the text between them tile the line.
pub proof fn law_rewrite_outside_code_identity(line: Seq<char>, f: spec_fn(Seq<char>) -> Seq<char>)
    requires
        forall|a: int, b: int| 0 <= a <= b <= line.len() ==> #[trigger] f(line.subrange(a, b)) == line.subrange(a, b),
    ensures
        rewrite_outside_code(line, f) == line,
{
    lemma_segments_tile(line, 0, f);
    assert(line.subrange(0, line.len() as int) =~= line);
}

} // verus!

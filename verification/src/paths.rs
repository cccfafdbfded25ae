//! File names of `/`-separated relative paths, as `std::path::Path` reads
//! them on Unix: the file name is the last component that is neither empty
//! nor `.` (none when that component is `..`); the extension is what
//! follows the last `.` of the file name unless that `.` is its first
//! character; the stem is the file name without the extension.
use vstd::prelude::*;
use crate::text::{self, rfind_exec, slice_vec, split_char_exec};

verus! {

pub open spec fn dot_dot() -> Seq<char> {
    seq!['.', '.']
}

/// The last component of `parts` that is neither empty nor `.`.
pub open spec fn last_part(parts: Seq<Seq<char>>) -> Option<Seq<char>>
    decreases parts.len(),
{
    if parts.len() == 0 {
        None
    } else if parts.last().len() > 0 && parts.last() != seq!['.'] {
        Some(parts.last())
    } else {
        last_part(parts.drop_last())
    }
}

/// `Path::file_name`.
pub open spec fn file_name(p: Seq<char>) -> Option<Seq<char>> {
    match last_part(text::split_char(p, '/')) {
        None => None,
        Some(x) => if x == dot_dot() {
            None
        } else {
            Some(x)
        },
    }
}

/// The extension of a file name.
pub open spec fn name_extension(n: Seq<char>) -> Option<Seq<char>> {
    match text::rfind(n, seq!['.']) {
        None => None,
        Some(i) => if i == 0 {
            None
        } else {
            Some(n.skip(i + 1))
        },
    }
}

/// The stem of a file name.
pub open spec fn name_stem(n: Seq<char>) -> Seq<char> {
    match text::rfind(n, seq!['.']) {
        None => n,
        Some(i) => if i == 0 {
            n
        } else {
            n.take(i)
        },
    }
}

/// `Path::extension`.
pub open spec fn extension(p: Seq<char>) -> Option<Seq<char>> {
    match file_name(p) {
        None => None,
        Some(n) => name_extension(n),
    }
}

/// `Path::file_stem`.
pub open spec fn file_stem(p: Seq<char>) -> Option<Seq<char>> {
    match file_name(p) {
        None => None,
        Some(n) => Some(name_stem(n)),
    }
}

fn is_dot_dot(s: &[char]) -> (b: bool)
    ensures
        b == (s@ == dot_dot()),
{
    let b = s.len() == 2 && s[0] == '.' && s[1] == '.';
    assert(b ==> s@ =~= dot_dot());
    b
}

/// `Path::file_name`.
pub fn file_name_exec(p: &[char]) -> (r: Option<Vec<char>>)
    ensures
        r is None <==> file_name(p@) is None,
        r matches Some(v) ==> file_name(p@) == Some(v@),
{
    let parts = split_char_exec(p, '/');
    let ghost gp = text::split_char(p@, '/');
    let mut k: usize = parts.len();
    assert(gp.take(k as int) =~= gp);
    while k > 0
        invariant
            k <= parts@.len(),
            gp == text::split_char(p@, '/'),
            parts@.len() == gp.len(),
            forall|i: int| 0 <= i < parts@.len() ==> #[trigger] parts@[i]@ == gp[i],
            last_part(gp) == last_part(gp.take(k as int)),
        decreases k,
    {
        let part = parts[k - 1].as_slice();
        assert(part@ == gp[k - 1]);
        assert(gp.take(k as int).last() == gp[k - 1]);
        assert(gp.take(k as int).drop_last() =~= gp.take(k - 1));
        let is_dot = part.len() == 1 && part[0] == '.';
        assert(is_dot == (part@ == seq!['.'])) by {
            if part@ == seq!['.'] {
                assert(part@.len() == 1);
            }
            if is_dot {
                assert(part@ =~= seq!['.']);
            }
        }
        if part.len() > 0 && !is_dot {
            if is_dot_dot(part) {
                return None;
            }
            return Some(slice_vec(part, 0, part.len()));
        }
        k -= 1;
    }
    None
}

/// The stem of the file name of `p`.
pub fn file_stem_exec(p: &[char]) -> (r: Option<Vec<char>>)
    ensures
        r is None <==> file_stem(p@) is None,
        r matches Some(v) ==> file_stem(p@) == Some(v@),
{
    match file_name_exec(p) {
        None => None,
        Some(n) => {
            let dot: [char; 1] = ['.'];
            let ds = dot.as_slice();
            assert(ds@ =~= seq!['.']);
            match rfind_exec(n.as_slice(), ds) {
                None => Some(n),
                Some(i) => {
                    proof {
                        text::lemma_rfind_from_some(n@, seq!['.'], n@.len() - 1);
                    }
                    if i == 0 {
                        Some(n)
                    } else {
                        Some(slice_vec(n.as_slice(), 0, i))
                    }
                },
            }
        },
    }
}

/// Whether the file name of `p` has an extension.
pub fn has_extension(p: &[char]) -> (b: bool)
    ensures
        b == (extension(p@) is Some),
{
    match file_name_exec(p) {
        None => false,
        Some(n) => {
            let dot: [char; 1] = ['.'];
            let ds = dot.as_slice();
            assert(ds@ =~= seq!['.']);
            match rfind_exec(n.as_slice(), ds) {
                None => false,
                Some(i) => i != 0,
            }
        },
    }
}

} // verus!

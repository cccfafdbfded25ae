//! Character-sequence model of text and the small string operations the
//! passes are built from. Every operation works on `Seq<char>` in its
//! specification; the executable code works on `Vec<char>` / `&[char]`.
use vstd::prelude::*;

verus! {

/// Unicode `White_Space` code points, which is what `char::is_whitespace`
/// (and therefore `str::trim`, `str::trim_start`, `str::trim_end`) tests.
pub open spec fn is_ws(c: char) -> bool {
    ||| c == ' '
    ||| c == '\t'
    ||| c == '\n'
    ||| c == '\u{0B}'
    ||| c == '\u{0C}'
    ||| c == '\r'
    ||| c == '\u{85}'
    ||| c == '\u{A0}'
    ||| c == '\u{1680}'
    ||| ('\u{2000}' <= c && c <= '\u{200A}')
    ||| c == '\u{2028}'
    ||| c == '\u{2029}'
    ||| c == '\u{202F}'
    ||| c == '\u{205F}'
    ||| c == '\u{3000}'
}

/// `s` with its leading white space removed.
pub open spec fn trim_start(s: Seq<char>) -> Seq<char>
    decreases s.len(),
{
    if s.len() > 0 && is_ws(s[0]) {
        trim_start(s.drop_first())
    } else {
        s
    }
}

/// `s` with its trailing white space removed.
pub open spec fn trim_end(s: Seq<char>) -> Seq<char>
    decreases s.len(),
{
    if s.len() > 0 && is_ws(s.last()) {
        trim_end(s.drop_last())
    } else {
        s
    }
}

/// `s` with white space removed at both ends.
pub open spec fn trim(s: Seq<char>) -> Seq<char> {
    trim_end(trim_start(s))
}

/// `s` without its leading `c` characters (`str::trim_start_matches` with a char).
pub open spec fn trim_start_char(s: Seq<char>, c: char) -> Seq<char>
    decreases s.len(),
{
    if s.len() > 0 && s[0] == c {
        trim_start_char(s.drop_first(), c)
    } else {
        s
    }
}

/// `s` without its trailing `c` characters.
pub open spec fn trim_end_char(s: Seq<char>, c: char) -> Seq<char>
    decreases s.len(),
{
    if s.len() > 0 && s.last() == c {
        trim_end_char(s.drop_last(), c)
    } else {
        s
    }
}

/// `p` occurs in `s` starting at index `i`.
pub open spec fn occurs_at(s: Seq<char>, p: Seq<char>, i: int) -> bool {
    0 <= i && i + p.len() <= s.len() && s.subrange(i, i + p.len()) == p
}

pub open spec fn starts_with(s: Seq<char>, p: Seq<char>) -> bool {
    occurs_at(s, p, 0)
}

pub open spec fn ends_with(s: Seq<char>, p: Seq<char>) -> bool {
    p.len() <= s.len() && s.skip(s.len() - p.len()) == p
}

/// The first index at or after `i` where `p` occurs in `s`.
pub open spec fn find_from(s: Seq<char>, p: Seq<char>, i: int) -> Option<int>
    decreases s.len() + 1 - i,
{
    if i < 0 || i + p.len() > s.len() {
        None
    } else if occurs_at(s, p, i) {
        Some(i)
    } else {
        find_from(s, p, i + 1)
    }
}

/// The first index where `p` occurs in `s` (`str::find`).
pub open spec fn find(s: Seq<char>, p: Seq<char>) -> Option<int> {
    find_from(s, p, 0)
}

pub open spec fn contains(s: Seq<char>, p: Seq<char>) -> bool {
    find(s, p) is Some
}

/// The last index at or below `i` where `p` occurs in `s`.
pub open spec fn rfind_from(s: Seq<char>, p: Seq<char>, i: int) -> Option<int>
    decreases i + 1,
{
    if i < 0 {
        None
    } else if occurs_at(s, p, i) {
        Some(i)
    } else {
        rfind_from(s, p, i - 1)
    }
}

/// The last index where `p` occurs in `s` (`str::rfind`).
pub open spec fn rfind(s: Seq<char>, p: Seq<char>) -> Option<int> {
    rfind_from(s, p, s.len() - p.len())
}

/// Number of leading characters of `s` equal to `c`.
pub open spec fn run_len(s: Seq<char>, c: char) -> nat
    decreases s.len(),
{
    if s.len() > 0 && s[0] == c {
        1 + run_len(s.drop_first(), c)
    } else {
        0
    }
}

/// Every occurrence of `c` in `s` replaced by `r` (`str::replace` with a char pattern).
pub open spec fn replace_char(s: Seq<char>, c: char, r: Seq<char>) -> Seq<char>
    decreases s.len(),
{
    if s.len() == 0 {
        s
    } else {
        (if s[0] == c { r } else { seq![s[0]] }) + replace_char(s.drop_first(), c, r)
    }
}

/// `s.split(sep)`: the pieces between separators (always at least one).
pub open spec fn split_char(s: Seq<char>, sep: char) -> Seq<Seq<char>>
    decreases s.len(),
{
    if s.len() == 0 {
        seq![Seq::<char>::empty()]
    } else {
        let r = split_char(s.drop_last(), sep);
        if s.last() == sep {
            r.push(Seq::<char>::empty())
        } else {
            r.update(r.len() - 1, r.last().push(s.last()))
        }
    }
}

/// The pieces joined with `sep` between them.
pub open spec fn join_char(ls: Seq<Seq<char>>, sep: char) -> Seq<char>
    decreases ls.len(),
{
    if ls.len() == 0 {
        Seq::<char>::empty()
    } else if ls.len() == 1 {
        ls[0]
    } else {
        join_char(ls.drop_last(), sep) + seq![sep] + ls.last()
    }
}

pub proof fn lemma_split_char_len(s: Seq<char>, sep: char)
    ensures
        split_char(s, sep).len() >= 1,
    decreases s.len(),
{
    if s.len() > 0 {
        lemma_split_char_len(s.drop_last(), sep);
    }
}

/// The first piece of `split_char(s, sep)` is `s` up to its first `sep`
/// (all of `s` when there is none); when there is one, a second piece follows.
pub proof fn lemma_split_first_piece(s: Seq<char>, sep: char) -> (j: int)
    ensures
        0 <= j <= s.len(),
        split_char(s, sep)[0] == s.take(j),
        forall|i: int| 0 <= i < j ==> s[i] != sep,
        j < s.len() ==> s[j] == sep && split_char(s, sep).len() >= 2,
        j == s.len() ==> split_char(s, sep).len() == 1,
    decreases s.len(),
{
    if s.len() == 0 {
        assert(s.take(0) =~= s);
        0
    } else {
        let d = s.drop_last();
        let jd = lemma_split_first_piece(d, sep);
        let r = split_char(d, sep);
        assert(forall|i: int| 0 <= i < d.len() ==> #[trigger] s[i] == d[i]);
        if jd < d.len() {
            assert(s.take(jd) =~= d.take(jd));
            jd
        } else {
            assert(d.take(jd) =~= d);
            if s.last() == sep {
                assert(s.take(jd) =~= d);
                jd
            } else {
                assert(r.last().push(s.last()) =~= s.take(s.len() as int));
                s.len() as int
            }
        }
    }
}

/// No piece of `split_char(s, sep)` holds `sep`.
pub proof fn lemma_split_char_no_sep(s: Seq<char>, sep: char)
    ensures
        forall|i: int, j: int|
            0 <= i < split_char(s, sep).len() && 0 <= j < split_char(s, sep)[i].len() ==> split_char(s, sep)[i][j] != sep,
    decreases s.len(),
{
    if s.len() > 0 {
        lemma_split_char_no_sep(s.drop_last(), sep);
        lemma_split_char_len(s.drop_last(), sep);
        let r = split_char(s.drop_last(), sep);
        if s.last() != sep {
            assert forall|i: int, j: int|
                0 <= i < split_char(s, sep).len() && 0 <= j < split_char(s, sep)[i].len() implies split_char(s, sep)[i][j] != sep by {
                if i == r.len() - 1 {
                    assert(split_char(s, sep)[i] == r.last().push(s.last()));
                }
            }
        }
    }
}

/// Joining the pieces of `s` with `sep` gives back `s`.
pub proof fn lemma_join_split(s: Seq<char>, sep: char)
    ensures
        join_char(split_char(s, sep), sep) == s,
    decreases s.len(),
{
    if s.len() == 0 {
    } else {
        let r = split_char(s.drop_last(), sep);
        lemma_join_split(s.drop_last(), sep);
        lemma_split_char_len(s.drop_last(), sep);
        if s.last() == sep {
            let t = r.push(Seq::<char>::empty());
            assert(t.drop_last() =~= r);
            assert(join_char(t, sep) =~= s);
        } else {
            let t = r.update(r.len() - 1, r.last().push(s.last()));
            if r.len() == 1 {
                assert(join_char(r, sep) == r[0]);
                assert(t.len() == 1);
                assert(join_char(t, sep) == t[0]);
                assert(s.drop_last().push(s.last()) =~= s);
            } else {
                assert(t.drop_last() =~= r.drop_last());
                assert(join_char(r, sep) == join_char(r.drop_last(), sep) + seq![sep] + r.last());
                assert(t.last() == r.last().push(s.last()));
                assert(join_char(t, sep) == join_char(t.drop_last(), sep) + seq![sep] + t.last());
                assert(s =~= s.drop_last().push(s.last()));
                assert(join_char(t, sep) =~= s);
            }
        }
    }
}

/// Adding one piece to the joined prefix.
pub proof fn lemma_join_char_take(ls: Seq<Seq<char>>, sep: char, i: int)
    requires
        0 <= i < ls.len(),
    ensures
        join_char(ls.take(i + 1), sep) == if i == 0 {
            ls[0]
        } else {
            join_char(ls.take(i), sep) + seq![sep] + ls[i]
        },
{
    assert(ls.take(i + 1).drop_last() =~= ls.take(i));
}

/// `s.split(sep)`.
pub fn split_char_exec(s: &[char], sep: char) -> (res: Vec<Vec<char>>)
    ensures
        res@.len() == split_char(s@, sep).len(),
        forall|i: int| 0 <= i < res@.len() ==> #[trigger] res@[i]@ == split_char(s@, sep)[i],
{
    let mut done: Vec<Vec<char>> = Vec::new();
    let mut cur: Vec<char> = Vec::new();
    let mut k: usize = 0;
    assert(s@.take(0) =~= Seq::<char>::empty());
    while k < s.len()
        invariant
            k <= s.len(),
            split_char(s@.take(k as int), sep).len() == done@.len() + 1,
            forall|i: int| 0 <= i < done@.len() ==> #[trigger] done@[i]@ == split_char(s@.take(k as int), sep)[i],
            cur@ == split_char(s@.take(k as int), sep).last(),
        decreases s.len() - k,
    {
        let ghost prev = split_char(s@.take(k as int), sep);
        assert(s@.take(k + 1).drop_last() =~= s@.take(k as int));
        assert(s@.take(k + 1).last() == s@[k as int]);
        if s[k] == sep {
            done.push(cur);
            cur = Vec::new();
            assert(cur@ =~= Seq::<char>::empty());
        } else {
            cur.push(s[k]);
        }
        k += 1;
        assert forall|i: int| 0 <= i < done@.len() implies #[trigger] done@[i]@ == split_char(s@.take(k as int), sep)[i] by {
            if i < prev.len() - 1 {
                assert(done@[i]@ == prev[i]);
            }
        }
    }
    done.push(cur);
    assert(s@.take(s.len() as int) =~= s@);
    assert forall|i: int| 0 <= i < done@.len() implies #[trigger] done@[i]@ == split_char(s@, sep)[i] by {
    }
    done
}

/// A piece that was followed by a newline loses one trailing `\r`.
pub open spec fn strip_cr(l: Seq<char>) -> Seq<char> {
    if l.len() > 0 && l.last() == '\r' {
        l.drop_last()
    } else {
        l
    }
}

/// `str::lines`: split on `\n`, a `\r` before the `\n` removed, and no
/// final empty line after a trailing newline.
pub open spec fn str_lines(s: Seq<char>) -> Seq<Seq<char>> {
    let ls = split_char(s, '\n');
    let k = ls.len() - 1;
    let head = Seq::new(k as nat, |i: int| strip_cr(ls[i]));
    if ls.last().len() == 0 {
        head
    } else {
        head.push(ls.last())
    }
}

/// `str::lines`.
pub fn str_lines_exec(s: &[char]) -> (res: Vec<Vec<char>>)
    ensures
        res@.len() == str_lines(s@).len(),
        forall|i: int| 0 <= i < res@.len() ==> #[trigger] res@[i]@ == str_lines(s@)[i],
{
    let parts = split_char_exec(s, '\n');
    let ghost ls = split_char(s@, '\n');
    proof {
        lemma_split_char_len(s@, '\n');
    }
    let k = parts.len() - 1;
    let mut out: Vec<Vec<char>> = Vec::new();
    let mut i: usize = 0;
    while i < k
        invariant
            i <= k,
            k == parts@.len() - 1,
            parts@.len() == ls.len(),
            ls == split_char(s@, '\n'),
            forall|j: int| 0 <= j < parts@.len() ==> #[trigger] parts@[j]@ == ls[j],
            out@.len() == i,
            forall|j: int| 0 <= j < i ==> #[trigger] out@[j]@ == strip_cr(ls[j]),
        decreases k - i,
    {
        let p = parts[i].as_slice();
        assert(p@ == ls[i as int]);
        if p.len() > 0 && p[p.len() - 1] == '\r' {
            out.push(slice_vec(p, 0, p.len() - 1));
            assert(p@.subrange(0, p@.len() - 1) =~= p@.drop_last());
        } else {
            out.push(slice_vec(p, 0, p.len()));
            assert(p@.subrange(0, p@.len() as int) =~= p@);
        }
        i += 1;
    }
    let last = parts[k].as_slice();
    assert(last@ == ls.last());
    if last.len() > 0 {
        out.push(slice_vec(last, 0, last.len()));
        assert(last@.subrange(0, last@.len() as int) =~= last@);
    }
    assert forall|j: int| 0 <= j < out@.len() implies #[trigger] out@[j]@ == str_lines(s@)[j] by {
    }
    out
}

pub proof fn lemma_find_from_some(s: Seq<char>, p: Seq<char>, i: int)
    requires
        find_from(s, p, i) is Some,
    ensures
        i <= find_from(s, p, i)->0,
        occurs_at(s, p, find_from(s, p, i)->0),
        forall|j: int| i <= j < find_from(s, p, i)->0 ==> !occurs_at(s, p, j),
    decreases s.len() + 1 - i,
{
    if i < 0 || i + p.len() > s.len() {
    } else if occurs_at(s, p, i) {
    } else {
        lemma_find_from_some(s, p, i + 1);
    }
}

pub proof fn lemma_find_from_none(s: Seq<char>, p: Seq<char>, i: int)
    requires
        find_from(s, p, i) is None,
        0 <= i,
    ensures
        forall|j: int| i <= j ==> !occurs_at(s, p, j),
    decreases s.len() + 1 - i,
{
    if i + p.len() > s.len() {
    } else {
        lemma_find_from_none(s, p, i + 1);
    }
}

pub proof fn lemma_rfind_from_some(s: Seq<char>, p: Seq<char>, i: int)
    requires
        rfind_from(s, p, i) is Some,
    ensures
        rfind_from(s, p, i)->0 <= i,
        occurs_at(s, p, rfind_from(s, p, i)->0),
        forall|j: int| rfind_from(s, p, i)->0 < j <= i ==> !occurs_at(s, p, j),
    decreases i + 1,
{
    if i < 0 {
    } else if occurs_at(s, p, i) {
    } else {
        lemma_rfind_from_some(s, p, i - 1);
    }
}

pub proof fn lemma_trim_start_skip(s: Seq<char>)
    ensures
        exists|k: int| 0 <= k <= s.len() && trim_start(s) == s.skip(k),
    decreases s.len(),
{
    if s.len() > 0 && is_ws(s[0]) {
        lemma_trim_start_skip(s.drop_first());
        let k = choose|k: int| 0 <= k <= s.drop_first().len() && trim_start(s.drop_first()) == s.drop_first().skip(k);
        assert(s.drop_first().skip(k) =~= s.skip(k + 1));
    } else {
        assert(s.skip(0) =~= s);
    }
}

pub proof fn lemma_replace_char_add(a: Seq<char>, b: Seq<char>, c: char, r: Seq<char>)
    ensures
        replace_char(a + b, c, r) == replace_char(a, c, r) + replace_char(b, c, r),
    decreases a.len(),
{
    if a.len() == 0 {
        assert(a + b =~= b);
    } else {
        lemma_replace_char_add(a.drop_first(), b, c, r);
        assert((a + b).drop_first() =~= a.drop_first() + b);
        assert((if a[0] == c { r } else { seq![a[0]] }) + (replace_char(a.drop_first(), c, r) + replace_char(b, c, r))
            =~= (if a[0] == c { r } else { seq![a[0]] }) + replace_char(a.drop_first(), c, r) + replace_char(b, c, r));
    }
}

/// A character of `replace_char(s, c, r)` is a character of `s` other than
/// `c`, or a character of `r`.
pub proof fn lemma_replace_char_contains(s: Seq<char>, c: char, r: Seq<char>, x: char)
    ensures
        replace_char(s, c, r).contains(x) ==> (s.contains(x) && x != c) || r.contains(x),
    decreases s.len(),
{
    if s.len() > 0 {
        lemma_replace_char_contains(s.drop_first(), c, r, x);
        let head = if s[0] == c { r } else { seq![s[0]] };
        let t = replace_char(s.drop_first(), c, r);
        assert(replace_char(s, c, r) == head + t);
        if (head + t).contains(x) {
            let k = choose|k: int| 0 <= k < (head + t).len() && (head + t)[k] == x;
            if k < head.len() {
                if s[0] == c {
                    assert(r[k] == x);
                } else {
                    assert(s[0] == x);
                }
            } else {
                assert(t[k - head.len()] == x);
                if s.drop_first().contains(x) {
                    let m = choose|m: int| 0 <= m < s.drop_first().len() && s.drop_first()[m] == x;
                    assert(s[m + 1] == x);
                }
            }
        }
    }
}

/// A piece that holds `p` makes the joined text hold `p`.
pub proof fn lemma_join_char_occurs(ls: Seq<Seq<char>>, sep: char, p: Seq<char>, i: int, j: int)
    requires
        0 <= i < ls.len(),
        occurs_at(ls[i], p, j),
    ensures
        exists|k: int| occurs_at(join_char(ls, sep), p, k),
    decreases ls.len(),
{
    if ls.len() == 1 {
        assert(join_char(ls, sep) == ls[0]);
    } else {
        let pre = join_char(ls.drop_last(), sep);
        let whole = pre + seq![sep] + ls.last();
        assert(join_char(ls, sep) == whole);
        if i == ls.len() - 1 {
            let k = pre.len() + 1 + j;
            assert(whole.subrange(k, k + p.len()) =~= ls.last().subrange(j, j + p.len()));
            assert(occurs_at(whole, p, k));
        } else {
            assert(ls.drop_last()[i] == ls[i]);
            lemma_join_char_occurs(ls.drop_last(), sep, p, i, j);
            let k = choose|k: int| occurs_at(pre, p, k);
            assert(whole.subrange(k, k + p.len()) =~= pre.subrange(k, k + p.len()));
            assert(occurs_at(whole, p, k));
        }
    }
}

/// `s` holds `p` when some piece of `s.split(sep)` does.
pub proof fn lemma_split_piece_occurs(s: Seq<char>, sep: char, p: Seq<char>, i: int, j: int)
    requires
        0 <= i < split_char(s, sep).len(),
        occurs_at(split_char(s, sep)[i], p, j),
    ensures
        contains(s, p),
{
    lemma_join_char_occurs(split_char(s, sep), sep, p, i, j);
    lemma_join_split(s, sep);
    let k = choose|k: int| occurs_at(s, p, k);
    if find(s, p) is None {
        lemma_find_from_none(s, p, 0);
    }
}

/// A text that holds `p` inside a part `s[a..b]` holds `p`.
pub proof fn lemma_subrange_occurs(s: Seq<char>, p: Seq<char>, a: int, b: int, j: int)
    requires
        0 <= a <= b <= s.len(),
        occurs_at(s.subrange(a, b), p, j),
    ensures
        occurs_at(s, p, a + j),
{
    assert(s.subrange(a + j, a + j + p.len()) =~= s.subrange(a, b).subrange(j, j + p.len()));
}

/// Appending a piece without `sep` extends the last piece of the split.
pub proof fn lemma_split_append(s: Seq<char>, t: Seq<char>, sep: char)
    requires
        forall|j: int| 0 <= j < t.len() ==> t[j] != sep,
    ensures
        split_char(s + t, sep) == split_char(s, sep).update(
            split_char(s, sep).len() - 1,
            split_char(s, sep).last() + t,
        ),
    decreases t.len(),
{
    lemma_split_char_len(s, sep);
    if t.len() == 0 {
        assert(s + t =~= s);
        assert(split_char(s, sep).last() + t =~= split_char(s, sep).last());
        assert(split_char(s, sep).update(split_char(s, sep).len() - 1, split_char(s, sep).last()) =~= split_char(s, sep));
    } else {
        lemma_split_append(s, t.drop_last(), sep);
        assert((s + t).drop_last() =~= s + t.drop_last());
        assert((s + t).last() == t.last());
        let r = split_char(s, sep);
        let r1 = r.update(r.len() - 1, r.last() + t.drop_last());
        assert(r1.last() == r.last() + t.drop_last());
        assert((r.last() + t.drop_last()).push(t.last()) =~= r.last() + t);
        assert(r1.update(r1.len() - 1, r1.last().push(t.last())) =~= r.update(r.len() - 1, r.last() + t));
    }
}

/// Splitting pieces without `sep` joined by `sep` gives the pieces back.
pub proof fn lemma_split_join(ls: Seq<Seq<char>>, sep: char)
    requires
        ls.len() >= 1,
        forall|i: int, j: int| 0 <= i < ls.len() && 0 <= j < ls[i].len() ==> ls[i][j] != sep,
    ensures
        split_char(join_char(ls, sep), sep) == ls,
    decreases ls.len(),
{
    if ls.len() == 1 {
        lemma_split_append(Seq::empty(), ls[0], sep);
        assert(Seq::<char>::empty() + ls[0] =~= ls[0]);
        assert(split_char(Seq::<char>::empty(), sep) =~= seq![Seq::<char>::empty()]);
        assert(seq![Seq::<char>::empty()].update(0, Seq::<char>::empty() + ls[0]) =~= ls);
    } else {
        let pre = ls.drop_last();
        lemma_split_join(pre, sep);
        let j = join_char(pre, sep);
        let js = j + seq![sep];
        assert(js.drop_last() =~= j);
        assert(split_char(js, sep) == split_char(j, sep).push(Seq::<char>::empty()));
        lemma_split_append(js, ls.last(), sep);
        assert(split_char(js, sep).last() + ls.last() =~= ls.last());
        assert(pre.push(Seq::<char>::empty()).update(pre.len() as int, ls.last()) =~= ls);
    }
}

/// With a character that is not white space somewhere in `g`, white space
/// added at its end stays after what `trim_start` keeps.
pub proof fn lemma_trim_start_append(g: Seq<char>, x: Seq<char>)
    requires
        trim_start(g).len() > 0,
    ensures
        trim_start(g + x) == trim_start(g) + x,
    decreases g.len(),
{
    if g.len() > 0 && is_ws(g[0]) {
        lemma_trim_start_append(g.drop_first(), x);
        assert((g + x).drop_first() =~= g.drop_first() + x);
    } else {
        assert(g.len() > 0);
    }
}

/// A text that starts with a character that is not white space keeps something when trimmed at the end.
pub proof fn lemma_trim_end_keeps_first(s: Seq<char>)
    requires
        s.len() > 0,
        !is_ws(s[0]),
    ensures
        trim_end(s).len() > 0,
    decreases s.len(),
{
    if s.len() > 1 && is_ws(s.last()) {
        lemma_trim_end_keeps_first(s.drop_last());
    }
}

/// Leading `c`s of `t + x`: those of `t`, and those of `x` when `t` is all `c`.
pub proof fn lemma_run_len_append(t: Seq<char>, x: Seq<char>, c: char)
    ensures
        run_len(t + x, c) == run_len(t, c) + if run_len(t, c) == t.len() { run_len(x, c) } else { 0 },
    decreases t.len(),
{
    if t.len() == 0 {
        assert(t + x =~= x);
    } else if t[0] == c {
        lemma_run_len_append(t.drop_first(), x, c);
        assert((t + x).drop_first() =~= t.drop_first() + x);
    } else {
        assert((t + x)[0] == t[0]);
    }
}

/// Joining from the front: the first piece, the separator, the rest joined.
pub proof fn lemma_join_char_front(ls: Seq<Seq<char>>, sep: char)
    requires
        ls.len() >= 2,
    ensures
        join_char(ls, sep) == ls[0] + seq![sep] + join_char(ls.drop_first(), sep),
    decreases ls.len(),
{
    if ls.len() == 2 {
        assert(ls.drop_last() =~= seq![ls[0]]);
        assert(ls.drop_first() =~= seq![ls[1]]);
        assert(join_char(ls.drop_last(), sep) == ls[0]);
        assert(join_char(ls.drop_first(), sep) == ls[1]);
    } else {
        lemma_join_char_front(ls.drop_last(), sep);
        let a = ls.drop_last();
        let b = ls.drop_first();
        assert(a.drop_first() =~= b.drop_last());
        assert(b.last() == ls.last());
        assert(a[0] == ls[0]);
        assert(join_char(b, sep) == join_char(b.drop_last(), sep) + seq![sep] + b.last());
        assert(join_char(ls, sep) == join_char(a, sep) + seq![sep] + ls.last());
        assert(ls[0] + seq![sep] + join_char(a.drop_first(), sep) + seq![sep] + ls.last()
            =~= ls[0] + seq![sep] + (join_char(b.drop_last(), sep) + seq![sep] + b.last()));
    }
}

/// What `trim_start` keeps is the end of the text.
pub proof fn lemma_trim_start_is_suffix(s: Seq<char>, k: int)
    requires
        0 <= k < trim_start(s).len(),
    ensures
        exists|m: int| 0 <= m < s.len() && s[m] == trim_start(s)[k],
{
    lemma_trim_start_skip(s);
    let j = choose|j: int| 0 <= j <= s.len() && trim_start(s) == s.skip(j);
    assert(s[j + k] == trim_start(s)[k]);
}

/// What `trim_end` keeps is the start of the text.
pub proof fn lemma_trim_end_is_prefix(s: Seq<char>)
    ensures
        trim_end(s).len() <= s.len(),
        forall|k: int| 0 <= k < trim_end(s).len() ==> trim_end(s)[k] == s[k],
    decreases s.len(),
{
    if s.len() > 0 && is_ws(s.last()) {
        lemma_trim_end_is_prefix(s.drop_last());
        assert forall|k: int| 0 <= k < trim_end(s).len() implies trim_end(s)[k] == s[k] by {
            assert(s.drop_last()[k] == s[k]);
        }
    }
}

pub fn is_whitespace(c: char) -> (b: bool)
    ensures
        b == is_ws(c),
{
    c == ' ' || c == '\t' || c == '\n' || c == '\u{0B}' || c == '\u{0C}' || c == '\r' || c
        == '\u{85}' || c == '\u{A0}' || c == '\u{1680}' || ('\u{2000}' <= c && c <= '\u{200A}')
        || c == '\u{2028}' || c == '\u{2029}' || c == '\u{202F}' || c == '\u{205F}' || c
        == '\u{3000}'
}

/// The characters of `s`.
pub fn chars_of(s: &str) -> (res: Vec<char>)
    ensures
        res@ == s@,
{
    let mut v: Vec<char> = Vec::new();
    for c in it: s.chars()
        invariant
            v@ == it.seq().take(it.index() as int),
    {
        v.push(c);
    }
    v
}

/// `FromIterator<char> for String`: the string made of the characters of `v`, in order.
#[verifier::external_body]
pub(crate) fn string_of(v: &[char]) -> (res: String)
    ensures
        res@ == v@,
{
    v.iter().collect::<String>()
}

/// Appends all of `s` to `out`.
pub fn push_all(out: &mut Vec<char>, s: &[char])
    ensures
        final(out)@ == old(out)@ + s@,
{
    let mut i: usize = 0;
    while i < s.len()
        invariant
            i <= s.len(),
            out@ == old(out)@ + s@.take(i as int),
        decreases s.len() - i,
    {
        out.push(s[i]);
        i += 1;
        assert(s@.take(i as int) =~= s@.take(i - 1) + seq![s@[i - 1]]);
    }
    assert(s@.take(s.len() as int) =~= s@);
}

/// Appends all of `s` to `out`.
pub fn push_str(out: &mut Vec<char>, s: &str)
    ensures
        final(out)@ == old(out)@ + s@,
{
    let cs = chars_of(s);
    push_all(out, cs.as_slice());
}

/// Copy of `s[a..b]`.
pub fn slice_vec(s: &[char], a: usize, b: usize) -> (res: Vec<char>)
    requires
        a <= b <= s.len(),
    ensures
        res@ == s@.subrange(a as int, b as int),
{
    let mut v: Vec<char> = Vec::new();
    push_all(&mut v, &s[a..b]);
    v
}

/// Does `p` occur in `s` at index `i`?
pub fn occurs_at_exec(s: &[char], i: usize, p: &[char]) -> (b: bool)
    ensures
        b == occurs_at(s@, p@, i as int),
{
    if i > s.len() || p.len() > s.len() - i {
        return false;
    }
    let mut k: usize = 0;
    while k < p.len()
        invariant
            k <= p.len(),
            i + p.len() <= s.len(),
            forall|j: int| 0 <= j < k ==> s@[i + j] == p@[j],
        decreases p.len() - k,
    {
        if s[i + k] != p[k] {
            assert(s@.subrange(i as int, i + p.len())[k as int] != p@[k as int]);
            return false;
        }
        k += 1;
    }
    assert(s@.subrange(i as int, i + p.len()) =~= p@);
    true
}

/// Are `a` and `b` the same characters?
pub fn same_chars(a: &[char], b: &[char]) -> (r: bool)
    ensures
        r == (a@ == b@),
{
    if a.len() != b.len() {
        return false;
    }
    let r = occurs_at_exec(a, 0, b);
    assert(a@.subrange(0, b@.len() as int) =~= a@);
    r
}

/// Are `a` and `b` the same text?
pub fn same_text(a: &str, b: &str) -> (r: bool)
    ensures
        r == (a@ == b@),
{
    let av = chars_of(a);
    let bv = chars_of(b);
    same_chars(av.as_slice(), bv.as_slice())
}

pub fn starts_with_exec(s: &[char], p: &[char]) -> (b: bool)
    ensures
        b == starts_with(s@, p@),
{
    occurs_at_exec(s, 0, p)
}

pub fn ends_with_exec(s: &[char], p: &[char]) -> (b: bool)
    ensures
        b == ends_with(s@, p@),
{
    if p.len() > s.len() {
        return false;
    }
    let r = occurs_at_exec(s, s.len() - p.len(), p);
    assert(s@.subrange(s.len() - p.len(), s.len() - p.len() + p.len()) =~= s@.skip(s.len() - p.len()));
    r
}

/// `str::find` from index `i`.
pub fn find_from_exec(s: &[char], i: usize, p: &[char]) -> (r: Option<usize>)
    ensures
        match r {
            Some(k) => find_from(s@, p@, i as int) == Some(k as int),
            None => find_from(s@, p@, i as int) is None,
        },
{
    let mut k: usize = i;
    while k <= s.len() && p.len() <= s.len() - k
        invariant
            i <= k,
            find_from(s@, p@, i as int) == find_from(s@, p@, k as int),
        decreases s.len() + 1 - k,
    {
        if occurs_at_exec(s, k, p) {
            return Some(k);
        }
        assert(p@.len() == 0 ==> s@.subrange(k as int, k as int) =~= p@);
        k += 1;
    }
    None
}

pub fn find_exec(s: &[char], p: &[char]) -> (r: Option<usize>)
    ensures
        match r {
            Some(k) => find(s@, p@) == Some(k as int),
            None => find(s@, p@) is None,
        },
{
    find_from_exec(s, 0, p)
}

pub fn contains_exec(s: &[char], p: &[char]) -> (b: bool)
    ensures
        b == contains(s@, p@),
{
    find_exec(s, p).is_some()
}

/// `str::rfind`.
pub fn rfind_exec(s: &[char], p: &[char]) -> (r: Option<usize>)
    ensures
        match r {
            Some(k) => rfind(s@, p@) == Some(k as int),
            None => rfind(s@, p@) is None,
        },
{
    if p.len() > s.len() {
        return None;
    }
    let mut k: usize = s.len() - p.len();
    loop
        invariant
            k <= s.len() - p.len(),
            p.len() <= s.len(),
            rfind(s@, p@) == rfind_from(s@, p@, k as int),
        decreases k,
    {
        if occurs_at_exec(s, k, p) {
            return Some(k);
        }
        if k == 0 {
            assert(rfind_from(s@, p@, -1) is None);
            return None;
        }
        k -= 1;
    }
}

/// Index of the first character of `s` that is not white space
/// (`s.len()` when there is none): `trim_start(s) == s[k..]`.
pub fn trim_start_len(s: &[char]) -> (k: usize)
    ensures
        k <= s.len(),
        trim_start(s@) == s@.skip(k as int),
{
    let mut k: usize = 0;
    assert(s@.skip(0) =~= s@);
    while k < s.len() && is_whitespace(s[k])
        invariant
            k <= s.len(),
            trim_start(s@) == trim_start(s@.skip(k as int)),
        decreases s.len() - k,
    {
        assert(s@.skip(k as int).drop_first() =~= s@.skip(k + 1));
        k += 1;
    }
    k
}

/// Length of `s` without its trailing white space: `trim_end(s) == s[..k]`.
pub fn trim_end_len(s: &[char]) -> (k: usize)
    ensures
        k <= s.len(),
        trim_end(s@) == s@.take(k as int),
{
    let mut k: usize = s.len();
    assert(s@.take(s.len() as int) =~= s@);
    while k > 0 && is_whitespace(s[k - 1])
        invariant
            k <= s.len(),
            trim_end(s@) == trim_end(s@.take(k as int)),
        decreases k,
    {
        assert(s@.take(k as int).drop_last() =~= s@.take(k - 1));
        k -= 1;
    }
    k
}

/// Number of leading `c` characters: `trim_start_char(s, c) == s[k..]`.
pub fn trim_start_char_len(s: &[char], c: char) -> (k: usize)
    ensures
        k <= s.len(),
        trim_start_char(s@, c) == s@.skip(k as int),
{
    let mut k: usize = 0;
    assert(s@.skip(0) =~= s@);
    while k < s.len() && s[k] == c
        invariant
            k <= s.len(),
            trim_start_char(s@, c) == trim_start_char(s@.skip(k as int), c),
        decreases s.len() - k,
    {
        assert(s@.skip(k as int).drop_first() =~= s@.skip(k + 1));
        k += 1;
    }
    k
}

/// Length without trailing `c` characters: `trim_end_char(s, c) == s[..k]`.
pub fn trim_end_char_len(s: &[char], c: char) -> (k: usize)
    ensures
        k <= s.len(),
        trim_end_char(s@, c) == s@.take(k as int),
{
    let mut k: usize = s.len();
    assert(s@.take(s.len() as int) =~= s@);
    while k > 0 && s[k - 1] == c
        invariant
            k <= s.len(),
            trim_end_char(s@, c) == trim_end_char(s@.take(k as int), c),
        decreases k,
    {
        assert(s@.take(k as int).drop_last() =~= s@.take(k - 1));
        k -= 1;
    }
    k
}

/// `str::trim_start`.
pub fn trim_start_vec(s: &[char]) -> (res: Vec<char>)
    ensures
        res@ == trim_start(s@),
{
    let k = trim_start_len(s);
    slice_vec(s, k, s.len())
}

/// `str::trim_end`.
pub fn trim_end_vec(s: &[char]) -> (res: Vec<char>)
    ensures
        res@ == trim_end(s@),
{
    let k = trim_end_len(s);
    slice_vec(s, 0, k)
}

/// `str::trim`.
pub fn trim_vec(s: &[char]) -> (res: Vec<char>)
    ensures
        res@ == trim(s@),
{
    let t = trim_start_vec(s);
    trim_end_vec(t.as_slice())
}

/// Number of leading characters of `s` equal to `c`.
pub fn run_len_exec(s: &[char], c: char) -> (n: usize)
    ensures
        n == run_len(s@, c),
        n <= s.len(),
{
    let mut k: usize = 0;
    assert(s@.skip(0) =~= s@);
    while k < s.len() && s[k] == c
        invariant
            k <= s.len(),
            run_len(s@, c) == k + run_len(s@.skip(k as int), c),
        decreases s.len() - k,
    {
        assert(s@.skip(k as int).drop_first() =~= s@.skip(k + 1));
        k += 1;
    }
    k
}

/// `str::replace` with a single-character pattern.
pub fn replace_char_exec(s: &[char], c: char, r: &[char]) -> (res: Vec<char>)
    ensures
        res@ == replace_char(s@, c, r@),
{
    let mut out: Vec<char> = Vec::new();
    let mut i: usize = 0;
    while i < s.len()
        invariant
            i <= s.len(),
            out@ == replace_char(s@.take(i as int), c, r@),
        decreases s.len() - i,
    {
        proof {
            assert(s@.take(i + 1) =~= s@.take(i as int) + seq![s@[i as int]]);
            lemma_replace_char_add(s@.take(i as int), seq![s@[i as int]], c, r@);
            assert(seq![s@[i as int]].drop_first() =~= Seq::<char>::empty());
            assert(replace_char(Seq::<char>::empty(), c, r@) == Seq::<char>::empty());
            let one = replace_char(seq![s@[i as int]], c, r@);
            assert(one =~= (if s@[i as int] == c { r@ } else { seq![s@[i as int]] }));
        }
        if s[i] == c {
            push_all(&mut out, r);
        } else {
            out.push(s[i]);
        }
        i += 1;
    }
    assert(s@.take(s.len() as int) =~= s@);
    out
}

/// `s[p..]` with every occurrence of `pat` replaced by `rep`, left to right
/// and without overlap (`str::replace`); `pat` is not empty.
pub open spec fn replace_from(s: Seq<char>, pat: Seq<char>, rep: Seq<char>, p: int) -> Seq<char>
    decreases s.len() - p via replace_from_decreases
{
    if pat.len() == 0 {
        s.subrange(p, s.len() as int)
    } else {
        match find_from(s, pat, p) {
            None => s.subrange(p, s.len() as int),
            Some(k) => s.subrange(p, k) + rep + replace_from(s, pat, rep, k + pat.len()),
        }
    }
}

#[via_fn]
proof fn replace_from_decreases(s: Seq<char>, pat: Seq<char>, rep: Seq<char>, p: int) {
    if pat.len() > 0 {
        if let Some(k) = find_from(s, pat, p) {
            lemma_find_from_some(s, pat, p);
        }
    }
}

/// The chunks joined, first to last.
pub open spec fn flatten(cs: Seq<Seq<char>>) -> Seq<char>
    decreases cs.len(),
{
    if cs.len() == 0 {
        Seq::empty()
    } else {
        cs[0] + flatten(cs.drop_first())
    }
}

/// A chunk that `str::replace` with `pat` sees whole: not empty, the
/// pattern's first character only at its start, and either the pattern
/// itself or differing from it within both.
pub open spec fn chunk_fits(c: Seq<char>, pat: Seq<char>) -> bool {
    &&& c.len() > 0
    &&& forall|t: int| 1 <= t < c.len() ==> c[t] != pat[0]
    &&& (c == pat || exists|j: int| 0 <= j < c.len() && j < pat.len() && c[j] != pat[j])
}

/// The chunks with every chunk that is `pat` replaced by `rep`.
pub open spec fn replaced_chunks(cs: Seq<Seq<char>>, pat: Seq<char>, rep: Seq<char>) -> Seq<Seq<char>> {
    Seq::new(cs.len(), |i: int| if cs[i] == pat { rep } else { cs[i] })
}

proof fn lemma_replace_skip(s: Seq<char>, pat: Seq<char>, rep: Seq<char>, p: int, q: int)
    requires
        pat.len() > 0,
        0 <= p <= q <= s.len(),
        forall|j: int| p <= j < q ==> !occurs_at(s, pat, j),
    ensures
        replace_from(s, pat, rep, p) == s.subrange(p, q) + replace_from(s, pat, rep, q),
    decreases q - p,
{
    if p < q {
        lemma_replace_skip(s, pat, rep, p + 1, q);
        assert(!occurs_at(s, pat, p));
        assert(find_from(s, pat, p) == find_from(s, pat, p + 1));
        let h = s.subrange(p, p + 1);
        match find_from(s, pat, p + 1) {
            None => {
                assert(replace_from(s, pat, rep, p) == s.subrange(p, s.len() as int));
                assert(replace_from(s, pat, rep, p + 1) == s.subrange(p + 1, s.len() as int));
                assert(s.subrange(p, s.len() as int) =~= h + s.subrange(p + 1, s.len() as int));
            },
            Some(k) => {
                lemma_find_from_some(s, pat, p + 1);
                let tail = replace_from(s, pat, rep, k + pat.len());
                assert(replace_from(s, pat, rep, p) == s.subrange(p, k) + rep + tail);
                assert(replace_from(s, pat, rep, p + 1) == s.subrange(p + 1, k) + rep + tail);
                assert(s.subrange(p, k) =~= h + s.subrange(p + 1, k));
                assert(s.subrange(p, k) + rep + tail =~= h + (s.subrange(p + 1, k) + rep + tail));
            },
        }
        assert(replace_from(s, pat, rep, p) == h + replace_from(s, pat, rep, p + 1));
        assert(s.subrange(p, q) =~= h + s.subrange(p + 1, q));
        assert(h + (s.subrange(p + 1, q) + replace_from(s, pat, rep, q)) =~= s.subrange(p, q) + replace_from(s, pat, rep, q));
    } else {
        assert(s.subrange(p, q) =~= Seq::<char>::empty());
    }
}

/// `str::replace` on chunks that each fit the pattern replaces exactly the
/// chunks that are the pattern.
pub proof fn lemma_replace_chunks(a: Seq<char>, cs: Seq<Seq<char>>, pat: Seq<char>, rep: Seq<char>)
    requires
        pat.len() > 0,
        forall|i: int| 0 <= i < cs.len() ==> chunk_fits(#[trigger] cs[i], pat),
    ensures
        replace_from(a + flatten(cs), pat, rep, a.len() as int) == flatten(replaced_chunks(cs, pat, rep)),
    decreases cs.len(),
{
    let s = a + flatten(cs);
    if cs.len() == 0 {
        assert(s =~= a);
        assert(s.subrange(a.len() as int, s.len() as int) =~= Seq::<char>::empty());
        assert(replaced_chunks(cs, pat, rep) =~= Seq::<Seq<char>>::empty());
    } else {
        let c = cs[0];
        let rest = cs.drop_first();
        let a2 = a + c;
        assert(s =~= a2 + flatten(rest));
        assert forall|i: int| 0 <= i < rest.len() implies chunk_fits(#[trigger] rest[i], pat) by {
            assert(rest[i] == cs[i + 1]);
        }
        lemma_replace_chunks(a2, rest, pat, rep);
        let rc = replaced_chunks(cs, pat, rep);
        assert(rc.drop_first() =~= replaced_chunks(rest, pat, rep));
        assert(chunk_fits(c, pat));
        if c == pat {
            assert(s.subrange(a.len() as int, a.len() as int + pat.len()) =~= c);
            assert(occurs_at(s, pat, a.len() as int));
            assert(s.subrange(a.len() as int, a.len() as int) =~= Seq::<char>::empty());
            assert(a.len() + pat.len() == a2.len());
        } else {
            let m = choose|j: int| 0 <= j < c.len() && j < pat.len() && c[j] != pat[j];
            assert forall|j: int| a.len() <= j < a2.len() implies !occurs_at(s, pat, j) by {
                if occurs_at(s, pat, j) {
                    if j == a.len() {
                        assert(s.subrange(j, j + pat.len())[m] == pat[m]);
                        assert(s[j + m] == c[m]);
                    } else {
                        assert(s.subrange(j, j + pat.len())[0] == pat[0]);
                        assert(s[j] == c[j - a.len()]);
                    }
                }
            }
            lemma_replace_skip(s, pat, rep, a.len() as int, a2.len() as int);
            assert(s.subrange(a.len() as int, a2.len() as int) =~= c);
        }
    }
}

/// When the first `w` characters are white space and the next is not (or
/// there is none), trimming the start drops exactly those `w`.
pub proof fn lemma_trim_start_at(s: Seq<char>, w: int)
    requires
        0 <= w <= s.len(),
        forall|i: int| 0 <= i < w ==> is_ws(#[trigger] s[i]),
        w < s.len() ==> !is_ws(s[w]),
    ensures
        trim_start(s) == s.skip(w),
    decreases w,
{
    if w == 0 {
        assert(s.skip(0) =~= s);
    } else {
        let d = s.drop_first();
        assert forall|i: int| 0 <= i < w - 1 implies is_ws(#[trigger] d[i]) by {
            assert(d[i] == s[i + 1]);
        }
        lemma_trim_start_at(d, w - 1);
        assert(d.skip(w - 1) =~= s.skip(w));
    }
}

} // verus!

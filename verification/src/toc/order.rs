//! The order in which uncovered files become generated chapters: the walk's
//! own order, or at each directory level by name, or by modification time
//! (oldest first, a directory by its own time).
use vstd::prelude::*;
use crate::components::{self, components_eq, components_exec, text_lt_exec, view_all};
use crate::text::{self, chars_of, slice_vec, string_of};
use super::{is_md_file, is_summary_file, is_uncovered, texts};

verus! {

/// How the generated chapters of a directory are ordered (`toc_sort`).
#[derive(Clone, Copy, Debug)]
pub enum TocSort {
    /// The order of the directory walk (`"none"`).
    Filesystem,
    /// By name (`"alpha"`).
    Alpha,
    /// By modification time, oldest first, names breaking ties (`"modified"`).
    Modified,
}

/// One level of a sort key: the rank it sorts by first, then the component's name.
pub open spec fn item_lt(a: (int, Seq<char>), b: (int, Seq<char>)) -> bool {
    a.0 < b.0 || (a.0 == b.0 && components::text_lt(a.1, b.1))
}

/// Sort keys compared level by level: the first differing level decides, a prefix first.
pub open spec fn keys_lt(a: Seq<(int, Seq<char>)>, b: Seq<(int, Seq<char>)>) -> bool
    decreases a.len(),
{
    if a.len() == 0 {
        b.len() > 0
    } else if b.len() == 0 {
        false
    } else if a[0] != b[0] {
        item_lt(a[0], b[0])
    } else {
        keys_lt(a.drop_first(), b.drop_first())
    }
}

/// The modification time listed for the directory `d` (as components): the
/// first entry whose path is `d`, 0 when none is.
pub open spec fn dir_mtime(dirs: Seq<(Seq<char>, int)>, d: Seq<Seq<char>>) -> int
    decreases dirs.len(),
{
    if dirs.len() == 0 {
        0
    } else if components::components(dirs[0].0) == d {
        dirs[0].1
    } else {
        dir_mtime(dirs.drop_first(), d)
    }
}

/// A file's sort key: one level per path component, its name with the rank
/// it sorts by. The rank is 0 unless ordering by time; then it is the file's
/// own time for its last component and each directory's own time for the others.
pub open spec fn sort_key(f: Seq<char>, by_time: bool, mtime: int, dirs: Seq<(Seq<char>, int)>) -> Seq<(int, Seq<char>)> {
    let cs = components::components(f);
    Seq::new(
        cs.len(),
        |i: int|
            (
                if !by_time {
                    0
                } else if i == cs.len() - 1 {
                    mtime
                } else {
                    dir_mtime(dirs, cs.take(i + 1))
                },
                cs[i],
            ),
    )
}

/// `x` put into `sorted` before the first entry whose key comes after its key.
pub open spec fn insert_keyed(
    sorted: Seq<(Seq<char>, Seq<(int, Seq<char>)>)>,
    x: (Seq<char>, Seq<(int, Seq<char>)>),
) -> Seq<(Seq<char>, Seq<(int, Seq<char>)>)>
    decreases sorted.len(),
{
    if sorted.len() == 0 {
        seq![x]
    } else if keys_lt(x.1, sorted[0].1) {
        seq![x] + sorted
    } else {
        seq![sorted[0]] + insert_keyed(sorted.drop_first(), x)
    }
}

/// The time given for walked file `k` (0 when none is given).
pub open spec fn mtime_at(mtimes: Seq<u64>, k: int) -> int {
    if 0 <= k < mtimes.len() {
        mtimes[k] as int
    } else {
        0
    }
}

/// The uncovered files among the first `n` walked ones with their sort
/// keys: in walk order for `Filesystem`, else ordered by key (insertion,
/// stable for equal keys).
pub open spec fn ordered_uncovered(
    walked: Seq<Seq<char>>,
    covered: Seq<Seq<char>>,
    sort: TocSort,
    mtimes: Seq<u64>,
    dirs: Seq<(Seq<char>, int)>,
    n: int,
) -> Seq<(Seq<char>, Seq<(int, Seq<char>)>)>
    decreases n,
{
    if n <= 0 {
        Seq::empty()
    } else {
        let prev = ordered_uncovered(walked, covered, sort, mtimes, dirs, n - 1);
        if is_uncovered(walked[n - 1], covered) {
            let e = (walked[n - 1], sort_key(walked[n - 1], sort is Modified, mtime_at(mtimes, n - 1), dirs));
            if sort is Filesystem {
                prev.push(e)
            } else {
                insert_keyed(prev, e)
            }
        } else {
            prev
        }
    }
}

pub open spec fn dirs_view(v: Seq<(String, u64)>) -> Seq<(Seq<char>, int)> {
    v.map_values(|e: (String, u64)| (e.0@, e.1 as int))
}

/// The files that become generated chapters, in the order the sort mode gives.
pub open spec fn spec_select_uncovered(
    walked: Seq<Seq<char>>,
    covered: Seq<Seq<char>>,
    sort: TocSort,
    mtimes: Seq<u64>,
    dirs: Seq<(Seq<char>, int)>,
) -> Seq<Seq<char>> {
    ordered_uncovered(walked, covered, sort, mtimes, dirs, walked.len() as int).map_values(
        |e: (Seq<char>, Seq<(int, Seq<char>)>)| e.0,
    )
}

pub open spec fn key_view(k: Seq<(u64, Vec<char>)>) -> Seq<(int, Seq<char>)> {
    k.map_values(|x: (u64, Vec<char>)| (x.0 as int, x.1@))
}

pub open spec fn keyed_view(v: Seq<(String, Vec<(u64, Vec<char>)>)>) -> Seq<(Seq<char>, Seq<(int, Seq<char>)>)> {
    v.map_values(|e: (String, Vec<(u64, Vec<char>)>)| (e.0@, key_view(e.1@)))
}

fn dir_mtime_exec(dirs_cs: &Vec<(Vec<Vec<char>>, u64)>, d: &Vec<Vec<char>>, Ghost(dirs): Ghost<Seq<(Seq<char>, int)>>) -> (t: u64)
    requires
        dirs_cs@.len() == dirs.len(),
        forall|i: int| 0 <= i < dirs.len() ==> #[trigger] view_all(dirs_cs@[i].0@) == components::components(dirs[i].0)
            && dirs_cs@[i].1 as int == dirs[i].1,
    ensures
        t as int == dir_mtime(dirs, view_all(d@)),
{
    let mut k: usize = 0;
    assert(dirs.skip(0) =~= dirs);
    while k < dirs_cs.len()
        invariant
            k <= dirs_cs@.len(),
            dirs_cs@.len() == dirs.len(),
            forall|i: int| 0 <= i < dirs.len() ==> #[trigger] view_all(dirs_cs@[i].0@) == components::components(dirs[i].0)
                && dirs_cs@[i].1 as int == dirs[i].1,
            dir_mtime(dirs, view_all(d@)) == dir_mtime(dirs.skip(k as int), view_all(d@)),
        decreases dirs_cs@.len() - k,
    {
        assert(dirs.skip(k as int)[0] == dirs[k as int]);
        if components_eq(&dirs_cs[k].0, d) {
            return dirs_cs[k].1;
        }
        assert(dirs.skip(k as int).drop_first() =~= dirs.skip(k + 1));
        k += 1;
    }
    assert(dirs.skip(k as int).len() == 0);
    0
}

fn sort_key_exec(
    fc: &Vec<Vec<char>>,
    by_time: bool,
    mtime: u64,
    dirs_cs: &Vec<(Vec<Vec<char>>, u64)>,
    Ghost(f): Ghost<Seq<char>>,
    Ghost(dirs): Ghost<Seq<(Seq<char>, int)>>,
) -> (key: Vec<(u64, Vec<char>)>)
    requires
        view_all(fc@) == components::components(f),
        dirs_cs@.len() == dirs.len(),
        forall|i: int| 0 <= i < dirs.len() ==> #[trigger] view_all(dirs_cs@[i].0@) == components::components(dirs[i].0)
            && dirs_cs@[i].1 as int == dirs[i].1,
    ensures
        key_view(key@) == sort_key(f, by_time, mtime as int, dirs),
{
    let ghost cs = components::components(f);
    let ghost want = sort_key(f, by_time, mtime as int, dirs);
    let mut key: Vec<(u64, Vec<char>)> = Vec::new();
    let mut prefix: Vec<Vec<char>> = Vec::new();
    let mut i: usize = 0;
    while i < fc.len()
        invariant
            i <= fc@.len(),
            view_all(fc@) == cs,
            cs == components::components(f),
            want == sort_key(f, by_time, mtime as int, dirs),
            view_all(prefix@) == cs.take(i as int),
            key_view(key@) == want.take(i as int),
            dirs_cs@.len() == dirs.len(),
            forall|j: int| 0 <= j < dirs.len() ==> #[trigger] view_all(dirs_cs@[j].0@) == components::components(dirs[j].0)
                && dirs_cs@[j].1 as int == dirs[j].1,
        decreases fc@.len() - i,
    {
        let c = slice_vec(fc[i].as_slice(), 0, fc[i].len());
        assert(c@ =~= cs[i as int]);
        let ghost pb = view_all(prefix@);
        let ghost cv = c@;
        prefix.push(c);
        assert(view_all(prefix@) =~= pb.push(cv));
        assert(view_all(prefix@) =~= cs.take(i + 1));
        let rank: u64 = if !by_time {
            0
        } else if i + 1 == fc.len() {
            mtime
        } else {
            dir_mtime_exec(dirs_cs, &prefix, Ghost(dirs))
        };
        let name = slice_vec(fc[i].as_slice(), 0, fc[i].len());
        let ghost kb = key_view(key@);
        key.push((rank, name));
        assert(key_view(key@) =~= kb.push((rank as int, cs[i as int])));
        assert(want[i as int] == (rank as int, cs[i as int]));
        assert(key_view(key@) =~= want.take(i + 1));
        i += 1;
    }
    assert(want.take(fc@.len() as int) =~= want);
    key
}

fn keys_lt_exec(a: &Vec<(u64, Vec<char>)>, b: &Vec<(u64, Vec<char>)>) -> (r: bool)
    ensures
        r == keys_lt(key_view(a@), key_view(b@)),
{
    let ghost ka = key_view(a@);
    let ghost kb = key_view(b@);
    let mut j: usize = 0;
    assert(ka.skip(0) =~= ka && kb.skip(0) =~= kb);
    while j < a.len() && j < b.len()
        invariant
            j <= a@.len(),
            j <= b@.len(),
            ka == key_view(a@),
            kb == key_view(b@),
            keys_lt(ka, kb) == keys_lt(ka.skip(j as int), kb.skip(j as int)),
        decreases a@.len() - j,
    {
        assert(ka.skip(j as int)[0] == ka[j as int]);
        assert(kb.skip(j as int)[0] == kb[j as int]);
        let same = a[j].0 == b[j].0 && text::same_chars(a[j].1.as_slice(), b[j].1.as_slice());
        if !same {
            let lt = a[j].0 < b[j].0 || (a[j].0 == b[j].0 && text_lt_exec(a[j].1.as_slice(), b[j].1.as_slice()));
            return lt;
        }
        assert(ka.skip(j as int).drop_first() =~= ka.skip(j + 1));
        assert(kb.skip(j as int).drop_first() =~= kb.skip(j + 1));
        j += 1;
    }
    j < b.len()
}

fn insert_keyed_exec(sorted: &mut Vec<(String, Vec<(u64, Vec<char>)>)>, x: (String, Vec<(u64, Vec<char>)>))
    ensures
        keyed_view(final(sorted)@) == insert_keyed(keyed_view(old(sorted)@), (x.0@, key_view(x.1@))),
{
    let ghost o = keyed_view(sorted@);
    let ghost xv = (x.0@, key_view(x.1@));
    let mut k: usize = 0;
    assert(o.skip(0) =~= o);
    while k < sorted.len()
        invariant
            k <= sorted@.len(),
            o == keyed_view(sorted@),
            o == keyed_view(old(sorted)@),
            xv == (x.0@, key_view(x.1@)),
            insert_keyed(o, xv) == o.take(k as int) + insert_keyed(o.skip(k as int), xv),
        decreases sorted@.len() - k,
    {
        assert(o.skip(k as int)[0] == o[k as int]);
        if keys_lt_exec(&x.1, &sorted[k].1) {
            sorted.insert(k, x);
            assert(keyed_view(sorted@) =~= o.take(k as int) + (seq![xv] + o.skip(k as int)));
            return;
        }
        assert(o.skip(k as int).drop_first() =~= o.skip(k + 1));
        assert(o.take(k + 1) =~= o.take(k as int) + seq![o[k as int]]);
        k += 1;
    }
    assert(o.take(k as int) =~= o);
    assert(o.skip(k as int) =~= Seq::<(Seq<char>, Seq<(int, Seq<char>)>)>::empty());
    sorted.push(x);
    assert(keyed_view(sorted@) =~= o + seq![xv]);
}

/// The walked files (relative to the source directory) that become
/// generated chapters: `.md` files other than `SUMMARY.md` that are not
/// among the book's chapters (`covered`), in the order `sort` gives.
/// `mtimes[k]` is the modification time of `walked[k]`, `dir_mtimes` that of
/// each directory, both used for `TocSort::Modified` only.
pub fn select_uncovered(
    walked: &Vec<String>,
    covered: &Vec<String>,
    sort: TocSort,
    mtimes: &Vec<u64>,
    dir_mtimes: &Vec<(String, u64)>,
) -> (res: Vec<String>)
    ensures
        texts(res@) == spec_select_uncovered(texts(walked@), texts(covered@), sort, mtimes@, dirs_view(dir_mtimes@)),
{
    let ghost w = texts(walked@);
    let ghost cov = texts(covered@);
    let ghost dirs = dirs_view(dir_mtimes@);
    let by_time = match sort {
        TocSort::Modified => true,
        _ => false,
    };
    let keep_walk = match sort {
        TocSort::Filesystem => true,
        _ => false,
    };
    let mut dirs_cs: Vec<(Vec<Vec<char>>, u64)> = Vec::new();
    let mut d: usize = 0;
    while d < dir_mtimes.len()
        invariant
            d <= dir_mtimes@.len(),
            dirs == dirs_view(dir_mtimes@),
            dirs_cs@.len() == d,
            forall|i: int| 0 <= i < d ==> #[trigger] view_all(dirs_cs@[i].0@) == components::components(dirs[i].0)
                && dirs_cs@[i].1 as int == dirs[i].1,
        decreases dir_mtimes@.len() - d,
    {
        let v = chars_of(dir_mtimes[d].0.as_str());
        dirs_cs.push((components_exec(v.as_slice()), dir_mtimes[d].1));
        d += 1;
    }
    let mut cc: Vec<Vec<Vec<char>>> = Vec::new();
    let mut c: usize = 0;
    while c < covered.len()
        invariant
            c <= covered@.len(),
            cov == texts(covered@),
            cc@.len() == c,
            forall|k: int| 0 <= k < c ==> #[trigger] view_all(cc@[k]@) == components::components(cov[k]),
        decreases covered@.len() - c,
    {
        let v = chars_of(covered[c].as_str());
        cc.push(components_exec(v.as_slice()));
        c += 1;
    }
    let mut out: Vec<(String, Vec<(u64, Vec<char>)>)> = Vec::new();
    let mut i: usize = 0;
    while i < walked.len()
        invariant
            i <= walked@.len(),
            w == texts(walked@),
            cov == texts(covered@),
            dirs == dirs_view(dir_mtimes@),
            by_time == (sort is Modified),
            keep_walk == (sort is Filesystem),
            cc@.len() == cov.len(),
            forall|k: int| 0 <= k < cov.len() ==> #[trigger] view_all(cc@[k]@) == components::components(cov[k]),
            dirs_cs@.len() == dirs.len(),
            forall|j: int| 0 <= j < dirs.len() ==> #[trigger] view_all(dirs_cs@[j].0@) == components::components(dirs[j].0)
                && dirs_cs@[j].1 as int == dirs[j].1,
            keyed_view(out@) == ordered_uncovered(w, cov, sort, mtimes@, dirs, i as int),
        decreases walked@.len() - i,
    {
        let rv = chars_of(walked[i].as_str());
        let r = rv.as_slice();
        assert(r@ == w[i as int]);
        let rc = components_exec(r);
        let mut keep = is_md_file(r) && !is_summary_file(r);
        if keep {
            let mut k: usize = 0;
            let mut seen = false;
            while k < cc.len() && !seen
                invariant
                    k <= cc@.len(),
                    cc@.len() == cov.len(),
                    forall|m: int| 0 <= m < cov.len() ==> #[trigger] view_all(cc@[m]@) == components::components(cov[m]),
                    view_all(rc@) == components::components(r@),
                    seen ==> k < cc@.len() && components::components(cov[k as int]) == components::components(r@),
                    forall|m: int| 0 <= m < k ==> components::components(#[trigger] cov[m]) != components::components(r@),
                decreases cc@.len() - k + (if seen { 0int } else { 1int }),
            {
                if components_eq(&cc[k], &rc) {
                    seen = true;
                } else {
                    k += 1;
                }
            }
            keep = !seen;
            assert(keep == is_uncovered(r@, cov));
        }
        assert(keep == is_uncovered(w[i as int], cov));
        if keep {
            let mt: u64 = if i < mtimes.len() { mtimes[i] } else { 0 };
            let key = sort_key_exec(&rc, by_time, mt, &dirs_cs, Ghost(r@), Ghost(dirs));
            let ghost ov = keyed_view(out@);
            let e = (string_of(r), key);
            assert((e.0@, key_view(e.1@)) == (w[i as int], sort_key(w[i as int], sort is Modified, mtime_at(mtimes@, i as int), dirs)));
            if keep_walk {
                out.push(e);
                assert(keyed_view(out@) =~= ov.push((w[i as int], sort_key(w[i as int], sort is Modified, mtime_at(mtimes@, i as int), dirs))));
            } else {
                insert_keyed_exec(&mut out, e);
            }
        }
        i += 1;
    }
    let mut res: Vec<String> = Vec::new();
    let mut j: usize = 0;
    let ghost all = keyed_view(out@);
    while j < out.len()
        invariant
            j <= out@.len(),
            all == keyed_view(out@),
            texts(res@) == all.map_values(|e: (Seq<char>, Seq<(int, Seq<char>)>)| e.0).take(j as int),
        decreases out@.len() - j,
    {
        let ghost rb = texts(res@);
        let s = string_of(chars_of(out[j].0.as_str()).as_slice());
        assert(s@ == all[j as int].0);
        res.push(s);
        assert(texts(res@) =~= rb.push(all[j as int].0));
        assert(texts(res@) =~= all.map_values(|e: (Seq<char>, Seq<(int, Seq<char>)>)| e.0).take(j + 1));
        j += 1;
    }
    assert(all.map_values(|e: (Seq<char>, Seq<(int, Seq<char>)>)| e.0).take(out@.len() as int) =~= all.map_values(
        |e: (Seq<char>, Seq<(int, Seq<char>)>)| e.0,
    ));
    res
}

/// `item_lt` is a strict total order.
proof fn lemma_item_lt_order(a: (int, Seq<char>), b: (int, Seq<char>), c: (int, Seq<char>))
    ensures
        !item_lt(a, a),
        item_lt(a, b) && item_lt(b, c) ==> item_lt(a, c),
        a != b ==> item_lt(a, b) || item_lt(b, a),
        item_lt(a, b) ==> !item_lt(b, a),
{
    components::lemma_text_lt_order(a.1, b.1, c.1);
    components::lemma_text_lt_order(b.1, a.1, c.1);
}

proof fn lemma_keys_lt_irrefl(a: Seq<(int, Seq<char>)>)
    ensures
        !keys_lt(a, a),
    decreases a.len(),
{
    if a.len() > 0 {
        lemma_keys_lt_irrefl(a.drop_first());
    }
}

proof fn lemma_keys_lt_trans(a: Seq<(int, Seq<char>)>, b: Seq<(int, Seq<char>)>, c: Seq<(int, Seq<char>)>)
    requires
        keys_lt(a, b),
        keys_lt(b, c),
    ensures
        keys_lt(a, c),
    decreases a.len(),
{
    if a.len() > 0 && b.len() > 0 && c.len() > 0 {
        lemma_item_lt_order(a[0], b[0], c[0]);
        lemma_item_lt_order(a[0], b[0], a[0]);
        lemma_item_lt_order(b[0], c[0], b[0]);
        if a[0] == b[0] && b[0] == c[0] {
            lemma_keys_lt_trans(a.drop_first(), b.drop_first(), c.drop_first());
        }
    }
}

proof fn lemma_keys_lt_total(a: Seq<(int, Seq<char>)>, b: Seq<(int, Seq<char>)>)
    requires
        a != b,
    ensures
        keys_lt(a, b) || keys_lt(b, a),
    decreases a.len(),
{
    if a.len() == 0 {
        if b.len() == 0 {
            assert(a =~= b);
        }
    } else if b.len() > 0 {
        lemma_item_lt_order(a[0], b[0], a[0]);
        if a[0] == b[0] {
            if a.drop_first() == b.drop_first() {
                assert(a =~= seq![a[0]] + a.drop_first());
                assert(b =~= seq![b[0]] + b.drop_first());
            }
            lemma_keys_lt_total(a.drop_first(), b.drop_first());
        }
    }
}

/// Key order is a strict total order.
pub proof fn lemma_keys_lt_order(a: Seq<(int, Seq<char>)>, b: Seq<(int, Seq<char>)>, c: Seq<(int, Seq<char>)>)
    ensures
        !keys_lt(a, a),
        keys_lt(a, b) && keys_lt(b, c) ==> keys_lt(a, c),
        a != b ==> keys_lt(a, b) || keys_lt(b, a),
        keys_lt(a, b) ==> !keys_lt(b, a),
{
    lemma_keys_lt_irrefl(a);
    if keys_lt(a, b) && keys_lt(b, c) {
        lemma_keys_lt_trans(a, b, c);
    }
    if a != b {
        lemma_keys_lt_total(a, b);
    }
    if keys_lt(a, b) && keys_lt(b, a) {
        lemma_keys_lt_trans(a, b, a);
    }
}

/// Files that differ as paths have different sort keys: the key holds every component.
proof fn lemma_sort_key_distinct(f: Seq<char>, g: Seq<char>, bt: bool, mf: int, mg: int, dirs: Seq<(Seq<char>, int)>)
    requires
        components::components(f) != components::components(g),
    ensures
        sort_key(f, bt, mf, dirs) != sort_key(g, bt, mg, dirs),
{
    let cf = components::components(f);
    let cg = components::components(g);
    let kf = sort_key(f, bt, mf, dirs);
    let kg = sort_key(g, bt, mg, dirs);
    if kf == kg {
        assert(kf.len() == cf.len() && kg.len() == cg.len());
        assert(cf.len() == cg.len());
        assert forall|i: int| 0 <= i < cf.len() implies cf[i] == cg[i] by {
            assert(kf[i].1 == cf[i]);
            assert(kg[i].1 == cg[i]);
        }
        assert(cf =~= cg);
    }
}

/// The entries come in strictly increasing key order.
pub open spec fn strictly_keyed(s: Seq<(Seq<char>, Seq<(int, Seq<char>)>)>) -> bool {
    forall|a: int, b: int| 0 <= a < b < s.len() ==> keys_lt(#[trigger] s[a].1, #[trigger] s[b].1)
}

proof fn lemma_insert_keyed(s: Seq<(Seq<char>, Seq<(int, Seq<char>)>)>, x: (Seq<char>, Seq<(int, Seq<char>)>))
    requires
        strictly_keyed(s),
        forall|i: int| 0 <= i < s.len() ==> (#[trigger] s[i]).1 != x.1,
    ensures
        strictly_keyed(insert_keyed(s, x)),
        forall|y: (Seq<char>, Seq<(int, Seq<char>)>)| #[trigger] insert_keyed(s, x).contains(y) <==> s.contains(y) || y == x,
    decreases s.len(),
{
    let r = insert_keyed(s, x);
    if s.len() == 0 {
        assert(r =~= seq![x]);
        assert forall|y: (Seq<char>, Seq<(int, Seq<char>)>)| #[trigger] r.contains(y) <==> s.contains(y) || y == x by {
            if y == x {
                assert(r[0] == x);
            }
        }
    } else if keys_lt(x.1, s[0].1) {
        assert(r == seq![x] + s);
        assert forall|a: int, b: int| 0 <= a < b < r.len() implies keys_lt(#[trigger] r[a].1, #[trigger] r[b].1) by {
            if a == 0 {
                assert(r[b] == s[b - 1]);
                if b - 1 > 0 {
                    lemma_keys_lt_order(x.1, s[0].1, s[b - 1].1);
                }
            } else {
                assert(r[a] == s[a - 1] && r[b] == s[b - 1]);
            }
        }
        assert forall|y: (Seq<char>, Seq<(int, Seq<char>)>)| #[trigger] r.contains(y) <==> s.contains(y) || y == x by {
            if r.contains(y) {
                let k = choose|k: int| 0 <= k < r.len() && r[k] == y;
                if k > 0 {
                    assert(s[k - 1] == y);
                }
            }
            if s.contains(y) {
                let k = choose|k: int| 0 <= k < s.len() && s[k] == y;
                assert(r[k + 1] == y);
            }
            if y == x {
                assert(r[0] == x);
            }
        }
    } else {
        let rest = s.drop_first();
        assert(strictly_keyed(rest)) by {
            assert forall|a: int, b: int| 0 <= a < b < rest.len() implies keys_lt(#[trigger] rest[a].1, #[trigger] rest[b].1) by {
                assert(rest[a] == s[a + 1] && rest[b] == s[b + 1]);
            }
        }
        assert forall|i: int| 0 <= i < rest.len() implies (#[trigger] rest[i]).1 != x.1 by {
            assert(rest[i] == s[i + 1]);
        }
        lemma_insert_keyed(rest, x);
        let ir = insert_keyed(rest, x);
        assert(r == seq![s[0]] + ir);
        lemma_keys_lt_order(x.1, s[0].1, x.1);
        assert(keys_lt(s[0].1, x.1));
        assert forall|a: int, b: int| 0 <= a < b < r.len() implies keys_lt(#[trigger] r[a].1, #[trigger] r[b].1) by {
            if a == 0 {
                assert(r[b] == ir[b - 1]);
                assert(ir.contains(ir[b - 1]));
                if rest.contains(ir[b - 1]) {
                    let k = choose|k: int| 0 <= k < rest.len() && rest[k] == ir[b - 1];
                    assert(s[k + 1] == ir[b - 1]);
                }
            } else {
                assert(r[a] == ir[a - 1] && r[b] == ir[b - 1]);
            }
        }
        assert forall|y: (Seq<char>, Seq<(int, Seq<char>)>)| #[trigger] r.contains(y) <==> s.contains(y) || y == x by {
            if r.contains(y) {
                let k = choose|k: int| 0 <= k < r.len() && r[k] == y;
                if k > 0 {
                    assert(ir[k - 1] == y);
                    assert(ir.contains(y));
                    if rest.contains(y) {
                        let m = choose|m: int| 0 <= m < rest.len() && rest[m] == y;
                        assert(s[m + 1] == y);
                    }
                } else {
                    assert(s[0] == y);
                }
            }
            if s.contains(y) {
                let k = choose|k: int| 0 <= k < s.len() && s[k] == y;
                if k == 0 {
                    assert(r[0] == y);
                } else {
                    assert(rest[k - 1] == y);
                    assert(rest.contains(y));
                    assert(ir.contains(y));
                    let m = choose|m: int| 0 <= m < ir.len() && ir[m] == y;
                    assert(r[m + 1] == y);
                }
            }
            if y == x {
                assert(ir.contains(x));
                let m = choose|m: int| 0 <= m < ir.len() && ir[m] == x;
                assert(r[m + 1] == x);
            }
        }
    }
}

/// The entry walked file `k` gets: the file and its sort key.
pub open spec fn walked_entry(
    walked: Seq<Seq<char>>,
    sort: TocSort,
    mtimes: Seq<u64>,
    dirs: Seq<(Seq<char>, int)>,
    k: int,
) -> (Seq<char>, Seq<(int, Seq<char>)>) {
    (walked[k], sort_key(walked[k], sort is Modified, mtime_at(mtimes, k), dirs))
}

/// Sorted by name or by time, the generated chapters come in strictly
/// increasing key order, so each once, and they are exactly the uncovered
/// walked files (the walk gives each path once).
pub proof fn law_generated_order(
    walked: Seq<Seq<char>>,
    covered: Seq<Seq<char>>,
    sort: TocSort,
    mtimes: Seq<u64>,
    dirs: Seq<(Seq<char>, int)>,
    n: int,
)
    requires
        0 <= n <= walked.len(),
        !(sort is Filesystem),
        forall|a: int, b: int| 0 <= a < b < walked.len() ==> components::components(#[trigger] walked[a]) != components::components(#[trigger] walked[b]),
    ensures
        strictly_keyed(ordered_uncovered(walked, covered, sort, mtimes, dirs, n)),
        forall|e: (Seq<char>, Seq<(int, Seq<char>)>)| #[trigger] ordered_uncovered(walked, covered, sort, mtimes, dirs, n).contains(e)
            <==> exists|k: int| 0 <= k < n && is_uncovered(walked[k], covered) && e == #[trigger] walked_entry(walked, sort, mtimes, dirs, k),
    decreases n,
{
    let o = ordered_uncovered(walked, covered, sort, mtimes, dirs, n);
    if n <= 0 {
        assert(o =~= Seq::<(Seq<char>, Seq<(int, Seq<char>)>)>::empty());
    } else {
        law_generated_order(walked, covered, sort, mtimes, dirs, n - 1);
        let prev = ordered_uncovered(walked, covered, sort, mtimes, dirs, n - 1);
        let x = walked_entry(walked, sort, mtimes, dirs, n - 1);
        if is_uncovered(walked[n - 1], covered) {
            assert forall|i: int| 0 <= i < prev.len() implies (#[trigger] prev[i]).1 != x.1 by {
                assert(prev.contains(prev[i]));
                let k = choose|k: int| 0 <= k < n - 1 && is_uncovered(walked[k], covered) && prev[i] == #[trigger] walked_entry(walked, sort, mtimes, dirs, k);
                lemma_sort_key_distinct(walked[k], walked[n - 1], sort is Modified, mtime_at(mtimes, k), mtime_at(mtimes, n - 1), dirs);
            }
            lemma_insert_keyed(prev, x);
        }
        assert forall|e: (Seq<char>, Seq<(int, Seq<char>)>)| #[trigger] o.contains(e)
            <==> exists|k: int| 0 <= k < n && is_uncovered(walked[k], covered) && e == #[trigger] walked_entry(walked, sort, mtimes, dirs, k) by {
            if exists|k: int| 0 <= k < n && is_uncovered(walked[k], covered) && e == #[trigger] walked_entry(walked, sort, mtimes, dirs, k) {
                let k = choose|k: int| 0 <= k < n && is_uncovered(walked[k], covered) && e == #[trigger] walked_entry(walked, sort, mtimes, dirs, k);
                if k < n - 1 {
                    assert(prev.contains(e));
                }
            }
            if prev.contains(e) {
                let k = choose|k: int| 0 <= k < n - 1 && is_uncovered(walked[k], covered) && e == #[trigger] walked_entry(walked, sort, mtimes, dirs, k);
                assert(0 <= k < n);
            }
        }
    }
}

} // verus!

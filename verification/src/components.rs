//! Paths as `std::path::Path` reads them on Unix: a sequence of components,
//! each held as its text (`/` for the root, `.` for a leading current
//! directory, `..` for a parent directory, anything else a name). Two paths
//! are equal when their components are, and ordered by their components,
//! component by component, the root before `.` before `..` before names,
//! and names by their characters.
use vstd::prelude::*;
use crate::text::{self, chars_of, push_all, split_char_exec};

verus! {

pub open spec fn root() -> Seq<char> {
    seq!['/']
}

pub open spec fn cur_dir() -> Seq<char> {
    seq!['.']
}

pub open spec fn parent_dir() -> Seq<char> {
    seq!['.', '.']
}

/// The pieces that are names or `..`: neither empty nor `.`.
pub open spec fn normal_parts(parts: Seq<Seq<char>>) -> Seq<Seq<char>>
    decreases parts.len(),
{
    if parts.len() == 0 {
        Seq::empty()
    } else {
        normal_parts(parts.drop_last()) + if parts.last().len() > 0 && parts.last() != cur_dir() {
            seq![parts.last()]
        } else {
            Seq::empty()
        }
    }
}

/// `Path::components`: the root when the path starts with `/`, `.` when a
/// relative path starts with `./` or is `.`, then every piece between
/// slashes that is neither empty nor `.`.
pub open spec fn components(p: Seq<char>) -> Seq<Seq<char>> {
    let rooted = p.len() > 0 && p[0] == '/';
    let leading_cur = !rooted && p.len() > 0 && p[0] == '.' && (p.len() == 1 || p[1] == '/');
    (if rooted {
        seq![root()]
    } else if leading_cur {
        seq![cur_dir()]
    } else {
        Seq::empty()
    }) + normal_parts(text::split_char(p, '/'))
}

/// The path made of the components (`PathBuf::from_iter`): `/` then the
/// rest joined with `/` when it starts at the root, else all joined with `/`.
pub open spec fn render(cs: Seq<Seq<char>>) -> Seq<char> {
    if cs.len() > 0 && cs[0] == root() {
        root() + text::join_char(cs.skip(1), '/')
    } else {
        text::join_char(cs, '/')
    }
}

/// The components with `.` dropped and each `..` taking away the component
/// before it (nothing when there is none).
pub open spec fn normalize(cs: Seq<Seq<char>>) -> Seq<Seq<char>>
    decreases cs.len(),
{
    if cs.len() == 0 {
        Seq::empty()
    } else {
        let prev = normalize(cs.drop_last());
        let c = cs.last();
        if c == parent_dir() {
            if prev.len() > 0 {
                prev.drop_last()
            } else {
                prev
            }
        } else if c == cur_dir() {
            prev
        } else {
            prev.push(c)
        }
    }
}

/// The components of `Path::parent` (no components when there is no parent).
pub open spec fn parent_components(p: Seq<char>) -> Seq<Seq<char>> {
    let cs = components(p);
    if cs.len() > 0 && cs.last() != root() {
        cs.drop_last()
    } else {
        Seq::empty()
    }
}

/// The normalized components of `dir.join(p)`, `dir` given by its components.
pub open spec fn resolve(dir: Seq<Seq<char>>, p: Seq<char>) -> Seq<Seq<char>> {
    if p.len() > 0 && p[0] == '/' {
        normalize(components(p))
    } else {
        normalize(dir + components(p))
    }
}

/// `a` comes before `b`, character by character, a prefix first.
pub open spec fn text_lt(a: Seq<char>, b: Seq<char>) -> bool
    decreases a.len(),
{
    if a.len() == 0 {
        b.len() > 0
    } else if b.len() == 0 {
        false
    } else if a[0] != b[0] {
        a[0] < b[0]
    } else {
        text_lt(a.drop_first(), b.drop_first())
    }
}

/// The rank of a component's kind: the root, then `.`, then `..`, then names.
pub open spec fn kind_rank(c: Seq<char>) -> int {
    if c == root() {
        0
    } else if c == cur_dir() {
        1
    } else if c == parent_dir() {
        2
    } else {
        3
    }
}

pub open spec fn component_lt(a: Seq<char>, b: Seq<char>) -> bool {
    kind_rank(a) < kind_rank(b) || (kind_rank(a) == kind_rank(b) && text_lt(a, b))
}

/// Path order on components: the first differing component decides, a prefix first.
pub open spec fn components_lt(a: Seq<Seq<char>>, b: Seq<Seq<char>>) -> bool
    decreases a.len(),
{
    if a.len() == 0 {
        b.len() > 0
    } else if b.len() == 0 {
        false
    } else if a[0] != b[0] {
        component_lt(a[0], b[0])
    } else {
        components_lt(a.drop_first(), b.drop_first())
    }
}

pub open spec fn view_all(v: Seq<Vec<char>>) -> Seq<Seq<char>> {
    v.map_values(|x: Vec<char>| x@)
}

/// `Path::components`.
pub fn components_exec(p: &[char]) -> (res: Vec<Vec<char>>)
    ensures
        view_all(res@) == components(p@),
{
    let parts = split_char_exec(p, '/');
    let ghost gp = text::split_char(p@, '/');
    let mut res: Vec<Vec<char>> = Vec::new();
    let rooted = p.len() > 0 && p[0] == '/';
    let leading_cur = !rooted && p.len() > 0 && p[0] == '.' && (p.len() == 1 || p[1] == '/');
    if rooted {
        let mut c: Vec<char> = Vec::new();
        c.push('/');
        res.push(c);
        assert(view_all(res@) =~= seq![root()]);
    } else if leading_cur {
        let mut c: Vec<char> = Vec::new();
        c.push('.');
        res.push(c);
        assert(view_all(res@) =~= seq![cur_dir()]);
    } else {
        assert(view_all(res@) =~= Seq::<Seq<char>>::empty());
    }
    let ghost head = view_all(res@);
    let mut i: usize = 0;
    assert(gp.take(0) =~= Seq::<Seq<char>>::empty());
    assert(head + normal_parts(gp.take(0)) =~= head);
    while i < parts.len()
        invariant
            i <= parts@.len(),
            parts@.len() == gp.len(),
            gp == text::split_char(p@, '/'),
            forall|j: int| 0 <= j < parts@.len() ==> #[trigger] parts@[j]@ == gp[j],
            view_all(res@) == head + normal_parts(gp.take(i as int)),
        decreases parts@.len() - i,
    {
        let part = &parts[i];
        assert(gp.take(i + 1).drop_last() =~= gp.take(i as int));
        assert(gp.take(i + 1).last() == gp[i as int]);
        let keep = part.len() > 0 && !(part.len() == 1 && part[0] == '.');
        assert(keep == (gp[i as int].len() > 0 && gp[i as int] != cur_dir())) by {
            if part@.len() == 1 && part@[0] == '.' {
                assert(part@ =~= cur_dir());
            }
        }
        let ghost before = view_all(res@);
        if keep {
            let mut c: Vec<char> = Vec::new();
            push_all(&mut c, part.as_slice());
            res.push(c);
            assert(view_all(res@) =~= before + seq![gp[i as int]]);
        }
        assert(view_all(res@) =~= head + normal_parts(gp.take(i + 1)));
        i += 1;
    }
    assert(gp.take(parts@.len() as int) =~= gp);
    res
}

/// `PathBuf::from_iter` over components, as text.
pub fn render_exec(cs: &Vec<Vec<char>>) -> (res: Vec<char>)
    ensures
        res@ == render(view_all(cs@)),
{
    let ghost g = view_all(cs@);
    let mut out: Vec<char> = Vec::new();
    let rooted = cs.len() > 0 && cs[0].len() == 1 && cs[0][0] == '/';
    assert(rooted == (g.len() > 0 && g[0] == root())) by {
        if g.len() > 0 && g[0] == root() {
            assert(cs@[0]@ == g[0]);
        }
        if rooted {
            assert(cs@[0]@ =~= root());
        }
    }
    let start: usize = if rooted { 1 } else { 0 };
    if rooted {
        out.push('/');
    }
    let ghost rest = g.skip(start as int);
    let mut i: usize = start;
    assert(rest.take(0) =~= Seq::<Seq<char>>::empty());
    while i < cs.len()
        invariant
            start <= i <= cs@.len(),
            g == view_all(cs@),
            rest == g.skip(start as int),
            out@ == (if rooted { root() } else { Seq::empty() }) + text::join_char(rest.take(i - start), '/'),
        decreases cs@.len() - i,
    {
        proof {
            text::lemma_join_char_take(rest, '/', i - start);
        }
        assert(rest[i - start] == cs@[i as int]@);
        let ghost before = out@;
        if i > start {
            out.push('/');
        }
        push_all(&mut out, cs[i].as_slice());
        assert(out@ =~= (if rooted { root() } else { Seq::empty() }) + text::join_char(rest.take(i + 1 - start), '/'));
        i += 1;
    }
    assert(rest.take(cs@.len() - start) =~= rest);
    assert(g.skip(0) =~= g);
    assert(out@ =~= render(g));
    out
}

fn is_text(c: &[char], t: &[char]) -> (b: bool)
    ensures
        b == (c@ == t@),
{
    text::same_chars(c, t)
}

/// Normalizes the components: `.` dropped, each `..` removing the one before.
pub fn normalize_exec(cs: &Vec<Vec<char>>) -> (res: Vec<Vec<char>>)
    ensures
        view_all(res@) == normalize(view_all(cs@)),
{
    let ghost g = view_all(cs@);
    let dd = chars_of("..");
    let d = chars_of(".");
    assert(dd@ =~= parent_dir()) by {
        reveal_strlit("..");
    }
    assert(d@ =~= cur_dir()) by {
        reveal_strlit(".");
    }
    let mut out: Vec<Vec<char>> = Vec::new();
    let mut i: usize = 0;
    assert(g.take(0) =~= Seq::<Seq<char>>::empty());
    while i < cs.len()
        invariant
            i <= cs@.len(),
            g == view_all(cs@),
            dd@ == parent_dir(),
            d@ == cur_dir(),
            view_all(out@) == normalize(g.take(i as int)),
        decreases cs@.len() - i,
    {
        assert(g.take(i + 1).drop_last() =~= g.take(i as int));
        assert(g.take(i + 1).last() == cs@[i as int]@);
        let ghost before = view_all(out@);
        if is_text(cs[i].as_slice(), dd.as_slice()) {
            if out.len() > 0 {
                out.pop();
                assert(view_all(out@) =~= before.drop_last());
            }
        } else if is_text(cs[i].as_slice(), d.as_slice()) {
        } else {
            let mut c: Vec<char> = Vec::new();
            push_all(&mut c, cs[i].as_slice());
            out.push(c);
            assert(view_all(out@) =~= before.push(cs@[i as int]@));
        }
        i += 1;
    }
    assert(g.take(cs@.len() as int) =~= g);
    out
}

/// Are the two component lists the same?
pub fn components_eq(a: &Vec<Vec<char>>, b: &Vec<Vec<char>>) -> (r: bool)
    ensures
        r == (view_all(a@) == view_all(b@)),
{
    if a.len() != b.len() {
        assert(view_all(a@).len() != view_all(b@).len());
        return false;
    }
    let mut i: usize = 0;
    while i < a.len()
        invariant
            i <= a@.len(),
            a@.len() == b@.len(),
            forall|j: int| 0 <= j < i ==> a@[j]@ == b@[j]@,
        decreases a@.len() - i,
    {
        if !text::same_chars(a[i].as_slice(), b[i].as_slice()) {
            assert(view_all(a@)[i as int] != view_all(b@)[i as int]);
            return false;
        }
        i += 1;
    }
    assert(view_all(a@) =~= view_all(b@));
    true
}

pub fn text_lt_exec(a: &[char], b: &[char]) -> (r: bool)
    ensures
        r == text_lt(a@, b@),
{
    let mut i: usize = 0;
    assert(a@.skip(0) =~= a@);
    assert(b@.skip(0) =~= b@);
    while i < a.len() && i < b.len() && a[i] == b[i]
        invariant
            i <= a.len(),
            i <= b.len(),
            text_lt(a@, b@) == text_lt(a@.skip(i as int), b@.skip(i as int)),
        decreases a.len() - i,
    {
        assert(a@.skip(i as int).drop_first() =~= a@.skip(i + 1));
        assert(b@.skip(i as int).drop_first() =~= b@.skip(i + 1));
        i += 1;
    }
    if i == a.len() {
        i < b.len()
    } else if i == b.len() {
        false
    } else {
        a[i] < b[i]
    }
}

fn kind_rank_exec(c: &[char]) -> (r: u8)
    ensures
        r as int == kind_rank(c@),
{
    let is_root = c.len() == 1 && c[0] == '/';
    let is_cur = c.len() == 1 && c[0] == '.';
    let is_parent = c.len() == 2 && c[0] == '.' && c[1] == '.';
    assert(is_root == (c@ == root())) by {
        if is_root {
            assert(c@ =~= root());
        }
    }
    assert(is_cur == (c@ == cur_dir())) by {
        if is_cur {
            assert(c@ =~= cur_dir());
        }
    }
    assert(is_parent == (c@ == parent_dir())) by {
        if is_parent {
            assert(c@ =~= parent_dir());
        }
    }
    if is_root {
        0
    } else if is_cur {
        1
    } else if is_parent {
        2
    } else {
        3
    }
}

fn component_lt_exec(a: &[char], b: &[char]) -> (r: bool)
    ensures
        r == component_lt(a@, b@),
{
    let ra = kind_rank_exec(a);
    let rb = kind_rank_exec(b);
    ra < rb || (ra == rb && text_lt_exec(a, b))
}

/// Does path `a` come before path `b` (both as components)?
pub fn components_lt_exec(a: &Vec<Vec<char>>, b: &Vec<Vec<char>>) -> (r: bool)
    ensures
        r == components_lt(view_all(a@), view_all(b@)),
{
    let ghost ga = view_all(a@);
    let ghost gb = view_all(b@);
    let mut i: usize = 0;
    assert(ga.skip(0) =~= ga);
    assert(gb.skip(0) =~= gb);
    while i < a.len() && i < b.len() && text::same_chars(a[i].as_slice(), b[i].as_slice())
        invariant
            i <= a@.len(),
            i <= b@.len(),
            ga == view_all(a@),
            gb == view_all(b@),
            components_lt(ga, gb) == components_lt(ga.skip(i as int), gb.skip(i as int)),
        decreases a@.len() - i,
    {
        assert(ga.skip(i as int).drop_first() =~= ga.skip(i + 1));
        assert(gb.skip(i as int).drop_first() =~= gb.skip(i + 1));
        assert(ga.skip(i as int)[0] == gb.skip(i as int)[0]);
        i += 1;
    }
    if i == a.len() {
        i < b.len()
    } else if i == b.len() {
        false
    } else {
        assert(ga.skip(i as int)[0] == a@[i as int]@);
        assert(gb.skip(i as int)[0] == b@[i as int]@);
        component_lt_exec(a[i].as_slice(), b[i].as_slice())
    }
}

/// A component list as `normalize` leaves it: no `.` and no `..`; names are
/// not empty and hold no `/`; the root, if any, comes first.
pub open spec fn is_clean(cs: Seq<Seq<char>>) -> bool {
    forall|i: int| 0 <= i < cs.len() ==> {
        &&& #[trigger] cs[i] != cur_dir()
        &&& cs[i] != parent_dir()
        &&& cs[i].len() > 0
        &&& (cs[i] == root() ==> i == 0)
        &&& (cs[i] != root() ==> forall|j: int| 0 <= j < cs[i].len() ==> cs[i][j] != '/')
    }
}

/// The components of a path hold no empty name and no `/` inside a name;
/// the root, if any, comes first.
pub open spec fn is_parsed(cs: Seq<Seq<char>>) -> bool {
    forall|i: int| 0 <= i < cs.len() ==> {
        &&& (#[trigger] cs[i]).len() > 0
        &&& (cs[i] == root() ==> i == 0)
        &&& (cs[i] != root() ==> forall|j: int| 0 <= j < cs[i].len() ==> cs[i][j] != '/')
    }
}

proof fn lemma_normal_parts(parts: Seq<Seq<char>>)
    requires
        forall|i: int, j: int| 0 <= i < parts.len() && 0 <= j < parts[i].len() ==> parts[i][j] != '/',
    ensures
        forall|i: int| 0 <= i < normal_parts(parts).len() ==> {
            &&& (#[trigger] normal_parts(parts)[i]).len() > 0
            &&& normal_parts(parts)[i] != cur_dir()
            &&& forall|j: int| 0 <= j < normal_parts(parts)[i].len() ==> normal_parts(parts)[i][j] != '/'
        },
        normal_parts(parts).len() <= parts.len(),
    decreases parts.len(),
{
    if parts.len() > 0 {
        lemma_normal_parts(parts.drop_last());
        let prev = normal_parts(parts.drop_last());
        assert forall|i: int| 0 <= i < normal_parts(parts).len() implies {
            &&& (#[trigger] normal_parts(parts)[i]).len() > 0
            &&& normal_parts(parts)[i] != cur_dir()
            &&& forall|j: int| 0 <= j < normal_parts(parts)[i].len() ==> normal_parts(parts)[i][j] != '/'
        } by {
            if i < prev.len() {
                assert(normal_parts(parts)[i] == prev[i]);
            } else {
                assert(normal_parts(parts)[i] == parts.last());
                assert(parts.last() == parts[parts.len() - 1]);
            }
        }
    }
}

/// What `components` gives is parsed.
pub proof fn lemma_components_parsed(p: Seq<char>)
    ensures
        is_parsed(components(p)),
{
    let parts = text::split_char(p, '/');
    text::lemma_split_char_no_sep(p, '/');
    lemma_normal_parts(parts);
    let np = normal_parts(parts);
    let rooted = p.len() > 0 && p[0] == '/';
    let leading_cur = !rooted && p.len() > 0 && p[0] == '.' && (p.len() == 1 || p[1] == '/');
    let head: Seq<Seq<char>> = if rooted { seq![root()] } else if leading_cur { seq![cur_dir()] } else { Seq::empty() };
    let cs = head + np;
    assert forall|i: int| 0 <= i < cs.len() implies {
        &&& (#[trigger] cs[i]).len() > 0
        &&& (cs[i] == root() ==> i == 0)
        &&& (cs[i] != root() ==> forall|j: int| 0 <= j < cs[i].len() ==> cs[i][j] != '/')
    } by {
        if i < head.len() {
            assert(cs[i] == head[i]);
        } else {
            assert(cs[i] == np[i - head.len()]);
            if cs[i] == root() {
                assert(np[i - head.len()][0] == '/');
            }
        }
    }
}

/// `normalize` leaves a clean list; it leaves a clean list as it is.
pub proof fn lemma_normalize_clean(cs: Seq<Seq<char>>)
    requires
        is_parsed(cs),
    ensures
        is_clean(normalize(cs)),
        normalize(cs).len() <= cs.len(),
        forall|i: int| 0 <= i < normalize(cs).len() && normalize(cs)[i] == root() ==> cs[0] == root(),
    decreases cs.len(),
{
    if cs.len() > 0 {
        let pre = cs.drop_last();
        assert(is_parsed(pre)) by {
            assert forall|i: int| 0 <= i < pre.len() implies {
                &&& (#[trigger] pre[i]).len() > 0
                &&& (pre[i] == root() ==> i == 0)
                &&& (pre[i] != root() ==> forall|j: int| 0 <= j < pre[i].len() ==> pre[i][j] != '/')
            } by {
                assert(pre[i] == cs[i]);
            }
        }
        lemma_normalize_clean(pre);
        let prev = normalize(pre);
        let c = cs.last();
        assert(c == cs[cs.len() - 1]);
        let r = normalize(cs);
        assert forall|i: int| 0 <= i < r.len() implies {
            &&& #[trigger] r[i] != cur_dir()
            &&& r[i] != parent_dir()
            &&& r[i].len() > 0
            &&& (r[i] == root() ==> i == 0)
            &&& (r[i] != root() ==> forall|j: int| 0 <= j < r[i].len() ==> r[i][j] != '/')
        } by {
            if i < prev.len() && (c == parent_dir() || c == cur_dir() || i < r.len() - 1 || c != parent_dir()) {
                if i < r.len() && i < prev.len() {
                    assert(r[i] == prev[i]);
                }
            }
            if c != parent_dir() && c != cur_dir() && i == prev.len() {
                assert(r[i] == c);
                if c == root() {
                    assert(cs.len() - 1 == 0);
                }
            }
        }
        assert forall|i: int| 0 <= i < r.len() && r[i] == root() implies cs[0] == root() by {
            if i < prev.len() {
                assert(r[i] == prev[i]);
                assert(pre[0] == cs[0]);
            } else {
                assert(r[i] == c);
            }
        }
    }
}

proof fn lemma_normalize_keeps_clean(cs: Seq<Seq<char>>)
    requires
        is_clean(cs),
    ensures
        normalize(cs) == cs,
    decreases cs.len(),
{
    if cs.len() > 0 {
        let pre = cs.drop_last();
        assert(is_clean(pre)) by {
            assert forall|i: int| 0 <= i < pre.len() implies {
                &&& #[trigger] pre[i] != cur_dir()
                &&& pre[i] != parent_dir()
                &&& pre[i].len() > 0
                &&& (pre[i] == root() ==> i == 0)
                &&& (pre[i] != root() ==> forall|j: int| 0 <= j < pre[i].len() ==> pre[i][j] != '/')
            } by {
                assert(pre[i] == cs[i]);
            }
        }
        lemma_normalize_keeps_clean(pre);
        assert(cs.last() == cs[cs.len() - 1]);
        assert(pre.push(cs.last()) =~= cs);
    }
}

/// Normalizing twice is normalizing once.
pub proof fn law_normalize_idempotent(cs: Seq<Seq<char>>)
    requires
        is_parsed(cs),
    ensures
        normalize(normalize(cs)) == normalize(cs),
{
    lemma_normalize_clean(cs);
    lemma_normalize_keeps_clean(normalize(cs));
}

proof fn lemma_join_after_empty(rest: Seq<Seq<char>>)
    requires
        rest.len() > 0,
    ensures
        text::join_char(seq![Seq::<char>::empty()] + rest, '/') == root() + text::join_char(rest, '/'),
    decreases rest.len(),
{
    let all = seq![Seq::<char>::empty()] + rest;
    if rest.len() == 1 {
        assert(all.drop_last() =~= seq![Seq::<char>::empty()]);
        assert(text::join_char(all.drop_last(), '/') == Seq::<char>::empty());
        assert(all.last() == rest[0]);
        assert(text::join_char(rest, '/') == rest[0]);
        assert(Seq::<char>::empty() + seq!['/'] + rest[0] =~= root() + rest[0]);
    } else {
        lemma_join_after_empty(rest.drop_last());
        assert(all.drop_last() =~= seq![Seq::<char>::empty()] + rest.drop_last());
        assert(all.last() == rest.last());
        assert(root() + text::join_char(rest.drop_last(), '/') + seq!['/'] + rest.last()
            =~= root() + (text::join_char(rest.drop_last(), '/') + seq!['/'] + rest.last()));
    }
}

/// A clean list read back from its rendering is itself.
pub proof fn lemma_render_round_trip(cs: Seq<Seq<char>>)
    requires
        is_clean(cs),
    ensures
        components(render(cs)) == cs,
{
    if cs.len() == 0 {
        assert(render(cs) == Seq::<char>::empty());
        assert(text::split_char(Seq::<char>::empty(), '/') =~= seq![Seq::<char>::empty()]);
        assert(seq![Seq::<char>::empty()].drop_last() =~= Seq::<Seq<char>>::empty());
        assert(normal_parts(Seq::<Seq<char>>::empty()) =~= Seq::<Seq<char>>::empty());
        assert(normal_parts(seq![Seq::<char>::empty()]) =~= Seq::<Seq<char>>::empty());
    } else if cs[0] == root() {
        let rest = cs.skip(1);
        assert forall|i: int, j: int| 0 <= i < rest.len() && 0 <= j < rest[i].len() implies rest[i][j] != '/' by {
            assert(rest[i] == cs[i + 1]);
        }
        if rest.len() == 0 {
            assert(render(cs) == root() + Seq::<char>::empty());
            let p = render(cs);
            assert(p =~= seq!['/']);
            let sp = text::split_char(p, '/');
            assert(p.drop_last() =~= Seq::<char>::empty());
            assert(text::split_char(Seq::<char>::empty(), '/') =~= seq![Seq::<char>::empty()]);
            assert(p.last() == '/');
            assert(sp =~= seq![Seq::<char>::empty()].push(Seq::<char>::empty()));
            assert(sp.drop_last() =~= seq![Seq::<char>::empty()]);
            assert(seq![Seq::<char>::empty()].drop_last() =~= Seq::<Seq<char>>::empty());
            assert(normal_parts(Seq::<Seq<char>>::empty()) =~= Seq::<Seq<char>>::empty());
            assert(normal_parts(seq![Seq::<char>::empty()]) =~= Seq::<Seq<char>>::empty());
            assert(normal_parts(sp) =~= Seq::<Seq<char>>::empty());
            assert(components(p) =~= seq![root()]);
            assert(cs =~= seq![root()]);
        } else {
            let all = seq![Seq::<char>::empty()] + rest;
            lemma_join_after_empty(rest);
            assert forall|i: int, j: int| 0 <= i < all.len() && 0 <= j < all[i].len() implies all[i][j] != '/' by {
                assert(i >= 1);
                assert(all[i] == rest[i - 1]);
            }
            text::lemma_split_join(all, '/');
            lemma_normal_parts_clean(all, rest);
            let p = render(cs);
            assert(p[0] == '/');
            assert(cs =~= seq![root()] + rest);
        }
    } else {
        assert forall|i: int, j: int| 0 <= i < cs.len() && 0 <= j < cs[i].len() implies cs[i][j] != '/' by {
            if cs[i] == root() {
                assert(i == 0);
            }
        }
        text::lemma_split_join(cs, '/');
        lemma_normal_parts_keep(cs);
        let p = render(cs);
        assert(p == text::join_char(cs, '/'));
        lemma_join_first(cs);
        assert(p[0] == cs[0][0]);
        assert(cs[0][0] != '/');
        if p[0] == '.' && (p.len() == 1 || p[1] == '/') {
            lemma_join_first_piece(cs);
            assert(cs[0] =~= cur_dir());
        }
    }
}

proof fn lemma_join_first(cs: Seq<Seq<char>>)
    requires
        cs.len() > 0,
        cs[0].len() > 0,
    ensures
        text::join_char(cs, '/').len() > 0,
        text::join_char(cs, '/')[0] == cs[0][0],
    decreases cs.len(),
{
    if cs.len() > 1 {
        lemma_join_first(cs.drop_last());
    }
}

proof fn lemma_join_first_piece(cs: Seq<Seq<char>>)
    requires
        cs.len() > 0,
        cs[0].len() > 0,
        forall|j: int| 0 <= j < cs[0].len() ==> cs[0][j] != '/',
    ensures
        cs[0].len() >= 2 ==> text::join_char(cs, '/').len() >= 2 && text::join_char(cs, '/')[1] == cs[0][1],
        cs[0].len() == 1 ==> (text::join_char(cs, '/').len() == 1 || text::join_char(cs, '/')[1] == '/'),
    decreases cs.len(),
{
    if cs.len() > 1 {
        lemma_join_first_piece(cs.drop_last());
        let pre = text::join_char(cs.drop_last(), '/');
        assert(text::join_char(cs, '/') == pre + seq!['/'] + cs.last());
        if cs[0].len() == 1 && pre.len() == 1 {
            assert((pre + seq!['/'] + cs.last())[1] == '/');
        }
    }
}

proof fn lemma_normal_parts_keep(cs: Seq<Seq<char>>)
    requires
        forall|i: int| 0 <= i < cs.len() ==> (#[trigger] cs[i]).len() > 0 && cs[i] != cur_dir(),
    ensures
        normal_parts(cs) == cs,
    decreases cs.len(),
{
    if cs.len() > 0 {
        lemma_normal_parts_keep(cs.drop_last());
        assert(cs.last() == cs[cs.len() - 1]);
        assert(cs.drop_last() + seq![cs.last()] =~= cs);
    }
}

proof fn lemma_normal_parts_clean(all: Seq<Seq<char>>, rest: Seq<Seq<char>>)
    requires
        all == seq![Seq::<char>::empty()] + rest,
        forall|i: int| 0 <= i < rest.len() ==> (#[trigger] rest[i]).len() > 0 && rest[i] != cur_dir(),
    ensures
        normal_parts(all) == rest,
    decreases rest.len(),
{
    if rest.len() == 0 {
        assert(all =~= seq![Seq::<char>::empty()]);
        assert(all.drop_last() =~= Seq::<Seq<char>>::empty());
        assert(normal_parts(Seq::<Seq<char>>::empty()) =~= Seq::<Seq<char>>::empty());
        assert(normal_parts(all) =~= Seq::<Seq<char>>::empty());
    } else {
        assert(all.drop_last() =~= seq![Seq::<char>::empty()] + rest.drop_last());
        assert forall|i: int| 0 <= i < rest.drop_last().len() implies (#[trigger] rest.drop_last()[i]).len() > 0 && rest.drop_last()[i] != cur_dir() by {
            assert(rest.drop_last()[i] == rest[i]);
        }
        lemma_normal_parts_clean(all.drop_last(), rest.drop_last());
        assert(all.last() == rest.last());
        assert(rest.last() == rest[rest.len() - 1]);
        assert(rest.drop_last() + seq![rest.last()] =~= rest);
    }
}

proof fn lemma_text_lt_irrefl(a: Seq<char>)
    ensures
        !text_lt(a, a),
    decreases a.len(),
{
    if a.len() > 0 {
        lemma_text_lt_irrefl(a.drop_first());
    }
}

proof fn lemma_text_lt_trans(a: Seq<char>, b: Seq<char>, c: Seq<char>)
    requires
        text_lt(a, b),
        text_lt(b, c),
    ensures
        text_lt(a, c),
    decreases a.len(),
{
    if a.len() > 0 && b.len() > 0 && c.len() > 0 && a[0] == b[0] && b[0] == c[0] {
        lemma_text_lt_trans(a.drop_first(), b.drop_first(), c.drop_first());
    }
}

proof fn lemma_text_lt_total(a: Seq<char>, b: Seq<char>)
    requires
        a != b,
    ensures
        text_lt(a, b) || text_lt(b, a),
    decreases a.len(),
{
    if a.len() == 0 {
        if b.len() == 0 {
            assert(a =~= b);
        }
    } else if b.len() > 0 && a[0] == b[0] {
        if a.drop_first() == b.drop_first() {
            assert(a =~= seq![a[0]] + a.drop_first());
            assert(b =~= seq![b[0]] + b.drop_first());
        }
        lemma_text_lt_total(a.drop_first(), b.drop_first());
    } else if b.len() > 0 {
        assert(a[0] != b[0]);
    }
}

/// `text_lt` is a strict total order: irreflexive, transitive, and any two
/// different texts are ordered one way only.
pub proof fn lemma_text_lt_order(a: Seq<char>, b: Seq<char>, c: Seq<char>)
    ensures
        !text_lt(a, a),
        text_lt(a, b) && text_lt(b, c) ==> text_lt(a, c),
        a != b ==> text_lt(a, b) || text_lt(b, a),
        text_lt(a, b) ==> !text_lt(b, a),
{
    lemma_text_lt_irrefl(a);
    if text_lt(a, b) && text_lt(b, c) {
        lemma_text_lt_trans(a, b, c);
    }
    if a != b {
        lemma_text_lt_total(a, b);
    }
    if text_lt(a, b) && text_lt(b, a) {
        lemma_text_lt_trans(a, b, a);
    }
}

/// `component_lt` is a strict total order.
pub proof fn lemma_component_lt_order(a: Seq<char>, b: Seq<char>, c: Seq<char>)
    ensures
        !component_lt(a, a),
        component_lt(a, b) && component_lt(b, c) ==> component_lt(a, c),
        a != b ==> component_lt(a, b) || component_lt(b, a),
        component_lt(a, b) ==> !component_lt(b, a),
{
    lemma_text_lt_order(a, b, c);
    lemma_text_lt_order(b, a, c);
}

proof fn lemma_components_lt_irrefl(a: Seq<Seq<char>>)
    ensures
        !components_lt(a, a),
    decreases a.len(),
{
    if a.len() > 0 {
        lemma_components_lt_irrefl(a.drop_first());
    }
}

proof fn lemma_components_lt_trans(a: Seq<Seq<char>>, b: Seq<Seq<char>>, c: Seq<Seq<char>>)
    requires
        components_lt(a, b),
        components_lt(b, c),
    ensures
        components_lt(a, c),
    decreases a.len(),
{
    if a.len() > 0 && b.len() > 0 && c.len() > 0 {
        lemma_component_lt_order(a[0], b[0], c[0]);
        lemma_component_lt_order(a[0], b[0], a[0]);
        lemma_component_lt_order(b[0], c[0], b[0]);
        if a[0] == b[0] && b[0] == c[0] {
            lemma_components_lt_trans(a.drop_first(), b.drop_first(), c.drop_first());
        }
    }
}

proof fn lemma_components_lt_total(a: Seq<Seq<char>>, b: Seq<Seq<char>>)
    requires
        a != b,
    ensures
        components_lt(a, b) || components_lt(b, a),
    decreases a.len(),
{
    if a.len() == 0 {
        if b.len() == 0 {
            assert(a =~= b);
        }
    } else if b.len() > 0 {
        lemma_component_lt_order(a[0], b[0], a[0]);
        if a[0] == b[0] {
            if a.drop_first() == b.drop_first() {
                assert(a =~= seq![a[0]] + a.drop_first());
                assert(b =~= seq![b[0]] + b.drop_first());
            }
            lemma_components_lt_total(a.drop_first(), b.drop_first());
        }
    }
}

/// Path order is a strict total order.
pub proof fn lemma_components_lt_order(a: Seq<Seq<char>>, b: Seq<Seq<char>>, c: Seq<Seq<char>>)
    ensures
        !components_lt(a, a),
        components_lt(a, b) && components_lt(b, c) ==> components_lt(a, c),
        a != b ==> components_lt(a, b) || components_lt(b, a),
        components_lt(a, b) ==> !components_lt(b, a),
{
    lemma_components_lt_irrefl(a);
    if components_lt(a, b) && components_lt(b, c) {
        lemma_components_lt_trans(a, b, c);
    }
    if a != b {
        lemma_components_lt_total(a, b);
    }
    if components_lt(a, b) && components_lt(b, a) {
        lemma_components_lt_trans(a, b, a);
    }
}

} // verus!

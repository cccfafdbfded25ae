//! Backlinks: each chapter gets a `## Backlinks` section that lists the
//! chapters linking to it.
//!
//! A chapter links to another through a markdown link `[text](path.md)`
//! (not an image, not external, not to a drawing), resolved against the
//! linking chapter's directory, or through a wikilink `[[Name]]` whose name
//! (up to the first `|` or `#`) has the other chapter's file stem, compared
//! lowercased. Links inside fenced code blocks do not count, nor does a
//! chapter linking to itself. Chapters are identified by their source path,
//! compared as paths (component by component).
use vstd::prelude::*;
use crate::components::{self, components_eq, components_exec, components_lt_exec, normalize_exec, render_exec, view_all};
use crate::excalidraw::links::{self as drawing_links};
use crate::lines::{self, fence_step};
use crate::links::{self, md_link_at_exec, next_md_link_exec, wiki_at_exec};
use crate::paths::{self, file_stem_exec};
use crate::text::{self, chars_of, ends_with_exec, push_all, push_str, slice_vec, starts_with_exec, str_lines_exec, string_of, trim_start_len, trim_vec};
use crate::trusted::{self, to_lowercase, url_decode, url_encode};

verus! {

/// Whether a source path is a drawing (`.excalidraw` or `.excalidraw.md`).
pub fn is_excalidraw(p: &str) -> (b: bool)
    ensures
        b == drawing_links::is_drawing_url(p@),
{
    let pv = chars_of(p);
    let e1 = chars_of(".excalidraw");
    let e2 = chars_of(".excalidraw.md");
    ends_with_exec(pv.as_slice(), e2.as_slice()) || ends_with_exec(pv.as_slice(), e1.as_slice())
}

/// Number of leading characters of `s` that are not white space.
pub open spec fn word_len(s: Seq<char>) -> nat
    decreases s.len(),
{
    if s.len() > 0 && !text::is_ws(s[0]) {
        1 + word_len(s.drop_first())
    } else {
        0
    }
}

/// The first white-space-separated word of `s`; `s` itself when it has none.
pub open spec fn first_word(s: Seq<char>) -> Seq<char> {
    let t = text::trim_start(s);
    if t.len() == 0 {
        s
    } else {
        t.take(word_len(t) as int)
    }
}

/// `s` up to the first `c` (all of `s` when there is none).
pub open spec fn before_char(s: Seq<char>, c: char) -> Seq<char> {
    match text::find(s, seq![c]) {
        Some(k) => s.take(k),
        None => s,
    }
}

/// The chapter a markdown link's url points to, as the normalized
/// components of the chapter directory joined with the decoded path; none
/// for external urls, same-page anchors, and paths that are not `.md` files
/// or are drawings (`.excalidraw.md`), compared lowercased.
pub open spec fn spec_resolve(raw: Seq<char>, dir: Seq<Seq<char>>) -> Option<Seq<Seq<char>>> {
    let url = first_word(raw);
    if text::starts_with(url, "http://"@) || text::starts_with(url, "https://"@) || text::starts_with(url, "//"@)
        || text::starts_with(url, "#"@) || url.len() == 0 {
        None
    } else {
        let path = before_char(before_char(url, '#'), '?');
        let lower = trusted::lowercase(path);
        if path.len() == 0 || !text::ends_with(lower, ".md"@) || text::ends_with(lower, ".excalidraw.md"@) {
            None
        } else {
            Some(components::resolve(dir, drawing_links::decode_or_raw(path)))
        }
    }
}

fn word_len_exec(s: &[char], i: usize) -> (n: usize)
    requires
        i <= s.len(),
    ensures
        n == word_len(s@.skip(i as int)),
        i + n <= s.len(),
{
    let mut k: usize = i;
    while k < s.len() && !text::is_whitespace(s[k])
        invariant
            i <= k <= s.len(),
            word_len(s@.skip(i as int)) == (k - i) + word_len(s@.skip(k as int)),
        decreases s.len() - k,
    {
        assert(s@.skip(k as int).drop_first() =~= s@.skip(k + 1));
        k += 1;
    }
    k - i
}

fn first_word_exec(s: &[char]) -> (res: Vec<char>)
    ensures
        res@ == first_word(s@),
{
    let k = trim_start_len(s);
    if k == s.len() {
        assert(text::trim_start(s@).len() == 0);
        return slice_vec(s, 0, s.len());
    }
    let n = word_len_exec(s, k);
    let r = slice_vec(s, k, k + n);
    assert(r@ =~= s@.skip(k as int).take(n as int));
    r
}

fn before_char_exec(s: &[char], c: char) -> (res: Vec<char>)
    ensures
        res@ == before_char(s@, c),
{
    match links::find_char_from(s, 0, c) {
        Some(k) => {
            proof {
                links::lemma_find_char_bounds(s@, c, 0);
            }
            let r = slice_vec(s, 0, k);
            assert(r@ =~= s@.take(k as int));
            r
        },
        None => slice_vec(s, 0, s.len()),
    }
}

fn has_prefix(s: &[char], p: &str) -> (b: bool)
    ensures
        b == text::starts_with(s@, p@),
{
    let pv = chars_of(p);
    starts_with_exec(s, pv.as_slice())
}

fn has_suffix(s: &[char], p: &str) -> (b: bool)
    ensures
        b == text::ends_with(s@, p@),
{
    let pv = chars_of(p);
    ends_with_exec(s, pv.as_slice())
}

fn decode_or_raw_exec(raw: &[char]) -> (res: Vec<char>)
    ensures
        res@ == drawing_links::decode_or_raw(raw@),
{
    let rs = string_of(raw);
    match url_decode(rs.as_str()) {
        Some(d) => chars_of(d.as_str()),
        None => slice_vec(raw, 0, raw.len()),
    }
}

fn resolve_exec(dir: &Vec<Vec<char>>, p: &[char]) -> (res: Vec<Vec<char>>)
    ensures
        view_all(res@) == components::resolve(view_all(dir@), p@),
{
    let pc = components_exec(p);
    if p.len() > 0 && p[0] == '/' {
        normalize_exec(&pc)
    } else {
        let mut all: Vec<Vec<char>> = Vec::new();
        let mut i: usize = 0;
        while i < dir.len()
            invariant
                i <= dir@.len(),
                view_all(all@) == view_all(dir@).take(i as int),
            decreases dir@.len() - i,
        {
            let ghost before = view_all(all@);
            let x = slice_vec(dir[i].as_slice(), 0, dir[i].len());
            assert(x@ =~= dir@[i as int]@);
            all.push(x);
            assert(view_all(all@) =~= before.push(dir@[i as int]@));
            assert(view_all(all@) =~= view_all(dir@).take(i + 1));
            i += 1;
        }
        let mut j: usize = 0;
        assert(view_all(dir@).take(dir@.len() as int) =~= view_all(dir@));
        while j < pc.len()
            invariant
                j <= pc@.len(),
                view_all(all@) == view_all(dir@) + view_all(pc@).take(j as int),
            decreases pc@.len() - j,
        {
            let ghost before = view_all(all@);
            let x = slice_vec(pc[j].as_slice(), 0, pc[j].len());
            assert(x@ =~= pc@[j as int]@);
            all.push(x);
            assert(view_all(all@) =~= before.push(pc@[j as int]@));
            assert(view_all(all@) =~= view_all(dir@) + view_all(pc@).take(j + 1));
            j += 1;
        }
        assert(view_all(pc@).take(pc@.len() as int) =~= view_all(pc@));
        normalize_exec(&all)
    }
}

fn resolve_link(raw: &[char], dir: &Vec<Vec<char>>) -> (res: Option<Vec<Vec<char>>>)
    ensures
        match res {
            Some(t) => spec_resolve(raw@, view_all(dir@)) == Some(view_all(t@)),
            None => spec_resolve(raw@, view_all(dir@)) is None,
        },
{
    let url = first_word_exec(raw);
    let u = url.as_slice();
    if has_prefix(u, "http://") || has_prefix(u, "https://") || has_prefix(u, "//") || has_prefix(u, "#")
        || u.len() == 0 {
        return None;
    }
    let no_frag = before_char_exec(u, '#');
    let path = before_char_exec(no_frag.as_slice(), '?');
    if path.len() == 0 {
        return None;
    }
    let lower = to_lowercase(string_of(path.as_slice()).as_str());
    let lv = chars_of(lower.as_str());
    if !has_suffix(lv.as_slice(), ".md") || has_suffix(lv.as_slice(), ".excalidraw.md") {
        return None;
    }
    let decoded = decode_or_raw_exec(path.as_slice());
    Some(resolve_exec(dir, decoded.as_slice()))
}

/// The chapter that the markdown link url `raw`, in a chapter in
/// `chapter_dir`, points to: its path normalized; `None` when the link is
/// external, a same-page anchor, or not to a `.md` chapter.
pub fn resolve_md_link(raw: &str, chapter_dir: &str) -> (res: Option<String>)
    ensures
        res is None <==> spec_resolve(raw@, components::components(chapter_dir@)) is None,
        res matches Some(p) ==> (spec_resolve(raw@, components::components(chapter_dir@)) matches Some(t)
            && p@ == components::render(t)),
{
    let rv = chars_of(raw);
    let dv = chars_of(chapter_dir);
    let dir = components_exec(dv.as_slice());
    match resolve_link(rv.as_slice(), &dir) {
        Some(t) => {
            let r = render_exec(&t);
            Some(string_of(r.as_slice()))
        },
        None => None,
    }
}

/// `Path::new(p)` with `.` dropped and each `..` taking away the component before it.
pub fn normalize_path(p: &str) -> (res: String)
    ensures
        res@ == components::render(components::normalize(components::components(p@))),
{
    let pv = chars_of(p);
    let cs = components_exec(pv.as_slice());
    let n = normalize_exec(&cs);
    let r = render_exec(&n);
    string_of(r.as_slice())
}

/// Normalizing a normalized path gives it back.
pub proof fn law_normalize_path_idempotent(p: Seq<char>)
    ensures
        components::render(components::normalize(components::components(
            components::render(components::normalize(components::components(p))),
        ))) == components::render(components::normalize(components::components(p))),
{
    components::lemma_components_parsed(p);
    components::lemma_normalize_clean(components::components(p));
    let n = components::normalize(components::components(p));
    components::lemma_render_round_trip(n);
    components::law_normalize_idempotent(components::components(p));
}

/// Number of leading components that `a` and `b` share.
pub open spec fn common_len(a: Seq<Seq<char>>, b: Seq<Seq<char>>) -> nat
    decreases a.len(),
{
    if a.len() > 0 && b.len() > 0 && a[0] == b[0] {
        1 + common_len(a.drop_first(), b.drop_first())
    } else {
        0
    }
}

/// The pieces of the relative url from `from` to `to`: one `..` per
/// component of `from` past the shared ones, then the rest of `to`, each
/// component percent-encoded.
pub open spec fn url_pieces(from: Seq<Seq<char>>, to: Seq<Seq<char>>) -> Seq<Seq<char>> {
    let common = common_len(from, to) as int;
    Seq::new((from.len() - common) as nat, |i: int| components::parent_dir()) + to.skip(common).map_values(
        |c: Seq<char>| trusted::url_encoded(c),
    )
}

/// The relative url from directory `from` to path `to`; `.` when it is empty.
pub open spec fn spec_relative_url(from: Seq<Seq<char>>, to: Seq<Seq<char>>) -> Seq<char> {
    let ps = url_pieces(from, to);
    if ps.len() == 0 {
        seq!['.']
    } else {
        text::join_char(ps, '/')
    }
}

pub proof fn lemma_common_len(a: Seq<Seq<char>>, b: Seq<Seq<char>>)
    ensures
        common_len(a, b) <= a.len(),
        common_len(a, b) <= b.len(),
    decreases a.len(),
{
    if a.len() > 0 && b.len() > 0 && a[0] == b[0] {
        lemma_common_len(a.drop_first(), b.drop_first());
    }
}

fn relative_url_exec(from: &Vec<Vec<char>>, to: &Vec<Vec<char>>) -> (res: Vec<char>)
    ensures
        res@ == spec_relative_url(view_all(from@), view_all(to@)),
{
    let ghost f = view_all(from@);
    let ghost t = view_all(to@);
    let mut c: usize = 0;
    assert(f.skip(0) =~= f);
    assert(t.skip(0) =~= t);
    while c < from.len() && c < to.len() && text::same_chars(from[c].as_slice(), to[c].as_slice())
        invariant
            c <= from@.len(),
            c <= to@.len(),
            f == view_all(from@),
            t == view_all(to@),
            common_len(f, t) == c + common_len(f.skip(c as int), t.skip(c as int)),
        decreases from@.len() - c,
    {
        assert(f.skip(c as int).drop_first() =~= f.skip(c + 1));
        assert(t.skip(c as int).drop_first() =~= t.skip(c + 1));
        assert(f.skip(c as int)[0] == f[c as int]);
        assert(t.skip(c as int)[0] == t[c as int]);
        c += 1;
    }
    assert(common_len(f.skip(c as int), t.skip(c as int)) == 0) by {
        if c < from.len() && c < to.len() {
            assert(f.skip(c as int)[0] == f[c as int]);
            assert(t.skip(c as int)[0] == t[c as int]);
        }
    }
    let ghost ps = url_pieces(f, t);
    let mut pieces: Vec<Vec<char>> = Vec::new();
    let mut k: usize = c;
    while k < from.len()
        invariant
            c <= k <= from@.len(),
            f == view_all(from@),
            view_all(pieces@) == Seq::new((k - c) as nat, |i: int| components::parent_dir()),
        decreases from@.len() - k,
    {
        let mut dd: Vec<char> = Vec::new();
        dd.push('.');
        dd.push('.');
        let ghost before = view_all(pieces@);
        assert(dd@ =~= components::parent_dir());
        pieces.push(dd);
        assert(view_all(pieces@) =~= before.push(components::parent_dir()));
        assert(view_all(pieces@) =~= Seq::new((k + 1 - c) as nat, |i: int| components::parent_dir()));
        k += 1;
    }
    let ghost ups = view_all(pieces@);
    let mut j: usize = c;
    while j < to.len()
        invariant
            c <= j <= to@.len(),
            t == view_all(to@),
            view_all(pieces@) == ups + t.subrange(c as int, j as int).map_values(|x: Seq<char>| trusted::url_encoded(x)),
        decreases to@.len() - j,
    {
        let e = url_encode(string_of(to[j].as_slice()).as_str());
        let ghost before = view_all(pieces@);
        let ev = chars_of(e.as_str());
        assert(ev@ == trusted::url_encoded(t[j as int]));
        pieces.push(ev);
        assert(view_all(pieces@) =~= before.push(trusted::url_encoded(t[j as int])));
        assert(t.subrange(c as int, j + 1) =~= t.subrange(c as int, j as int).push(t[j as int]));
        assert(view_all(pieces@) =~= ups + t.subrange(c as int, j + 1).map_values(|x: Seq<char>| trusted::url_encoded(x)));
        j += 1;
    }
    assert(t.subrange(c as int, to@.len() as int) =~= t.skip(c as int));
    assert(view_all(pieces@) =~= ps);
    if pieces.len() == 0 {
        let mut d: Vec<char> = Vec::new();
        d.push('.');
        assert(d@ =~= seq!['.']);
        return d;
    }
    let mut out: Vec<char> = Vec::new();
    let mut i: usize = 0;
    assert(ps.take(0) =~= Seq::<Seq<char>>::empty());
    while i < pieces.len()
        invariant
            i <= pieces@.len(),
            view_all(pieces@) == ps,
            out@ == text::join_char(ps.take(i as int), '/'),
        decreases pieces@.len() - i,
    {
        proof {
            text::lemma_join_char_take(ps, '/', i as int);
        }
        assert(ps[i as int] == pieces@[i as int]@);
        if i > 0 {
            out.push('/');
        }
        push_all(&mut out, pieces[i].as_slice());
        i += 1;
    }
    assert(ps.take(pieces@.len() as int) =~= ps);
    out
}

/// The url-encoded relative path from directory `from_dir` to `to`, for a
/// link in a chapter inside `from_dir`.
pub fn relative_url(from_dir: &str, to: &str) -> (res: String)
    ensures
        res@ == spec_relative_url(components::components(from_dir@), components::components(to@)),
{
    let fv = chars_of(from_dir);
    let tv = chars_of(to);
    let f = components_exec(fv.as_slice());
    let t = components_exec(tv.as_slice());
    let r = relative_url_exec(&f, &t);
    string_of(r.as_slice())
}

/// A chapter of the book, in book order (each chapter before its sub-chapters).
pub struct BookChapter {
    pub name: String,
    /// Its source file, relative to the book's source directory.
    pub source_path: Option<String>,
    pub content: String,
}

/// A chapter whose links count and that can get backlinks: it has a source
/// file and is not a drawing.
pub open spec fn is_note(c: BookChapter) -> bool {
    c.source_path matches Some(s) && !drawing_links::is_drawing_url(s@)
}

pub open spec fn source_text(c: BookChapter) -> Seq<char> {
    c.source_path->0@
}

/// The key a chapter is found under by wikilinks: its file stem, lowercased.
pub open spec fn stem_key(src: Seq<char>) -> Seq<char> {
    trusted::lowercase(
        match paths::file_stem(src) {
            Some(s) => s,
            None => Seq::empty(),
        },
    )
}

pub open spec fn indexed(c: BookChapter) -> bool {
    is_note(c) && stem_key(source_text(c)).len() > 0
}

/// The source of the first of the chapters before `n` found under `key`.
pub open spec fn stem_lookup(chs: Seq<BookChapter>, n: int, key: Seq<char>) -> Option<Seq<char>>
    decreases n,
{
    if n <= 0 {
        None
    } else {
        match stem_lookup(chs, n - 1, key) {
            Some(p) => Some(p),
            None => if indexed(chs[n - 1]) && stem_key(source_text(chs[n - 1])) == key {
                Some(source_text(chs[n - 1]))
            } else {
                None
            },
        }
    }
}

/// The path of the first `(key, path)` pair of an index with this key.
pub open spec fn index_lookup(idx: Seq<(Seq<char>, Seq<char>)>, key: Seq<char>) -> Option<Seq<char>>
    decreases idx.len(),
{
    if idx.len() == 0 {
        None
    } else {
        match index_lookup(idx.drop_last(), key) {
            Some(p) => Some(p),
            None => if idx.last().0 == key {
                Some(idx.last().1)
            } else {
                None
            },
        }
    }
}

pub open spec fn pairs_view(v: Seq<(String, String)>) -> Seq<(Seq<char>, Seq<char>)> {
    v.map_values(|p: (String, String)| (p.0@, p.1@))
}

fn index_find(idx: &Vec<(String, String)>, key: &[char]) -> (r: Option<usize>)
    ensures
        match r {
            Some(i) => i < idx@.len() && index_lookup(pairs_view(idx@), key@) == Some(idx@[i as int].1@),
            None => index_lookup(pairs_view(idx@), key@) is None,
        },
{
    let ghost pv = pairs_view(idx@);
    let mut i: usize = 0;
    assert(pv.take(0) =~= Seq::<(Seq<char>, Seq<char>)>::empty());
    while i < idx.len()
        invariant
            i <= idx@.len(),
            pv == pairs_view(idx@),
            index_lookup(pv.take(i as int), key@) is None,
        decreases idx@.len() - i,
    {
        let kv = chars_of(idx[i].0.as_str());
        assert(pv.take(i + 1).drop_last() =~= pv.take(i as int));
        if text::same_chars(kv.as_slice(), key) {
            proof {
                lemma_index_lookup_prefix(pv, i + 1, key@);
            }
            return Some(i);
        }
        i += 1;
    }
    assert(pv.take(idx@.len() as int) =~= pv);
    None
}

/// A lookup that succeeds in a prefix of an index gives the same answer in the whole index.
pub proof fn lemma_index_lookup_prefix(idx: Seq<(Seq<char>, Seq<char>)>, n: int, key: Seq<char>)
    requires
        0 <= n <= idx.len(),
        index_lookup(idx.take(n), key) is Some,
    ensures
        index_lookup(idx, key) == index_lookup(idx.take(n), key),
    decreases idx.len() - n,
{
    if n < idx.len() {
        assert(idx.take(n + 1).drop_last() =~= idx.take(n));
        lemma_index_lookup_prefix(idx, n + 1, key);
    } else {
        assert(idx.take(n) =~= idx);
    }
}

fn stem_key_exec(src: &[char]) -> (res: Vec<char>)
    ensures
        res@ == stem_key(src@),
{
    let stem = match file_stem_exec(src) {
        Some(v) => v,
        None => Vec::new(),
    };
    let low = to_lowercase(string_of(stem.as_slice()).as_str());
    chars_of(low.as_str())
}

/// The index of chapters by file stem: under each stem, lowercased, the
/// source of the first chapter (in book order) with that stem.
pub fn build_stem_index(chapters: &Vec<BookChapter>) -> (res: Vec<(String, String)>)
    ensures
        forall|key: Seq<char>| #[trigger] index_lookup(pairs_view(res@), key) == stem_lookup(chapters@, chapters@.len() as int, key),
{
    let mut idx: Vec<(String, String)> = Vec::new();
    let mut i: usize = 0;
    while i < chapters.len()
        invariant
            i <= chapters@.len(),
            forall|key: Seq<char>| #[trigger] index_lookup(pairs_view(idx@), key) == stem_lookup(chapters@, i as int, key),
        decreases chapters@.len() - i,
    {
        let ch = &chapters[i];
        let ghost idx0 = pairs_view(idx@);
        let mut added = false;
        match &ch.source_path {
            Some(sp) => {
                if !is_excalidraw(sp.as_str()) {
                    let spv = chars_of(sp.as_str());
                    let key = stem_key_exec(spv.as_slice());
                    if key.len() > 0 {
                        match index_find(&idx, key.as_slice()) {
                            Some(_) => {},
                            None => {
                                idx.push((string_of(key.as_slice()), string_of(spv.as_slice())));
                                assert(pairs_view(idx@).drop_last() =~= idx0);
                                assert(pairs_view(idx@).last() == (key@, sp@));
                                added = true;
                            },
                        }
                    }
                    proof {
                        assert forall|k: Seq<char>| #[trigger] index_lookup(pairs_view(idx@), k) == stem_lookup(chapters@, i + 1, k) by {
                            assert(index_lookup(idx0, k) == stem_lookup(chapters@, i as int, k));
                            if added {
                                assert(index_lookup(pairs_view(idx@), k) == match index_lookup(idx0, k) {
                                    Some(p) => Some(p),
                                    None => if key@ == k { Some(sp@) } else { None },
                                });
                            }
                        }
                    }
                } else {
                    proof {
                        assert forall|k: Seq<char>| #[trigger] index_lookup(pairs_view(idx@), k) == stem_lookup(chapters@, i + 1, k) by {
                            assert(index_lookup(idx0, k) == stem_lookup(chapters@, i as int, k));
                        }
                    }
                }
            },
            None => {
                proof {
                    assert forall|k: Seq<char>| #[trigger] index_lookup(pairs_view(idx@), k) == stem_lookup(chapters@, i + 1, k) by {
                        assert(index_lookup(idx0, k) == stem_lookup(chapters@, i as int, k));
                    }
                }
            },
        }
        i += 1;
    }
    idx
}

/// Length of the name part of a wikilink's inner text: up to the first `|` or `#`.
pub open spec fn name_len(r: Seq<char>) -> nat
    decreases r.len(),
{
    if r.len() > 0 && r[0] != '|' && r[0] != '#' {
        1 + name_len(r.drop_first())
    } else {
        0
    }
}

/// A wikilink at `p` whose name part is not empty.
pub open spec fn named_wiki_at(s: Seq<char>, p: int) -> Option<links::WikiLink> {
    match links::wiki_at(s, p) {
        Some(w) => if name_len(w.inner(s)) > 0 {
            Some(w)
        } else {
            None
        },
        None => None,
    }
}

pub open spec fn next_named_wiki(s: Seq<char>, p: int) -> Option<links::WikiLink>
    decreases s.len() - p,
{
    if p < 0 || p >= s.len() {
        None
    } else if named_wiki_at(s, p) is Some {
        named_wiki_at(s, p)
    } else {
        next_named_wiki(s, p + 1)
    }
}

pub proof fn lemma_next_named_wiki(s: Seq<char>, p: int)
    requires
        next_named_wiki(s, p) is Some,
    ensures
        p <= next_named_wiki(s, p)->0.start,
        links::wiki_at(s, next_named_wiki(s, p)->0.start) == next_named_wiki(s, p),
        next_named_wiki(s, p)->0.start < next_named_wiki(s, p)->0.inner_start() < next_named_wiki(s, p)->0.close,
        next_named_wiki(s, p)->0.end() <= s.len(),
    decreases s.len() - p,
{
    if named_wiki_at(s, p) is Some {
        links::lemma_wiki_at(s, p);
    } else {
        lemma_next_named_wiki(s, p + 1);
    }
}

/// The chapter a wikilink names: its trimmed name part, unless it names a
/// drawing, looked up by file stem (the name itself when it has none), lowercased.
pub open spec fn wiki_target(name: Seq<char>, lookup: spec_fn(Seq<char>) -> Option<Seq<char>>) -> Option<Seq<Seq<char>>> {
    let n = text::trim(name);
    if text::ends_with(n, drawing_links::ext()) {
        None
    } else {
        let stem = match paths::file_stem(n) {
            Some(x) => x,
            None => n,
        };
        match lookup(trusted::lowercase(stem)) {
            Some(p) => Some(components::components(p)),
            None => None,
        }
    }
}

/// The chapters the markdown links of `s[p..]` point to (not counting images).
pub open spec fn md_targets_from(s: Seq<char>, p: int, dir: Seq<Seq<char>>) -> Seq<Seq<Seq<char>>>
    decreases s.len() - p via md_targets_from_decreases
{
    match links::next_md_link(s, p) {
        None => Seq::empty(),
        Some(m) => (if m.bang {
            Seq::empty()
        } else {
            match spec_resolve(m.url(s), dir) {
                Some(t) => seq![t],
                None => Seq::empty(),
            }
        }) + md_targets_from(s, m.end(), dir),
    }
}

#[via_fn]
proof fn md_targets_from_decreases(s: Seq<char>, p: int, dir: Seq<Seq<char>>) {
    if links::next_md_link(s, p) is Some {
        links::lemma_next_md_link(s, p);
    }
}

/// The chapters the wikilinks of `s[p..]` name (not counting embeds).
pub open spec fn wiki_targets_from(s: Seq<char>, p: int, lookup: spec_fn(Seq<char>) -> Option<Seq<char>>) -> Seq<Seq<Seq<char>>>
    decreases s.len() - p via wiki_targets_from_decreases
{
    match next_named_wiki(s, p) {
        None => Seq::empty(),
        Some(w) => (if w.bang {
            Seq::empty()
        } else {
            match wiki_target(w.inner(s).take(name_len(w.inner(s)) as int), lookup) {
                Some(t) => seq![t],
                None => Seq::empty(),
            }
        }) + wiki_targets_from(s, w.end(), lookup),
    }
}

#[via_fn]
proof fn wiki_targets_from_decreases(s: Seq<char>, p: int, lookup: spec_fn(Seq<char>) -> Option<Seq<char>>) {
    if next_named_wiki(s, p) is Some {
        lemma_next_named_wiki(s, p);
    }
}

/// The link targets of a line: those of its markdown links, then those of its wikilinks.
pub open spec fn line_targets(line: Seq<char>, dir: Seq<Seq<char>>, lookup: spec_fn(Seq<char>) -> Option<Seq<char>>) -> Seq<Seq<Seq<char>>> {
    md_targets_from(line, 0, dir) + wiki_targets_from(line, 0, lookup)
}

/// The link targets of the first `n` lines, leaving out fenced code blocks.
pub open spec fn lines_targets(ls: Seq<Seq<char>>, n: int, dir: Seq<Seq<char>>, lookup: spec_fn(Seq<char>) -> Option<Seq<char>>) -> Seq<Seq<Seq<char>>>
    decreases n,
{
    if n <= 0 {
        Seq::empty()
    } else {
        lines_targets(ls, n - 1, dir, lookup) + if lines::verbatim(ls, n - 1) {
            Seq::empty()
        } else {
            line_targets(ls[n - 1], dir, lookup)
        }
    }
}

/// `x` put into the sorted path list `sorted`: before the first path it
/// precedes, unless an equal path is met first.
pub open spec fn insert_path(sorted: Seq<Seq<Seq<char>>>, x: Seq<Seq<char>>) -> Seq<Seq<Seq<char>>>
    decreases sorted.len(),
{
    if sorted.len() == 0 {
        seq![x]
    } else if sorted[0] == x {
        sorted
    } else if components::components_lt(x, sorted[0]) {
        seq![x] + sorted
    } else {
        seq![sorted[0]] + insert_path(sorted.drop_first(), x)
    }
}

/// The paths sorted by path order, each once.
pub open spec fn sort_paths(xs: Seq<Seq<Seq<char>>>) -> Seq<Seq<Seq<char>>>
    decreases xs.len(),
{
    if xs.len() == 0 {
        Seq::empty()
    } else {
        insert_path(sort_paths(xs.drop_last()), xs.last())
    }
}

/// The chapters a chapter's content links to, outside fenced code blocks,
/// sorted by path order, each once.
pub open spec fn spec_targets(content: Seq<char>, dir: Seq<Seq<char>>, lookup: spec_fn(Seq<char>) -> Option<Seq<char>>) -> Seq<Seq<Seq<char>>> {
    let ls = text::str_lines(content);
    sort_paths(lines_targets(ls, ls.len() as int, dir, lookup))
}

pub open spec fn paths_view(v: Seq<Vec<Vec<char>>>) -> Seq<Seq<Seq<char>>> {
    v.map_values(|x: Vec<Vec<char>>| view_all(x@))
}

fn copy_components(v: &Vec<Vec<char>>) -> (res: Vec<Vec<char>>)
    ensures
        view_all(res@) == view_all(v@),
{
    let mut out: Vec<Vec<char>> = Vec::new();
    let mut i: usize = 0;
    while i < v.len()
        invariant
            i <= v@.len(),
            view_all(out@) == view_all(v@).take(i as int),
        decreases v@.len() - i,
    {
        let ghost before = view_all(out@);
        let x = slice_vec(v[i].as_slice(), 0, v[i].len());
        assert(x@ =~= v@[i as int]@);
        out.push(x);
        assert(view_all(out@) =~= before.push(v@[i as int]@));
        assert(view_all(out@) =~= view_all(v@).take(i + 1));
        i += 1;
    }
    assert(view_all(v@).take(v@.len() as int) =~= view_all(v@));
    out
}

fn insert_path_exec(sorted: &mut Vec<Vec<Vec<char>>>, x: Vec<Vec<char>>)
    ensures
        paths_view(final(sorted)@) == insert_path(paths_view(old(sorted)@), view_all(x@)),
{
    let ghost o = paths_view(sorted@);
    let ghost gx = view_all(x@);
    let mut k: usize = 0;
    assert(o.skip(0) =~= o);
    while k < sorted.len()
        invariant
            k <= sorted@.len(),
            o == paths_view(sorted@),
            o == paths_view(old(sorted)@),
            gx == view_all(x@),
            insert_path(o, gx) == o.take(k as int) + insert_path(o.skip(k as int), gx),
        decreases sorted@.len() - k,
    {
        assert(o.skip(k as int)[0] == view_all(sorted@[k as int]@));
        if components_eq(&sorted[k], &x) {
            assert(o.take(k as int) + o.skip(k as int) =~= o);
            return;
        }
        if components_lt_exec(&x, &sorted[k]) {
            sorted.insert(k, x);
            assert(paths_view(sorted@) =~= o.take(k as int) + (seq![gx] + o.skip(k as int)));
            return;
        }
        assert(o.skip(k as int).drop_first() =~= o.skip(k + 1));
        assert(o.take(k + 1) =~= o.take(k as int) + seq![o[k as int]]);
        k += 1;
    }
    assert(o.take(k as int) =~= o);
    assert(o.skip(k as int) =~= Seq::<Seq<Seq<char>>>::empty());
    sorted.push(x);
    assert(paths_view(sorted@) =~= o + seq![gx]);
}

fn md_targets_exec(s: &[char], dir: &Vec<Vec<char>>, out: &mut Vec<Vec<Vec<char>>>)
    ensures
        paths_view(final(out)@) == paths_view(old(out)@) + md_targets_from(s@, 0, view_all(dir@)),
{
    let ghost pre = paths_view(out@);
    let ghost d = view_all(dir@);
    let mut p: usize = 0;
    assert(pre + md_targets_from(s@, 0, d) =~= paths_view(out@) + md_targets_from(s@, 0, d));
    loop
        invariant
            p <= s.len(),
            d == view_all(dir@),
            pre == paths_view(old(out)@),
            pre + md_targets_from(s@, 0, d) == paths_view(out@) + md_targets_from(s@, p as int, d),
        decreases s.len() - p,
    {
        match next_md_link_exec(s, p) {
            None => {
                assert(paths_view(out@) + md_targets_from(s@, p as int, d) =~= paths_view(out@));
                return;
            },
            Some((st, bang, close, ue)) => {
                proof {
                    links::lemma_next_md_link(s@, p as int);
                }
                let ghost before = paths_view(out@);
                let ghost m = links::md_link(st as int, bang, close as int, ue as int);
                if !bang {
                    let url = &s[close + 2..ue];
                    match resolve_link(url, dir) {
                        Some(t) => {
                            out.push(t);
                        },
                        None => {},
                    }
                }
                assert(paths_view(out@) + md_targets_from(s@, ue + 1, d) =~= before + md_targets_from(s@, p as int, d));
                p = ue + 1;
            },
        }
    }
}

fn name_len_exec(r: &[char]) -> (n: usize)
    ensures
        n == name_len(r@),
        n <= r.len(),
{
    let mut k: usize = 0;
    assert(r@.skip(0) =~= r@);
    while k < r.len() && r[k] != '|' && r[k] != '#'
        invariant
            k <= r.len(),
            name_len(r@) == k + name_len(r@.skip(k as int)),
        decreases r.len() - k,
    {
        assert(r@.skip(k as int).drop_first() =~= r@.skip(k + 1));
        k += 1;
    }
    k
}

fn next_named_wiki_exec(s: &[char], p: usize) -> (r: Option<(usize, bool, usize)>)
    ensures
        match r {
            Some(w) => next_named_wiki(s@, p as int) == Some(links::wiki_link(w.0 as int, w.1, w.2 as int)),
            None => next_named_wiki(s@, p as int) is None,
        },
{
    let mut k: usize = p;
    while k < s.len()
        invariant
            p <= k,
            next_named_wiki(s@, p as int) == next_named_wiki(s@, k as int),
        decreases s.len() - k,
    {
        match wiki_at_exec(s, k) {
            Some((bang, close)) => {
                proof {
                    links::lemma_wiki_at(s@, k as int);
                }
                let is = if bang { k + 3 } else { k + 2 };
                if name_len_exec(&s[is..close]) > 0 {
                    return Some((k, bang, close));
                }
            },
            None => {},
        }
        k += 1;
    }
    None
}

fn wiki_target_exec(name: &[char], idx: &Vec<(String, String)>) -> (res: Option<Vec<Vec<char>>>)
    ensures
        match res {
            Some(t) => wiki_target(name@, |k: Seq<char>| index_lookup(pairs_view(idx@), k)) == Some(view_all(t@)),
            None => wiki_target(name@, |k: Seq<char>| index_lookup(pairs_view(idx@), k)) is None,
        },
{
    let n = trim_vec(name);
    let e = chars_of(".excalidraw");
    if ends_with_exec(n.as_slice(), e.as_slice()) {
        return None;
    }
    let stem = match file_stem_exec(n.as_slice()) {
        Some(x) => x,
        None => slice_vec(n.as_slice(), 0, n.len()),
    };
    assert(stem@ == (match paths::file_stem(n@) {
        Some(x) => x,
        None => n@,
    })) by {
        if paths::file_stem(n@) is None {
            assert(n@.subrange(0, n@.len() as int) =~= n@);
        }
    }
    let low = to_lowercase(string_of(stem.as_slice()).as_str());
    let lv = chars_of(low.as_str());
    match index_find(idx, lv.as_slice()) {
        Some(i) => {
            let pv = chars_of(idx[i].1.as_str());
            Some(components_exec(pv.as_slice()))
        },
        None => None,
    }
}

fn wiki_targets_exec(s: &[char], idx: &Vec<(String, String)>, out: &mut Vec<Vec<Vec<char>>>)
    ensures
        paths_view(final(out)@) == paths_view(old(out)@) + wiki_targets_from(s@, 0, |k: Seq<char>| index_lookup(pairs_view(idx@), k)),
{
    let ghost pre = paths_view(out@);
    let ghost lk = |k: Seq<char>| index_lookup(pairs_view(idx@), k);
    let mut p: usize = 0;
    assert(pre + wiki_targets_from(s@, 0, lk) =~= paths_view(out@) + wiki_targets_from(s@, 0, lk));
    loop
        invariant
            p <= s.len(),
            lk == (|k: Seq<char>| index_lookup(pairs_view(idx@), k)),
            pre == paths_view(old(out)@),
            pre + wiki_targets_from(s@, 0, lk) == paths_view(out@) + wiki_targets_from(s@, p as int, lk),
        decreases s.len() - p,
    {
        match next_named_wiki_exec(s, p) {
            None => {
                assert(paths_view(out@) + wiki_targets_from(s@, p as int, lk) =~= paths_view(out@));
                return;
            },
            Some((st, bang, close)) => {
                proof {
                    lemma_next_named_wiki(s@, p as int);
                }
                let ghost before = paths_view(out@);
                if !bang {
                    let is = st + 2;
                    let inner = &s[is..close];
                    let n = name_len_exec(inner);
                    let nm = &inner[0..n];
                    assert(nm@ =~= inner@.take(n as int));
                    match wiki_target_exec(nm, idx) {
                        Some(t) => {
                            out.push(t);
                        },
                        None => {},
                    }
                }
                assert(paths_view(out@) + wiki_targets_from(s@, close + 2, lk) =~= before + wiki_targets_from(s@, p as int, lk));
                p = close + 2;
            },
        }
    }
}

fn targets_exec(content: &[char], dir: &Vec<Vec<char>>, idx: &Vec<(String, String)>) -> (res: Vec<Vec<Vec<char>>>)
    ensures
        paths_view(res@) == spec_targets(content@, view_all(dir@), |k: Seq<char>| index_lookup(pairs_view(idx@), k)),
{
    let ghost lk = |k: Seq<char>| index_lookup(pairs_view(idx@), k);
    let ghost d = view_all(dir@);
    let ls = str_lines_exec(content);
    let ghost gl = text::str_lines(content@);
    let mut all: Vec<Vec<Vec<char>>> = Vec::new();
    let mut st: Option<(char, usize)> = None;
    let mut i: usize = 0;
    while i < ls.len()
        invariant
            i <= ls@.len(),
            ls@.len() == gl.len(),
            forall|j: int| 0 <= j < ls@.len() ==> #[trigger] ls@[j]@ == gl[j],
            lk == (|k: Seq<char>| index_lookup(pairs_view(idx@), k)),
            d == view_all(dir@),
            lines::fence_view(st) == lines::fence_before(gl, i as int),
            paths_view(all@) == lines_targets(gl, i as int, d, lk),
        decreases ls@.len() - i,
    {
        let line = ls[i].as_slice();
        assert(line@ == gl[i as int]);
        let verb = fence_step(&mut st, line);
        assert(verb == lines::verbatim(gl, i as int));
        let ghost before = paths_view(all@);
        if !verb {
            md_targets_exec(line, dir, &mut all);
            wiki_targets_exec(line, idx, &mut all);
            assert(paths_view(all@) =~= before + line_targets(gl[i as int], d, lk));
        } else {
            assert(paths_view(all@) =~= before + Seq::<Seq<Seq<char>>>::empty());
        }
        i += 1;
    }
    let ghost raw = paths_view(all@);
    let mut sorted: Vec<Vec<Vec<char>>> = Vec::new();
    let mut k: usize = 0;
    assert(raw.take(0) =~= Seq::<Seq<Seq<char>>>::empty());
    while k < all.len()
        invariant
            k <= all@.len(),
            raw == paths_view(all@),
            paths_view(sorted@) == sort_paths(raw.take(k as int)),
        decreases all@.len() - k,
    {
        let x = copy_components(&all[k]);
        assert(raw.take(k + 1).drop_last() =~= raw.take(k as int));
        assert(raw.take(k + 1).last() == view_all(x@));
        insert_path_exec(&mut sorted, x);
        k += 1;
    }
    assert(raw.take(all@.len() as int) =~= raw);
    sorted
}

/// The chapters a chapter in `chapter_dir` links to, outside fenced code
/// blocks, sorted by path order, each once: markdown links resolved
/// against the directory, wikilinks looked up in `stem_index` by file stem.
pub fn extract_targets(content: &str, chapter_dir: &str, stem_index: &Vec<(String, String)>) -> (res: Vec<String>)
    ensures
        res@.len() == spec_targets(content@, components::components(chapter_dir@), |k: Seq<char>| index_lookup(pairs_view(stem_index@), k)).len(),
        forall|i: int| 0 <= i < res@.len() ==> #[trigger] res@[i]@ == components::render(
            spec_targets(content@, components::components(chapter_dir@), |k: Seq<char>| index_lookup(pairs_view(stem_index@), k))[i],
        ),
{
    let cv = chars_of(content);
    let dv = chars_of(chapter_dir);
    let dir = components_exec(dv.as_slice());
    let ts = targets_exec(cv.as_slice(), &dir, stem_index);
    let mut out: Vec<String> = Vec::new();
    let mut i: usize = 0;
    while i < ts.len()
        invariant
            i <= ts@.len(),
            out@.len() == i,
            forall|j: int| 0 <= j < i ==> #[trigger] out@[j]@ == components::render(paths_view(ts@)[j]),
        decreases ts@.len() - i,
    {
        let r = render_exec(&ts[i]);
        out.push(string_of(r.as_slice()));
        i += 1;
    }
    out
}

/// The directory of a chapter: the components of its source's parent.
pub open spec fn note_dir(c: BookChapter) -> Seq<Seq<char>> {
    components::parent_components(source_text(c))
}

/// Looking a file stem up among the chapters of the book.
pub open spec fn book_lookup(chs: Seq<BookChapter>) -> spec_fn(Seq<char>) -> Option<Seq<char>> {
    |k: Seq<char>| stem_lookup(chs, chs.len() as int, k)
}

/// The chapters chapter `i` links to.
pub open spec fn note_targets(chs: Seq<BookChapter>, i: int) -> Seq<Seq<Seq<char>>> {
    spec_targets(chs[i].content@, note_dir(chs[i]), book_lookup(chs))
}

/// Chapter `i` links to chapter `j`, which is another chapter than `i`.
pub open spec fn links_to(chs: Seq<BookChapter>, i: int, j: int) -> bool {
    &&& is_note(chs[i])
    &&& chs[j].source_path is Some
    &&& note_targets(chs, i).contains(components::components(source_text(chs[j])))
    &&& components::components(source_text(chs[j])) != components::components(source_text(chs[i]))
}

/// The chapters before `n` that link to chapter `j`, in book order.
pub open spec fn referrers(chs: Seq<BookChapter>, j: int, n: int) -> Seq<int>
    decreases n,
{
    if n <= 0 {
        Seq::empty()
    } else {
        referrers(chs, j, n - 1) + if links_to(chs, n - 1, j) {
            seq![n - 1]
        } else {
            Seq::empty()
        }
    }
}

pub open spec fn name_key(chs: Seq<BookChapter>, i: int) -> Seq<char> {
    trusted::lowercase(chs[i].name@)
}

/// Chapter `i` put into the list `sorted` (sorted by lowercased name): before
/// the first chapter whose name comes after its name, so after equal names.
pub open spec fn insert_by_name(chs: Seq<BookChapter>, sorted: Seq<int>, i: int) -> Seq<int>
    decreases sorted.len(),
{
    if sorted.len() == 0 {
        seq![i]
    } else if components::text_lt(name_key(chs, i), name_key(chs, sorted[0])) {
        seq![i] + sorted
    } else {
        seq![sorted[0]] + insert_by_name(chs, sorted.drop_first(), i)
    }
}

/// The chapters sorted by lowercased name, chapters with equal names in the given order.
pub open spec fn sort_by_name(chs: Seq<BookChapter>, ids: Seq<int>) -> Seq<int>
    decreases ids.len(),
{
    if ids.len() == 0 {
        Seq::empty()
    } else {
        insert_by_name(chs, sort_by_name(chs, ids.drop_last()), ids.last())
    }
}

/// `- [name](url)`: a link to chapter `i` from directory `from`.
pub open spec fn backlink_line(chs: Seq<BookChapter>, from: Seq<Seq<char>>, i: int) -> Seq<char> {
    "- ["@ + chs[i].name@ + "]("@ + spec_relative_url(from, components::components(source_text(chs[i]))) + ")\n"@
}

pub open spec fn backlink_lines(chs: Seq<BookChapter>, from: Seq<Seq<char>>, ids: Seq<int>) -> Seq<char>
    decreases ids.len(),
{
    if ids.len() == 0 {
        Seq::empty()
    } else {
        backlink_lines(chs, from, ids.drop_last()) + backlink_line(chs, from, ids.last())
    }
}

pub open spec fn section_header() -> Seq<char> {
    "\n\n---\n\n## Backlinks\n\n"@
}

/// The text appended to chapter `j`: when it is a note that other chapters
/// link to, a `## Backlinks` section listing them by lowercased name.
pub open spec fn spec_backlink_section(chs: Seq<BookChapter>, j: int) -> Option<Seq<char>> {
    let refs = referrers(chs, j, chs.len() as int);
    if is_note(chs[j]) && refs.len() > 0 {
        Some(section_header() + backlink_lines(chs, note_dir(chs[j]), sort_by_name(chs, refs)))
    } else {
        None
    }
}

pub open spec fn ids_view(v: Seq<usize>) -> Seq<int> {
    v.map_values(|x: usize| x as int)
}

pub open spec fn opt_text(o: Option<String>) -> Option<Seq<char>> {
    match o {
        Some(s) => Some(s@),
        None => None,
    }
}

fn parent_components_exec(src: &[char]) -> (res: Vec<Vec<char>>)
    ensures
        view_all(res@) == components::parent_components(src@),
{
    let mut cs = components_exec(src);
    let ghost g = view_all(cs@);
    if cs.len() > 0 {
        let last = cs.len() - 1;
        let is_root = cs[last].len() == 1 && cs[last][0] == '/';
        assert(is_root == (g.last() == components::root())) by {
            assert(g.last() == cs@[last as int]@);
            if is_root {
                assert(cs@[last as int]@ =~= components::root());
            }
        }
        if !is_root {
            cs.pop();
            assert(view_all(cs@) =~= g.drop_last());
        } else {
            let none: Vec<Vec<char>> = Vec::new();
            assert(view_all(none@) =~= Seq::<Seq<char>>::empty());
            return none;
        }
    }
    cs
}

proof fn lemma_referrers(chs: Seq<BookChapter>, j: int, n: int)
    ensures
        forall|q: int| #[trigger] referrers(chs, j, n).contains(q) <==> 0 <= q < n && links_to(chs, q, j),
    decreases n,
{
    if n > 0 {
        lemma_referrers(chs, j, n - 1);
        let prev = referrers(chs, j, n - 1);
        let cur = referrers(chs, j, n);
        assert forall|q: int| #[trigger] cur.contains(q) <==> 0 <= q < n && links_to(chs, q, j) by {
            if cur.contains(q) {
                let k = choose|k: int| 0 <= k < cur.len() && cur[k] == q;
                if k < prev.len() {
                    assert(prev.contains(q));
                }
            }
            if 0 <= q < n && links_to(chs, q, j) {
                if q < n - 1 {
                    assert(prev.contains(q));
                    let k = choose|k: int| 0 <= k < prev.len() && prev[k] == q;
                    assert(cur[k] == q);
                } else {
                    assert(cur[prev.len() as int] == q);
                }
            }
        }
    }
}

proof fn lemma_insert_by_name(chs: Seq<BookChapter>, sorted: Seq<int>, i: int)
    ensures
        forall|x: int| #[trigger] insert_by_name(chs, sorted, i).contains(x) ==> sorted.contains(x) || x == i,
    decreases sorted.len(),
{
    if sorted.len() > 0 {
        lemma_insert_by_name(chs, sorted.drop_first(), i);
        let r = insert_by_name(chs, sorted, i);
        assert forall|x: int| #[trigger] r.contains(x) implies sorted.contains(x) || x == i by {
            let k = choose|k: int| 0 <= k < r.len() && r[k] == x;
            if !components::text_lt(name_key(chs, i), name_key(chs, sorted[0])) {
                if k == 0 {
                    assert(sorted[0] == x);
                } else {
                    let rest = insert_by_name(chs, sorted.drop_first(), i);
                    assert(rest[k - 1] == x);
                    assert(rest.contains(x));
                    if sorted.drop_first().contains(x) {
                        let m = choose|m: int| 0 <= m < sorted.drop_first().len() && sorted.drop_first()[m] == x;
                        assert(sorted[m + 1] == x);
                    }
                }
            } else {
                if k > 0 {
                    assert(sorted[k - 1] == x);
                }
            }
        }
    }
}

proof fn lemma_sort_by_name(chs: Seq<BookChapter>, ids: Seq<int>)
    ensures
        forall|x: int| #[trigger] sort_by_name(chs, ids).contains(x) ==> ids.contains(x),
    decreases ids.len(),
{
    if ids.len() > 0 {
        lemma_sort_by_name(chs, ids.drop_last());
        lemma_insert_by_name(chs, sort_by_name(chs, ids.drop_last()), ids.last());
        assert forall|x: int| #[trigger] sort_by_name(chs, ids).contains(x) implies ids.contains(x) by {
            if sort_by_name(chs, ids.drop_last()).contains(x) {
                assert(ids.drop_last().contains(x));
                let m = choose|m: int| 0 <= m < ids.drop_last().len() && ids.drop_last()[m] == x;
                assert(ids[m] == x);
            } else {
                assert(ids[ids.len() - 1] == x);
            }
        }
    }
}

fn contains_path(v: &Vec<Vec<Vec<char>>>, x: &Vec<Vec<char>>) -> (r: bool)
    ensures
        r == paths_view(v@).contains(view_all(x@)),
{
    let mut i: usize = 0;
    while i < v.len()
        invariant
            i <= v@.len(),
            forall|j: int| 0 <= j < i ==> paths_view(v@)[j] != view_all(x@),
        decreases v@.len() - i,
    {
        if components_eq(&v[i], x) {
            assert(paths_view(v@)[i as int] == view_all(x@));
            return true;
        }
        i += 1;
    }
    false
}

fn insert_by_name_exec(sorted: &mut Vec<usize>, i: usize, keys: &Vec<Vec<char>>, Ghost(chs): Ghost<Seq<BookChapter>>)
    requires
        i < keys@.len(),
        forall|k: int| 0 <= k < old(sorted)@.len() ==> #[trigger] old(sorted)@[k] < keys@.len(),
        forall|k: int| 0 <= k < keys@.len() ==> #[trigger] keys@[k]@ == name_key(chs, k),
    ensures
        ids_view(final(sorted)@) == insert_by_name(chs, ids_view(old(sorted)@), i as int),
        forall|k: int| 0 <= k < final(sorted)@.len() ==> #[trigger] final(sorted)@[k] < keys@.len(),
{
    let ghost o = ids_view(sorted@);
    let mut k: usize = 0;
    assert(o.skip(0) =~= o);
    while k < sorted.len()
        invariant
            k <= sorted@.len(),
            o == ids_view(sorted@),
            o == ids_view(old(sorted)@),
            sorted@ == old(sorted)@,
            i < keys@.len(),
            forall|m: int| 0 <= m < sorted@.len() ==> #[trigger] sorted@[m] < keys@.len(),
            forall|m: int| 0 <= m < keys@.len() ==> #[trigger] keys@[m]@ == name_key(chs, m),
            insert_by_name(chs, o, i as int) == o.take(k as int) + insert_by_name(chs, o.skip(k as int), i as int),
        decreases sorted@.len() - k,
    {
        let sk = sorted[k];
        assert(o.skip(k as int)[0] == sk as int);
        if components::text_lt_exec(keys[i].as_slice(), keys[sk].as_slice()) {
            sorted.insert(k, i);
            assert(ids_view(sorted@) =~= o.take(k as int) + (seq![i as int] + o.skip(k as int)));
            return;
        }
        assert(o.skip(k as int).drop_first() =~= o.skip(k + 1));
        assert(o.take(k + 1) =~= o.take(k as int) + seq![o[k as int]]);
        k += 1;
    }
    assert(o.take(k as int) =~= o);
    assert(o.skip(k as int) =~= Seq::<int>::empty());
    sorted.push(i);
    assert(ids_view(sorted@) =~= o + seq![i as int]);
}

/// The text to append to each chapter (in book order): a `## Backlinks`
/// section for each note that other chapters link to.
pub fn backlink_sections(chapters: &Vec<BookChapter>) -> (res: Vec<Option<String>>)
    ensures
        res@.len() == chapters@.len(),
        forall|j: int| 0 <= j < res@.len() ==> #[trigger] opt_text(res@[j]) == spec_backlink_section(chapters@, j),
{
    let ghost chs = chapters@;
    let n = chapters.len();
    let idx = build_stem_index(chapters);
    let ghost lk = |k: Seq<char>| index_lookup(pairs_view(idx@), k);
    assert(lk =~= book_lookup(chs));
    let mut tgts: Vec<Vec<Vec<Vec<char>>>> = Vec::new();
    let mut srcs: Vec<Vec<Vec<char>>> = Vec::new();
    let mut dirs: Vec<Vec<Vec<char>>> = Vec::new();
    let mut notes: Vec<bool> = Vec::new();
    let mut keys: Vec<Vec<char>> = Vec::new();
    let mut i: usize = 0;
    while i < n
        invariant
            i <= n,
            n == chs.len(),
            chs == chapters@,
            lk == book_lookup(chs),
            lk == (|k: Seq<char>| index_lookup(pairs_view(idx@), k)),
            tgts@.len() == i,
            srcs@.len() == i,
            dirs@.len() == i,
            notes@.len() == i,
            keys@.len() == i,
            forall|k: int| 0 <= k < i ==> #[trigger] notes@[k] == is_note(chs[k]),
            forall|k: int| 0 <= k < i ==> #[trigger] keys@[k]@ == name_key(chs, k),
            forall|k: int| 0 <= k < i && chs[k].source_path is Some ==> #[trigger] view_all(srcs@[k]@) == components::components(source_text(chs[k])),
            forall|k: int| 0 <= k < i && is_note(chs[k]) ==> #[trigger] view_all(dirs@[k]@) == note_dir(chs[k]),
            forall|k: int| 0 <= k < i && is_note(chs[k]) ==> #[trigger] paths_view(tgts@[k]@) == note_targets(chs, k),
        decreases n - i,
    {
        let ch = &chapters[i];
        let low = to_lowercase(ch.name.as_str());
        keys.push(chars_of(low.as_str()));
        match &ch.source_path {
            Some(sp) => {
                let spv = chars_of(sp.as_str());
                srcs.push(components_exec(spv.as_slice()));
                let note = !is_excalidraw(sp.as_str());
                notes.push(note);
                if note {
                    let dir = parent_components_exec(spv.as_slice());
                    let cv = chars_of(ch.content.as_str());
                    tgts.push(targets_exec(cv.as_slice(), &dir, &idx));
                    dirs.push(dir);
                } else {
                    tgts.push(Vec::new());
                    dirs.push(Vec::new());
                }
            },
            None => {
                srcs.push(Vec::new());
                notes.push(false);
                tgts.push(Vec::new());
                dirs.push(Vec::new());
            },
        }
        i += 1;
    }
    let mut res: Vec<Option<String>> = Vec::new();
    let mut j: usize = 0;
    while j < n
        invariant
            j <= n,
            n == chs.len(),
            chs == chapters@,
            tgts@.len() == n,
            srcs@.len() == n,
            dirs@.len() == n,
            notes@.len() == n,
            keys@.len() == n,
            forall|k: int| 0 <= k < n ==> #[trigger] notes@[k] == is_note(chs[k]),
            forall|k: int| 0 <= k < n ==> #[trigger] keys@[k]@ == name_key(chs, k),
            forall|k: int| 0 <= k < n && chs[k].source_path is Some ==> #[trigger] view_all(srcs@[k]@) == components::components(source_text(chs[k])),
            forall|k: int| 0 <= k < n && is_note(chs[k]) ==> #[trigger] view_all(dirs@[k]@) == note_dir(chs[k]),
            forall|k: int| 0 <= k < n && is_note(chs[k]) ==> #[trigger] paths_view(tgts@[k]@) == note_targets(chs, k),
            res@.len() == j,
            forall|k: int| 0 <= k < j ==> #[trigger] opt_text(res@[k]) == spec_backlink_section(chs, k),
        decreases n - j,
    {
        if !notes[j] {
            res.push(None);
            assert(opt_text(res@[j as int]) == spec_backlink_section(chs, j as int));
        } else {
            let mut refs: Vec<usize> = Vec::new();
            let mut i: usize = 0;
            while i < n
                invariant
                    i <= n,
                    j < n,
                    n == chs.len(),
                    is_note(chs[j as int]),
                    notes@.len() == n,
                    srcs@.len() == n,
                    tgts@.len() == n,
                    forall|k: int| 0 <= k < n ==> #[trigger] notes@[k] == is_note(chs[k]),
                    forall|k: int| 0 <= k < n && chs[k].source_path is Some ==> #[trigger] view_all(srcs@[k]@) == components::components(source_text(chs[k])),
                    forall|k: int| 0 <= k < n && is_note(chs[k]) ==> #[trigger] paths_view(tgts@[k]@) == note_targets(chs, k),
                    ids_view(refs@) == referrers(chs, j as int, i as int),
                    forall|k: int| 0 <= k < refs@.len() ==> #[trigger] refs@[k] < n,
                decreases n - i,
            {
                let ghost before = ids_view(refs@);
                if notes[i] {
                    assert(view_all(srcs@[i as int]@) == components::components(source_text(chs[i as int])));
                    assert(view_all(srcs@[j as int]@) == components::components(source_text(chs[j as int])));
                    if contains_path(&tgts[i], &srcs[j]) && !components_eq(&srcs[j], &srcs[i]) {
                        refs.push(i);
                        assert(ids_view(refs@) =~= before + seq![i as int]);
                    } else {
                        assert(ids_view(refs@) =~= before + Seq::<int>::empty());
                    }
                } else {
                    assert(ids_view(refs@) =~= before + Seq::<int>::empty());
                }
                i += 1;
            }
            if refs.len() == 0 {
                res.push(None);
                assert(opt_text(res@[j as int]) == spec_backlink_section(chs, j as int));
            } else {
                let ghost rv = ids_view(refs@);
                let mut sorted: Vec<usize> = Vec::new();
                let mut k: usize = 0;
                assert(rv.take(0) =~= Seq::<int>::empty());
                assert(ids_view(sorted@) =~= Seq::<int>::empty());
                while k < refs.len()
                    invariant
                        k <= refs@.len(),
                        rv == ids_view(refs@),
                        keys@.len() == n,
                        forall|m: int| 0 <= m < refs@.len() ==> #[trigger] refs@[m] < n,
                        forall|m: int| 0 <= m < sorted@.len() ==> #[trigger] sorted@[m] < n,
                        forall|m: int| 0 <= m < n ==> #[trigger] keys@[m]@ == name_key(chs, m),
                        ids_view(sorted@) == sort_by_name(chs, rv.take(k as int)),
                        rv == referrers(chs, j as int, n as int),
                    decreases refs@.len() - k,
                {
                    assert(rv.take(k + 1).drop_last() =~= rv.take(k as int));
                    assert(rv.take(k + 1).last() == refs@[k as int] as int);
                    insert_by_name_exec(&mut sorted, refs[k], &keys, Ghost(chs));
                    k += 1;
                }
                assert(rv.take(refs@.len() as int) =~= rv);
                let ghost sv = ids_view(sorted@);
                proof {
                    lemma_referrers(chs, j as int, n as int);
                    lemma_sort_by_name(chs, rv);
                    assert forall|q: int| 0 <= q < sv.len() implies #[trigger] links_to(chs, sv[q], j as int) by {
                        assert(sv.contains(sv[q]));
                        assert(rv.contains(sv[q]));
                    }
                }
                let ghost from = note_dir(chs[j as int]);
                assert(view_all(dirs@[j as int]@) == from);
                let mut out: Vec<char> = Vec::new();
                push_str(&mut out, "\n\n---\n\n## Backlinks\n\n");
                let mut m: usize = 0;
                assert(sv.take(0) =~= Seq::<int>::empty());
                while m < sorted.len()
                    invariant
                        m <= sorted@.len(),
                        sv == ids_view(sorted@),
                        srcs@.len() == n,
                        n == chs.len(),
                        chs == chapters@,
                        from == view_all(dirs@[j as int]@),
                        j < n,
                        dirs@.len() == n,
                        forall|q: int| 0 <= q < sorted@.len() ==> #[trigger] sorted@[q] < n,
                        forall|k: int| 0 <= k < n && chs[k].source_path is Some ==> #[trigger] view_all(srcs@[k]@) == components::components(source_text(chs[k])),
                        forall|q: int| 0 <= q < n ==> #[trigger] links_to(chs, q, j as int) ==> chs[q].source_path is Some,
                        forall|q: int| 0 <= q < sv.len() ==> #[trigger] links_to(chs, sv[q], j as int),
                        out@ == section_header() + backlink_lines(chs, from, sv.take(m as int)),
                    decreases sorted@.len() - m,
                {
                    let r = sorted[m];
                    assert(links_to(chs, sv[m as int], j as int));
                    assert(chs[r as int].source_path is Some);
                    let url = relative_url_exec(&dirs[j], &srcs[r]);
                    let ghost before = out@;
                    push_str(&mut out, "- [");
                    push_str(&mut out, chapters[r].name.as_str());
                    push_str(&mut out, "](");
                    push_all(&mut out, url.as_slice());
                    push_str(&mut out, ")\n");
                    assert(sv.take(m + 1).drop_last() =~= sv.take(m as int));
                    assert(sv.take(m + 1).last() == r as int);
                    assert(out@ =~= before + backlink_line(chs, from, r as int));
                    m += 1;
                }
                assert(sv.take(sorted@.len() as int) =~= sv);
                res.push(Some(string_of(out.as_slice())));
                assert(opt_text(res@[j as int]) == spec_backlink_section(chs, j as int));
            }
        }
        j += 1;
    }
    res
}

/// The chapters come in order of their lowercased names.
pub open spec fn sorted_by_name(chs: Seq<BookChapter>, ids: Seq<int>) -> bool {
    forall|a: int, b: int| 0 <= a < b < ids.len() ==> !components::text_lt(name_key(chs, #[trigger] ids[b]), name_key(chs, #[trigger] ids[a]))
}

proof fn lemma_insert_by_name_sorted(chs: Seq<BookChapter>, s: Seq<int>, x: int)
    requires
        sorted_by_name(chs, s),
    ensures
        sorted_by_name(chs, insert_by_name(chs, s, x)),
        forall|y: int| #[trigger] insert_by_name(chs, s, x).contains(y) <==> s.contains(y) || y == x,
    decreases s.len(),
{
    let r = insert_by_name(chs, s, x);
    if s.len() == 0 {
        assert(r =~= seq![x]);
        assert forall|y: int| #[trigger] r.contains(y) <==> s.contains(y) || y == x by {
            if y == x {
                assert(r[0] == x);
            }
        }
    } else if components::text_lt(name_key(chs, x), name_key(chs, s[0])) {
        assert(r == seq![x] + s);
        assert forall|a: int, b: int| 0 <= a < b < r.len() implies !components::text_lt(name_key(chs, #[trigger] r[b]), name_key(chs, #[trigger] r[a])) by {
            if a == 0 {
                assert(r[b] == s[b - 1]);
                components::lemma_text_lt_order(name_key(chs, s[b - 1]), name_key(chs, x), name_key(chs, s[0]));
                components::lemma_text_lt_order(name_key(chs, s[0]), name_key(chs, s[0]), name_key(chs, s[0]));
                if b - 1 > 0 {
                    assert(!components::text_lt(name_key(chs, s[b - 1]), name_key(chs, s[0])));
                }
            } else {
                assert(r[a] == s[a - 1] && r[b] == s[b - 1]);
            }
        }
        assert forall|y: int| #[trigger] r.contains(y) <==> s.contains(y) || y == x by {
            if r.contains(y) {
                let k = choose|k: int| 0 <= k < r.len() && r[k] == y;
                if k > 0 {
                    assert(s[k - 1] == y);
                }
            }
            if s.contains(y) {
                let k = choose|k: int| 0 <= k < s.len() && s[k] == y;
                assert(r[k + 1] == y);
            }
            if y == x {
                assert(r[0] == x);
            }
        }
    } else {
        let rest = s.drop_first();
        assert(sorted_by_name(chs, rest)) by {
            assert forall|a: int, b: int| 0 <= a < b < rest.len() implies !components::text_lt(name_key(chs, #[trigger] rest[b]), name_key(chs, #[trigger] rest[a])) by {
                assert(rest[a] == s[a + 1] && rest[b] == s[b + 1]);
            }
        }
        lemma_insert_by_name_sorted(chs, rest, x);
        let ir = insert_by_name(chs, rest, x);
        assert(r == seq![s[0]] + ir);
        assert forall|a: int, b: int| 0 <= a < b < r.len() implies !components::text_lt(name_key(chs, #[trigger] r[b]), name_key(chs, #[trigger] r[a])) by {
            if a == 0 {
                assert(r[b] == ir[b - 1]);
                assert(ir.contains(ir[b - 1]));
                if rest.contains(ir[b - 1]) {
                    let k = choose|k: int| 0 <= k < rest.len() && rest[k] == ir[b - 1];
                    assert(s[k + 1] == ir[b - 1]);
                }
            } else {
                assert(r[a] == ir[a - 1] && r[b] == ir[b - 1]);
            }
        }
        assert forall|y: int| #[trigger] r.contains(y) <==> s.contains(y) || y == x by {
            if r.contains(y) {
                let k = choose|k: int| 0 <= k < r.len() && r[k] == y;
                if k > 0 {
                    assert(ir[k - 1] == y);
                    assert(ir.contains(y));
                    if rest.contains(y) {
                        let m = choose|m: int| 0 <= m < rest.len() && rest[m] == y;
                        assert(s[m + 1] == y);
                    }
                } else {
                    assert(s[0] == y);
                }
            }
            if s.contains(y) {
                let k = choose|k: int| 0 <= k < s.len() && s[k] == y;
                if k == 0 {
                    assert(r[0] == y);
                } else {
                    assert(rest[k - 1] == y);
                    assert(rest.contains(y));
                    assert(ir.contains(y));
                    let m = choose|m: int| 0 <= m < ir.len() && ir[m] == y;
                    assert(r[m + 1] == y);
                }
            }
            if y == x {
                assert(ir.contains(x));
                let m = choose|m: int| 0 <= m < ir.len() && ir[m] == x;
                assert(r[m + 1] == x);
            }
        }
    }
}

proof fn lemma_sort_by_name_sorted(chs: Seq<BookChapter>, ids: Seq<int>)
    ensures
        sorted_by_name(chs, sort_by_name(chs, ids)),
        forall|y: int| #[trigger] sort_by_name(chs, ids).contains(y) <==> ids.contains(y),
    decreases ids.len(),
{
    if ids.len() == 0 {
        assert(sort_by_name(chs, ids) =~= Seq::<int>::empty());
    } else {
        lemma_sort_by_name_sorted(chs, ids.drop_last());
        lemma_insert_by_name_sorted(chs, sort_by_name(chs, ids.drop_last()), ids.last());
        assert forall|y: int| #[trigger] sort_by_name(chs, ids).contains(y) <==> ids.contains(y) by {
            if ids.drop_last().contains(y) {
                let m = choose|m: int| 0 <= m < ids.drop_last().len() && ids.drop_last()[m] == y;
                assert(ids[m] == y);
            }
            if ids.contains(y) {
                let m = choose|m: int| 0 <= m < ids.len() && ids[m] == y;
                if m < ids.len() - 1 {
                    assert(ids.drop_last()[m] == y);
                }
            }
            assert(ids.last() == ids[ids.len() - 1]);
        }
    }
}

proof fn lemma_insert_by_name_distinct(chs: Seq<BookChapter>, s: Seq<int>, x: int)
    requires
        s.no_duplicates(),
        !s.contains(x),
    ensures
        insert_by_name(chs, s, x).no_duplicates(),
    decreases s.len(),
{
    let r = insert_by_name(chs, s, x);
    if s.len() == 0 {
        assert(r =~= seq![x]);
    } else if components::text_lt(name_key(chs, x), name_key(chs, s[0])) {
        assert(r =~= seq![x] + s);
        assert forall|a: int, b: int| 0 <= a < r.len() && 0 <= b < r.len() && a != b implies r[a] != r[b] by {
            if a == 0 {
                assert(s.contains(r[b]) || b == 0) by {
                    if b > 0 {
                        assert(s[b - 1] == r[b]);
                    }
                }
            } else if b == 0 {
                assert(s[a - 1] == r[a]);
            }
        }
    } else {
        let rest = s.drop_first();
        assert(rest.no_duplicates());
        assert(!rest.contains(x)) by {
            if rest.contains(x) {
                let k = choose|k: int| 0 <= k < rest.len() && rest[k] == x;
                assert(s[k + 1] == x);
            }
        }
        lemma_insert_by_name_distinct(chs, rest, x);
        lemma_insert_by_name(chs, rest, x);
        let ir = insert_by_name(chs, rest, x);
        assert(r =~= seq![s[0]] + ir);
        assert(!ir.contains(s[0])) by {
            if ir.contains(s[0]) {
                if rest.contains(s[0]) {
                    let k = choose|k: int| 0 <= k < rest.len() && rest[k] == s[0];
                    assert(s[k + 1] == s[0]);
                } else {
                    assert(s[0] == x);
                    assert(s.contains(x));
                }
            }
        }
        assert forall|a: int, b: int| 0 <= a < r.len() && 0 <= b < r.len() && a != b implies r[a] != r[b] by {
            if a == 0 {
                assert(r[b] == ir[b - 1]);
            } else if b == 0 {
                assert(r[a] == ir[a - 1]);
            } else {
                assert(r[a] == ir[a - 1] && r[b] == ir[b - 1]);
            }
        }
    }
}

proof fn lemma_sort_by_name_distinct(chs: Seq<BookChapter>, ids: Seq<int>)
    requires
        ids.no_duplicates(),
    ensures
        sort_by_name(chs, ids).no_duplicates(),
    decreases ids.len(),
{
    if ids.len() > 0 {
        let d = ids.drop_last();
        assert(d.no_duplicates());
        lemma_sort_by_name_distinct(chs, d);
        lemma_sort_by_name_sorted(chs, d);
        assert(!d.contains(ids.last())) by {
            if d.contains(ids.last()) {
                let k = choose|k: int| 0 <= k < d.len() && d[k] == ids.last();
                assert(ids[k] == ids[ids.len() - 1]);
            }
        }
        lemma_insert_by_name_distinct(chs, sort_by_name(chs, d), ids.last());
    }
}

proof fn lemma_referrers_distinct(chs: Seq<BookChapter>, j: int, n: int)
    ensures
        referrers(chs, j, n).no_duplicates(),
    decreases n,
{
    if n > 0 {
        lemma_referrers_distinct(chs, j, n - 1);
        lemma_referrers(chs, j, n - 1);
        let p = referrers(chs, j, n - 1);
        let r = referrers(chs, j, n);
        if links_to(chs, n - 1, j) {
            assert(r =~= p.push(n - 1));
            assert forall|a: int, b: int| 0 <= a < r.len() && 0 <= b < r.len() && a != b implies r[a] != r[b] by {
                if a == p.len() {
                    assert(p.contains(r[b]));
                } else if b == p.len() {
                    assert(p.contains(r[a]));
                }
            }
        } else {
            assert(r =~= p);
        }
    }
}

/// The backlinks section of a chapter lists exactly the other chapters that
/// link to it, each once, in order of their lowercased names.
pub proof fn law_backlinks_in_name_order(chs: Seq<BookChapter>, j: int)
    ensures
        sorted_by_name(chs, sort_by_name(chs, referrers(chs, j, chs.len() as int))),
        forall|i: int| #[trigger] sort_by_name(chs, referrers(chs, j, chs.len() as int)).contains(i)
            <==> 0 <= i < chs.len() && links_to(chs, i, j),
        sort_by_name(chs, referrers(chs, j, chs.len() as int)).no_duplicates(),
{
    lemma_referrers(chs, j, chs.len() as int);
    lemma_sort_by_name_sorted(chs, referrers(chs, j, chs.len() as int));
    lemma_referrers_distinct(chs, j, chs.len() as int);
    lemma_sort_by_name_distinct(chs, referrers(chs, j, chs.len() as int));
}

/// Drawings take no part in backlinks: a drawing's page gets no section and
/// is never listed in another chapter's section; and a chapter that no other
/// chapter links to gets no section either.
pub proof fn law_drawings_have_no_backlinks(chs: Seq<BookChapter>, j: int)
    requires
        0 <= j < chs.len(),
    ensures
        chs[j].source_path matches Some(s) && drawing_links::is_drawing_url(s@) ==> spec_backlink_section(chs, j) is None,
        forall|i: int| #[trigger] referrers(chs, j, chs.len() as int).contains(i) ==> is_note(chs[i]),
        (forall|i: int| 0 <= i < chs.len() ==> !#[trigger] links_to(chs, i, j)) ==> spec_backlink_section(chs, j) is None,
{
    lemma_referrers(chs, j, chs.len() as int);
    if forall|i: int| 0 <= i < chs.len() ==> !#[trigger] links_to(chs, i, j) {
        let refs = referrers(chs, j, chs.len() as int);
        if refs.len() > 0 {
            assert(refs.contains(refs[0]));
        }
    }
}

proof fn lemma_fence_before_insert(ls: Seq<Seq<char>>, p: int, l: Seq<char>, k: int)
    requires
        0 <= p <= ls.len(),
        0 <= k <= ls.len() + 1,
        !lines::is_fence_line(l),
    ensures
        k <= p ==> lines::fence_before(ls.insert(p, l), k) == lines::fence_before(ls, k),
        k > p ==> lines::fence_before(ls.insert(p, l), k) == lines::fence_before(ls, k - 1),
    decreases k,
{
    let ls2 = ls.insert(p, l);
    if k > 0 {
        lemma_fence_before_insert(ls, p, l, k - 1);
        if k - 1 < p {
            assert(ls2[k - 1] == ls[k - 1]);
        } else if k - 1 == p {
            assert(ls2[p] == l);
        } else {
            assert(ls2[k - 1] == ls[k - 2]);
        }
    }
}

proof fn lemma_targets_insert(
    ls: Seq<Seq<char>>,
    p: int,
    l: Seq<char>,
    n: int,
    dir: Seq<Seq<char>>,
    lookup: spec_fn(Seq<char>) -> Option<Seq<char>>,
)
    requires
        0 <= p <= ls.len(),
        0 <= n <= ls.len() + 1,
        !lines::is_fence_line(l),
        lines::fence_before(ls, p) is Some || line_targets(l, dir, lookup).len() == 0,
    ensures
        n <= p ==> lines_targets(ls.insert(p, l), n, dir, lookup) == lines_targets(ls, n, dir, lookup),
        n > p ==> lines_targets(ls.insert(p, l), n, dir, lookup) == lines_targets(ls, n - 1, dir, lookup),
    decreases n,
{
    let ls2 = ls.insert(p, l);
    if n > 0 {
        lemma_targets_insert(ls, p, l, n - 1, dir, lookup);
        lemma_fence_before_insert(ls, p, l, n - 1);
        if n - 1 < p {
            assert(ls2[n - 1] == ls[n - 1]);
        } else if n - 1 == p {
            assert(ls2[p] == l);
            assert(lines_targets(ls2, n, dir, lookup) =~= lines_targets(ls2, n - 1, dir, lookup));
        } else {
            assert(ls2[n - 1] == ls[n - 2]);
        }
    }
}

/// Lines that give no link target can come and go without changing a
/// chapter's targets: a line that is not a fence line, put anywhere inside a
/// fenced code block or holding no link to a chapter (only images, embeds,
/// drawing wikilinks, external links or none), leaves the targets as they were.
pub proof fn law_targets_ignore_code_and_images(
    ls: Seq<Seq<char>>,
    p: int,
    l: Seq<char>,
    dir: Seq<Seq<char>>,
    lookup: spec_fn(Seq<char>) -> Option<Seq<char>>,
)
    requires
        0 <= p <= ls.len(),
        !lines::is_fence_line(l),
        lines::fence_before(ls, p) is Some || line_targets(l, dir, lookup).len() == 0,
    ensures
        lines_targets(ls.insert(p, l), ls.len() as int + 1, dir, lookup) == lines_targets(ls, ls.len() as int, dir, lookup),
{
    lemma_targets_insert(ls, p, l, ls.len() as int + 1, dir, lookup);
}

/// The name part of a wikilink (before any `#` or `|`).
pub open spec fn wiki_name(s: Seq<char>, w: links::WikiLink) -> Seq<char> {
    w.inner(s).take(name_len(w.inner(s)) as int)
}

/// A line whose only links are images, embeds and wikilinks to drawings
/// gives no target.
pub proof fn law_image_links_give_no_targets(
    line: Seq<char>,
    dir: Seq<Seq<char>>,
    lookup: spec_fn(Seq<char>) -> Option<Seq<char>>,
)
    requires
        forall|q: int| #[trigger] links::next_md_link(line, q) matches Some(m) ==> m.bang,
        forall|q: int| #[trigger] next_named_wiki(line, q) matches Some(w) ==> w.bang
            || text::ends_with(text::trim(wiki_name(line, w)), drawing_links::ext()),
    ensures
        line_targets(line, dir, lookup).len() == 0,
{
    lemma_md_targets_images(line, 0, dir);
    lemma_wiki_targets_embeds(line, 0, lookup);
}

proof fn lemma_md_targets_images(s: Seq<char>, p: int, dir: Seq<Seq<char>>)
    requires
        forall|q: int| #[trigger] links::next_md_link(s, q) matches Some(m) ==> m.bang,
    ensures
        md_targets_from(s, p, dir).len() == 0,
    decreases s.len() - p,
{
    if let Some(m) = links::next_md_link(s, p) {
        links::lemma_next_md_link(s, p);
        assert(links::next_md_link(s, p) matches Some(m) ==> m.bang);
        lemma_md_targets_images(s, m.end(), dir);
    }
}

proof fn lemma_wiki_targets_embeds(s: Seq<char>, p: int, lookup: spec_fn(Seq<char>) -> Option<Seq<char>>)
    requires
        forall|q: int| #[trigger] next_named_wiki(s, q) matches Some(w) ==> w.bang
            || text::ends_with(text::trim(wiki_name(s, w)), drawing_links::ext()),
    ensures
        wiki_targets_from(s, p, lookup).len() == 0,
    decreases s.len() - p,
{
    if let Some(w) = next_named_wiki(s, p) {
        lemma_next_named_wiki(s, p);
        assert(w.bang || text::ends_with(text::trim(wiki_name(s, w)), drawing_links::ext()));
        lemma_wiki_targets_embeds(s, w.end(), lookup);
    }
}

/// Deleting a line that is not a fence line and either lies inside a fenced
/// code block or holds no link to a chapter leaves the targets as they were.
pub proof fn law_targets_ignore_deleted_lines(
    ls: Seq<Seq<char>>,
    p: int,
    dir: Seq<Seq<char>>,
    lookup: spec_fn(Seq<char>) -> Option<Seq<char>>,
)
    requires
        0 <= p < ls.len(),
        !lines::is_fence_line(ls[p]),
        lines::fence_before(ls, p) is Some || line_targets(ls[p], dir, lookup).len() == 0,
    ensures
        lines_targets(ls.remove(p), ls.len() - 1, dir, lookup) == lines_targets(ls, ls.len() as int, dir, lookup),
{
    let r = ls.remove(p);
    assert(r.insert(p, ls[p]) =~= ls);
    lemma_fence_before_prefix(ls, r, p);
    lemma_targets_insert(r, p, ls[p], r.len() as int + 1, dir, lookup);
}

proof fn lemma_fence_before_prefix(a: Seq<Seq<char>>, b: Seq<Seq<char>>, k: int)
    requires
        0 <= k <= a.len(),
        k <= b.len(),
        forall|i: int| 0 <= i < k ==> a[i] == b[i],
    ensures
        lines::fence_before(a, k) == lines::fence_before(b, k),
    decreases k,
{
    if k > 0 {
        lemma_fence_before_prefix(a, b, k - 1);
    }
}

/// What the backlinks pass appends to chapter `j`: its section, or nothing.
pub open spec fn appended_section(chs: Seq<BookChapter>, j: int) -> Seq<char> {
    match spec_backlink_section(chs, j) {
        Some(s) => s,
        None => Seq::empty(),
    }
}

fn copy_text(s: &String) -> (res: String)
    ensures
        res@ == s@,
{
    string_of(chars_of(s.as_str()).as_slice())
}

/// The backlinks pass over the book's chapters (in book order): every
/// chapter keeps its name and source, and its content gets its backlinks
/// section appended (nothing when it has none).
pub fn add_backlinks(chapters: &Vec<BookChapter>) -> (res: Vec<BookChapter>)
    ensures
        res@.len() == chapters@.len(),
        forall|j: int| 0 <= j < res@.len() ==> {
            &&& (#[trigger] res@[j]).name@ == chapters@[j].name@
            &&& opt_text(res@[j].source_path) == opt_text(chapters@[j].source_path)
            &&& res@[j].content@ == chapters@[j].content@ + appended_section(chapters@, j)
        },
{
    let sections = backlink_sections(chapters);
    let mut out: Vec<BookChapter> = Vec::new();
    let mut j: usize = 0;
    while j < chapters.len()
        invariant
            j <= chapters@.len(),
            sections@.len() == chapters@.len(),
            forall|k: int| 0 <= k < sections@.len() ==> #[trigger] opt_text(sections@[k]) == spec_backlink_section(chapters@, k),
            out@.len() == j,
            forall|k: int| 0 <= k < j ==> {
                &&& (#[trigger] out@[k]).name@ == chapters@[k].name@
                &&& opt_text(out@[k].source_path) == opt_text(chapters@[k].source_path)
                &&& out@[k].content@ == chapters@[k].content@ + appended_section(chapters@, k)
            },
        decreases chapters@.len() - j,
    {
        let c = &chapters[j];
        let mut content: Vec<char> = chars_of(c.content.as_str());
        match &sections[j] {
            Some(s) => {
                assert(opt_text(sections@[j as int]) == Some(s@));
                push_str(&mut content, s.as_str());
            },
            None => {
                assert(content@ =~= c.content@ + Seq::<char>::empty());
            },
        }
        let source_path = match &c.source_path {
            Some(p) => Some(copy_text(p)),
            None => None,
        };
        let e = BookChapter { name: copy_text(&c.name), source_path, content: string_of(content.as_slice()) };
        out.push(e);
        j += 1;
    }
    out
}

/// The chapters a backlinks section lists come in order of their names
/// lowercased (so `apple` before `Zebra`): no later one's lowercased name
/// comes before an earlier one's.
pub proof fn law_backlinks_case_insensitive_order(chs: Seq<BookChapter>, j: int)
    ensures
        forall|a: int, b: int|
            0 <= a < b < sort_by_name(chs, referrers(chs, j, chs.len() as int)).len() ==> !components::text_lt(
                trusted::lowercase(chs[#[trigger] sort_by_name(chs, referrers(chs, j, chs.len() as int))[b]].name@),
                trusted::lowercase(chs[#[trigger] sort_by_name(chs, referrers(chs, j, chs.len() as int))[a]].name@),
            ),
{
    lemma_sort_by_name_sorted(chs, referrers(chs, j, chs.len() as int));
}

/// The paths come in strictly increasing path order (so each once).
pub open spec fn strictly_sorted(ps: Seq<Seq<Seq<char>>>) -> bool {
    forall|a: int, b: int| 0 <= a < b < ps.len() ==> components::components_lt(#[trigger] ps[a], #[trigger] ps[b])
}

proof fn lemma_insert_path_sorted(s: Seq<Seq<Seq<char>>>, x: Seq<Seq<char>>)
    requires
        strictly_sorted(s),
    ensures
        strictly_sorted(insert_path(s, x)),
        forall|y: Seq<Seq<char>>| #[trigger] insert_path(s, x).contains(y) <==> s.contains(y) || y == x,
    decreases s.len(),
{
    let r = insert_path(s, x);
    if s.len() == 0 {
        assert(r =~= seq![x]);
        assert forall|y: Seq<Seq<char>>| #[trigger] r.contains(y) <==> s.contains(y) || y == x by {
            if y == x {
                assert(r[0] == x);
            }
        }
    } else if s[0] == x {
        assert forall|y: Seq<Seq<char>>| #[trigger] r.contains(y) <==> s.contains(y) || y == x by {
            if y == x {
                assert(s[0] == x);
            }
        }
    } else if components::components_lt(x, s[0]) {
        assert(r == seq![x] + s);
        assert forall|a: int, b: int| 0 <= a < b < r.len() implies components::components_lt(#[trigger] r[a], #[trigger] r[b]) by {
            if a == 0 {
                assert(r[b] == s[b - 1]);
                if b - 1 > 0 {
                    components::lemma_components_lt_order(x, s[0], s[b - 1]);
                }
            } else {
                assert(r[a] == s[a - 1] && r[b] == s[b - 1]);
            }
        }
        assert forall|y: Seq<Seq<char>>| #[trigger] r.contains(y) <==> s.contains(y) || y == x by {
            if r.contains(y) {
                let k = choose|k: int| 0 <= k < r.len() && r[k] == y;
                if k > 0 {
                    assert(s[k - 1] == y);
                }
            }
            if s.contains(y) {
                let k = choose|k: int| 0 <= k < s.len() && s[k] == y;
                assert(r[k + 1] == y);
            }
            if y == x {
                assert(r[0] == x);
            }
        }
    } else {
        components::lemma_components_lt_order(x, s[0], x);
        assert(components::components_lt(s[0], x));
        let rest = s.drop_first();
        assert(strictly_sorted(rest)) by {
            assert forall|a: int, b: int| 0 <= a < b < rest.len() implies components::components_lt(#[trigger] rest[a], #[trigger] rest[b]) by {
                assert(rest[a] == s[a + 1] && rest[b] == s[b + 1]);
            }
        }
        lemma_insert_path_sorted(rest, x);
        let ir = insert_path(rest, x);
        assert(r == seq![s[0]] + ir);
        assert forall|a: int, b: int| 0 <= a < b < r.len() implies components::components_lt(#[trigger] r[a], #[trigger] r[b]) by {
            if a == 0 {
                assert(r[b] == ir[b - 1]);
                assert(ir.contains(ir[b - 1]));
                if rest.contains(ir[b - 1]) {
                    let k = choose|k: int| 0 <= k < rest.len() && rest[k] == ir[b - 1];
                    assert(s[k + 1] == ir[b - 1]);
                }
            } else {
                assert(r[a] == ir[a - 1] && r[b] == ir[b - 1]);
            }
        }
        assert forall|y: Seq<Seq<char>>| #[trigger] r.contains(y) <==> s.contains(y) || y == x by {
            if r.contains(y) {
                let k = choose|k: int| 0 <= k < r.len() && r[k] == y;
                if k > 0 {
                    assert(ir[k - 1] == y);
                    assert(ir.contains(y));
                    if rest.contains(y) {
                        let m = choose|m: int| 0 <= m < rest.len() && rest[m] == y;
                        assert(s[m + 1] == y);
                    }
                } else {
                    assert(s[0] == y);
                }
            }
            if s.contains(y) {
                let k = choose|k: int| 0 <= k < s.len() && s[k] == y;
                if k == 0 {
                    assert(r[0] == y);
                } else {
                    assert(rest[k - 1] == y);
                    assert(rest.contains(y));
                    assert(ir.contains(y));
                    let m = choose|m: int| 0 <= m < ir.len() && ir[m] == y;
                    assert(r[m + 1] == y);
                }
            }
            if y == x {
                assert(ir.contains(x));
                let m = choose|m: int| 0 <= m < ir.len() && ir[m] == x;
                assert(r[m + 1] == x);
            }
        }
    }
}

/// The link targets of a chapter come in strictly increasing path order,
/// each once, and are exactly the paths its links point to.
pub proof fn law_targets_sorted_once(xs: Seq<Seq<Seq<char>>>)
    ensures
        strictly_sorted(sort_paths(xs)),
        forall|y: Seq<Seq<char>>| #[trigger] sort_paths(xs).contains(y) <==> xs.contains(y),
    decreases xs.len(),
{
    if xs.len() == 0 {
        assert(sort_paths(xs) =~= Seq::<Seq<Seq<char>>>::empty());
    } else {
        law_targets_sorted_once(xs.drop_last());
        lemma_insert_path_sorted(sort_paths(xs.drop_last()), xs.last());
        assert forall|y: Seq<Seq<char>>| #[trigger] sort_paths(xs).contains(y) <==> xs.contains(y) by {
            if xs.drop_last().contains(y) {
                let m = choose|m: int| 0 <= m < xs.drop_last().len() && xs.drop_last()[m] == y;
                assert(xs[m] == y);
            }
            if xs.contains(y) {
                let m = choose|m: int| 0 <= m < xs.len() && xs[m] == y;
                if m < xs.len() - 1 {
                    assert(xs.drop_last()[m] == y);
                }
            }
            assert(xs.last() == xs[xs.len() - 1]);
        }
    }
}

} // verus!

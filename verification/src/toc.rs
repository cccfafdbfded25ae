//! The generated table of contents: markdown files of the source directory
//! that `SUMMARY.md` does not list become chapters, laid out by directory,
//! numbered after the book's numbered chapters, and listed in place of the
//! placeholder comment wherever a chapter holds it.
use vstd::prelude::*;
use crate::backlinks::opt_text;
use crate::components::{self, components_eq, components_exec, view_all};
use crate::excalidraw::links::{self as drawing_links};
use crate::paths::{self, file_name_exec};
use crate::text::{self, chars_of, find_from_exec, push_all, push_str, slice_vec, string_of, trim_vec};
use crate::trusted::{self, url_decode};

mod order;
pub use order::{select_uncovered, TocSort};

verus! {

/// The comment that marks where the generated table of contents goes.
pub const TOC_PLACEHOLDER: &'static str = "<!-- mdbook-obsidian toc -->";

/// A chapter's content with the placeholder replaced by the table of contents.
pub open spec fn spec_fill_placeholder(content: Seq<char>, toc: Seq<char>) -> Seq<char> {
    text::replace_from(content, TOC_PLACEHOLDER@, toc, 0)
}

/// Replaces every placeholder in a chapter's content by the table of contents.
pub fn fill_placeholder(content: &str, toc: &str) -> (res: String)
    ensures
        res@ == spec_fill_placeholder(content@, toc@),
{
    let cv = chars_of(content);
    let c = cv.as_slice();
    let pv = chars_of(TOC_PLACEHOLDER);
    let pat = pv.as_slice();
    assert(pat@.len() > 0) by {
        reveal_strlit("<!-- mdbook-obsidian toc -->");
    }
    let tv = chars_of(toc);
    let mut out: Vec<char> = Vec::new();
    let mut p: usize = 0;
    loop
        invariant
            p <= c.len(),
            pat@ == TOC_PLACEHOLDER@,
            pat@.len() > 0,
            tv@ == toc@,
            c@ == content@,
            spec_fill_placeholder(content@, toc@) == out@ + text::replace_from(c@, pat@, tv@, p as int),
        decreases c.len() - p,
    {
        match find_from_exec(c, p, pat) {
            None => {
                push_all(&mut out, &c[p..c.len()]);
                return string_of(out.as_slice());
            },
            Some(k) => {
                proof {
                    text::lemma_find_from_some(c@, pat@, p as int);
                }
                assert(k + pat@.len() <= c@.len());
                let ghost before = out@;
                push_all(&mut out, &c[p..k]);
                push_all(&mut out, tv.as_slice());
                assert(out@ =~= before + c@.subrange(p as int, k as int) + tv@);
                p = k + pat.len();
            },
        }
    }
}

/// A link `](path.md)` at `q` of `SUMMARY.md`: the position of the `)`;
/// the path is everything up to the first `)` and ends with `.md` after at
/// least one character.
pub open spec fn md_ref_at(s: Seq<char>, q: int) -> Option<int> {
    if 0 <= q && q + 1 < s.len() && s[q] == ']' && s[q + 1] == '(' {
        match text::find_from(s, seq![')'], q + 2) {
            Some(u) => if u - (q + 2) >= 4 && text::ends_with(s.subrange(q + 2, u), ".md"@) {
                Some(u)
            } else {
                None
            },
            None => None,
        }
    } else {
        None
    }
}

/// The paths of the `](path.md)` links of `s[p..]`, leftmost first, without overlap.
pub open spec fn md_refs_from(s: Seq<char>, p: int) -> Seq<Seq<char>>
    decreases s.len() - p via md_refs_from_decreases
{
    if p < 0 || p >= s.len() {
        Seq::empty()
    } else {
        match md_ref_at(s, p) {
            Some(u) => seq![s.subrange(p + 2, u)] + md_refs_from(s, u + 1),
            None => md_refs_from(s, p + 1),
        }
    }
}

#[via_fn]
proof fn md_refs_from_decreases(s: Seq<char>, p: int) {
    if md_ref_at(s, p) is Some {
        lemma_md_ref_at(s, p);
    }
}

/// A linked path as listed: trimmed and percent-decoded (empty when it does not decode).
pub open spec fn listed_path(raw: Seq<char>) -> Seq<Seq<char>> {
    components::components(
        match trusted::url_decoded(text::trim(raw)) {
            Some(d) => d,
            None => Seq::empty(),
        },
    )
}

/// Some chapter source among `listed` (as paths).
pub open spec fn is_listed(listed: Seq<Seq<char>>, src: Seq<char>) -> bool {
    exists|i: int| 0 <= i < listed.len() && #[trigger] listed_path(listed[i]) == components::components(src)
}

/// The last of the first `n` top-level chapters whose source is listed.
pub open spec fn last_listed(listed: Seq<Seq<char>>, srcs: Seq<Option<Seq<char>>>, n: int) -> Option<int>
    decreases n,
{
    if n <= 0 {
        None
    } else if srcs[n - 1] matches Some(sp) && is_listed(listed, sp) {
        Some(n - 1)
    } else {
        last_listed(listed, srcs, n - 1)
    }
}

/// Where the generated chapters go among the top-level chapters: after the
/// last one that `SUMMARY.md` links to before the placeholder (at the start
/// when there is none); `None` when `SUMMARY.md` has no placeholder.
pub open spec fn spec_placeholder_index(summary: Seq<char>, srcs: Seq<Option<Seq<char>>>) -> Option<int> {
    match text::find(summary, TOC_PLACEHOLDER@) {
        None => None,
        Some(pos) => {
            let listed = md_refs_from(summary.take(pos), 0);
            match last_listed(listed, srcs, srcs.len() as int) {
                Some(i) => Some(i + 1),
                None => Some(0),
            }
        },
    }
}

pub proof fn lemma_md_ref_at(s: Seq<char>, q: int)
    requires
        md_ref_at(s, q) is Some,
    ensures
        q + 2 <= md_ref_at(s, q)->0 < s.len(),
{
    crate::links::lemma_find_char_bounds(s, ')', q + 2);
}

fn md_refs_exec(s: &[char]) -> (res: Vec<Vec<char>>)
    ensures
        view_all(res@) == md_refs_from(s@, 0),
{
    let md = chars_of(".md");
    let mut out: Vec<Vec<char>> = Vec::new();
    let mut p: usize = 0;
    assert(view_all(out@) + md_refs_from(s@, 0) =~= md_refs_from(s@, 0));
    while p < s.len()
        invariant
            p <= s.len(),
            md@ == ".md"@,
            view_all(out@) + md_refs_from(s@, p as int) == md_refs_from(s@, 0),
        decreases s.len() - p,
    {
        let mut found: Option<usize> = None;
        if p + 1 < s.len() && s[p] == ']' && s[p + 1] == '(' {
            match crate::links::find_char_from(s, p + 2, ')') {
                Some(u) => {
                    proof {
                        crate::links::lemma_find_char_bounds(s@, ')', p + 2);
                    }
                    if u - (p + 2) >= 4 && text::ends_with_exec(&s[p + 2..u], md.as_slice()) {
                        found = Some(u);
                    }
                },
                None => {},
            }
        }
        assert(match found {
            Some(u) => md_ref_at(s@, p as int) == Some(u as int),
            None => md_ref_at(s@, p as int) is None,
        });
        match found {
            Some(u) => {
                let ghost before = view_all(out@);
                out.push(slice_vec(s, p + 2, u));
                assert(view_all(out@) =~= before + seq![s@.subrange(p + 2, u as int)]);
                p = u + 1;
            },
            None => {
                p += 1;
            },
        }
    }
    assert(md_refs_from(s@, p as int) =~= Seq::<Seq<char>>::empty());
    assert(view_all(out@) + Seq::<Seq<char>>::empty() =~= view_all(out@));
    out
}

fn listed_path_exec(raw: &[char]) -> (res: Vec<Vec<char>>)
    ensures
        view_all(res@) == listed_path(raw@),
{
    let t = trim_vec(raw);
    let decoded = match url_decode(string_of(t.as_slice()).as_str()) {
        Some(d) => chars_of(d.as_str()),
        None => Vec::new(),
    };
    components_exec(decoded.as_slice())
}

pub open spec fn opt_texts(v: Seq<Option<String>>) -> Seq<Option<Seq<char>>> {
    v.map_values(|o: Option<String>| opt_text(o))
}

/// Where the generated chapters go among the top-level chapters, whose
/// sources are `top_sources` (see `spec_placeholder_index`).
pub fn placeholder_index(summary: &str, top_sources: &Vec<Option<String>>) -> (res: Option<usize>)
    ensures
        match res {
            Some(i) => spec_placeholder_index(summary@, opt_texts(top_sources@)) == Some(i as int),
            None => spec_placeholder_index(summary@, opt_texts(top_sources@)) is None,
        },
{
    let sv = chars_of(summary);
    let s = sv.as_slice();
    let pv = chars_of(TOC_PLACEHOLDER);
    let pos = match text::find_exec(s, pv.as_slice()) {
        None => {
            return None;
        },
        Some(pos) => pos,
    };
    proof {
        text::lemma_find_from_some(s@, pv@, 0);
    }
    let before = &s[0..pos];
    assert(before@ =~= s@.take(pos as int));
    let raw = md_refs_exec(before);
    let ghost listed = md_refs_from(s@.take(pos as int), 0);
    assert(text::find(summary@, TOC_PLACEHOLDER@) == Some(pos as int));
    let mut paths: Vec<Vec<Vec<char>>> = Vec::new();
    let mut i: usize = 0;
    while i < raw.len()
        invariant
            i <= raw@.len(),
            view_all(raw@) == listed,
            paths@.len() == i,
            forall|k: int| 0 <= k < i ==> #[trigger] view_all(paths@[k]@) == listed_path(listed[k]),
        decreases raw@.len() - i,
    {
        assert(raw@[i as int]@ == listed[i as int]);
        paths.push(listed_path_exec(raw[i].as_slice()));
        i += 1;
    }
    let ghost srcs = opt_texts(top_sources@);
    let mut j: usize = top_sources.len();
    while j > 0
        invariant
            j <= top_sources@.len(),
            srcs == opt_texts(top_sources@),
            paths@.len() == listed.len(),
            forall|k: int| 0 <= k < paths@.len() ==> #[trigger] view_all(paths@[k]@) == listed_path(listed[k]),
            last_listed(listed, srcs, srcs.len() as int) == last_listed(listed, srcs, j as int),
            text::find(summary@, TOC_PLACEHOLDER@) == Some(pos as int),
            listed == md_refs_from(summary@.take(pos as int), 0),
        decreases j,
    {
        let mut hit = false;
        match &top_sources[j - 1] {
            Some(sp) => {
                let spv = chars_of(sp.as_str());
                let sc = components_exec(spv.as_slice());
                let mut k: usize = 0;
                while k < paths.len() && !hit
                    invariant
                        k <= paths@.len(),
                        paths@.len() == listed.len(),
                        forall|m: int| 0 <= m < paths@.len() ==> #[trigger] view_all(paths@[m]@) == listed_path(listed[m]),
                        view_all(sc@) == components::components(sp@),
                        hit ==> k < paths@.len() && listed_path(listed[k as int]) == components::components(sp@),
                        forall|m: int| 0 <= m < k ==> #[trigger] listed_path(listed[m]) != components::components(sp@),
                    decreases paths@.len() - k + (if hit { 0int } else { 1int }),
                {
                    if components_eq(&paths[k], &sc) {
                        hit = true;
                    } else {
                        k += 1;
                    }
                }
                assert(hit == is_listed(listed, sp@));
                assert(srcs[j - 1] == Some(sp@));
                assert(hit ==> last_listed(listed, srcs, j as int) == Some(j - 1));
            },
            None => {
                assert(srcs[j - 1] is None);
            },
        }
        if hit {
            return Some(j);
        }
        j -= 1;
    }
    Some(0)
}

/// The number after the greatest first number of the numbered top-level chapters (1 when there is none).
pub open spec fn spec_next_section_number(firsts: Seq<u32>) -> int
    decreases firsts.len(),
{
    if firsts.len() == 0 {
        1
    } else {
        let rest = spec_next_section_number(firsts.drop_last());
        if firsts.last() + 1 > rest {
            firsts.last() + 1
        } else {
            rest
        }
    }
}

/// The number the first generated chapter gets: one past the greatest
/// first section number of the numbered top-level chapters (`firsts`).
pub fn next_section_number(firsts: &Vec<u32>) -> (res: u32)
    requires
        forall|i: int| 0 <= i < firsts@.len() ==> #[trigger] firsts@[i] < u32::MAX,
    ensures
        res as int == spec_next_section_number(firsts@),
{
    let mut best: u32 = 1;
    let mut i: usize = 0;
    assert(firsts@.take(0) =~= Seq::<u32>::empty());
    while i < firsts.len()
        invariant
            i <= firsts@.len(),
            forall|k: int| 0 <= k < firsts@.len() ==> #[trigger] firsts@[k] < u32::MAX,
            best as int == spec_next_section_number(firsts@.take(i as int)),
        decreases firsts@.len() - i,
    {
        assert(firsts@.take(i + 1).drop_last() =~= firsts@.take(i as int));
        let f = firsts[i];
        if f + 1 > best {
            best = f + 1;
        }
        i += 1;
    }
    assert(firsts@.take(firsts@.len() as int) =~= firsts@);
    best
}

/// A walked file becomes a generated chapter: it is a `.md` file, not
/// `SUMMARY.md`, and not already a chapter (compared as paths).
pub open spec fn is_uncovered(rel: Seq<char>, covered: Seq<Seq<char>>) -> bool {
    &&& paths::extension(rel) == Some("md"@)
    &&& paths::file_name(rel) != Some("SUMMARY.md"@)
    &&& forall|i: int| 0 <= i < covered.len() ==> components::components(#[trigger] covered[i]) != components::components(rel)
}

pub open spec fn texts(v: Seq<String>) -> Seq<Seq<char>> {
    v.map_values(|s: String| s@)
}

pub(crate) fn is_md_file(rel: &[char]) -> (b: bool)
    ensures
        b == (paths::extension(rel@) == Some("md"@)),
{
    match file_name_exec(rel) {
        None => false,
        Some(n) => {
            let dot: [char; 1] = ['.'];
            let ds = dot.as_slice();
            assert(ds@ =~= seq!['.']);
            match text::rfind_exec(n.as_slice(), ds) {
                None => false,
                Some(i) => {
                    proof {
                        text::lemma_rfind_from_some(n@, seq!['.'], n@.len() - 1);
                    }
                    let ns = n.as_slice();
                    assert(i + 1 <= ns@.len());
                    assert(i < ns.len());
                    if i == 0 {
                        false
                    } else {
                        let ext = &ns[i + 1..ns.len()];
                        assert(ext@ =~= n@.skip(i + 1));
                        let md = chars_of("md");
                        text::same_chars(ext, md.as_slice())
                    }
                },
            }
        },
    }
}

pub(crate) fn is_summary_file(rel: &[char]) -> (b: bool)
    ensures
        b == (paths::file_name(rel@) == Some("SUMMARY.md"@)),
{
    match file_name_exec(rel) {
        None => false,
        Some(n) => {
            let sm = chars_of("SUMMARY.md");
            text::same_chars(n.as_slice(), sm.as_slice())
        },
    }
}

/// A generated chapter, listed in book order (each section before its
/// contents): its nesting level, title, section number, source path (none
/// for a directory without an index page), and the titles of the sections
/// it lies in.
pub struct TocEntry {
    pub depth: usize,
    pub name: String,
    pub number: Vec<u32>,
    pub path: Option<String>,
    pub parent_names: Vec<String>,
}

pub open spec fn nums(v: Seq<u32>) -> Seq<int> {
    v.map_values(|x: u32| x as int)
}

pub open spec fn entry_view(e: TocEntry) -> (int, Seq<char>, Seq<int>, Option<Seq<char>>, Seq<Seq<char>>) {
    (e.depth as int, e.name@, nums(e.number@), opt_text(e.path), texts(e.parent_names@))
}

pub open spec fn entries_view(v: Seq<TocEntry>) -> Seq<(int, Seq<char>, Seq<int>, Option<Seq<char>>, Seq<Seq<char>>)> {
    v.map_values(|e: TocEntry| entry_view(e))
}

/// The components of `file` past the directory `prefix`, when it lies under it.
pub open spec fn rest_under(file: Seq<char>, prefix: Seq<Seq<char>>) -> Option<Seq<Seq<char>>> {
    let cs = components::components(file);
    if prefix.len() <= cs.len() && cs.take(prefix.len() as int) == prefix {
        Some(cs.skip(prefix.len() as int))
    } else {
        None
    }
}

/// The file lies directly in `prefix`.
pub open spec fn is_direct(file: Seq<char>, prefix: Seq<Seq<char>>) -> bool {
    rest_under(file, prefix) matches Some(r) && r.len() == 1
}

/// The file lies in a subdirectory of `prefix`.
pub open spec fn in_subdir(file: Seq<char>, prefix: Seq<Seq<char>>) -> bool {
    rest_under(file, prefix) matches Some(r) && r.len() >= 2
}

/// The subdirectory of `prefix` the file lies in.
pub open spec fn subdir_of(file: Seq<char>, prefix: Seq<Seq<char>>) -> Seq<char> {
    rest_under(file, prefix)->0[0]
}

/// The first `n` files that lie directly in `prefix`, in order.
pub open spec fn direct_files(files: Seq<Seq<char>>, prefix: Seq<Seq<char>>, n: int) -> Seq<Seq<char>>
    decreases n,
{
    if n <= 0 {
        Seq::empty()
    } else {
        direct_files(files, prefix, n - 1) + if is_direct(files[n - 1], prefix) {
            seq![files[n - 1]]
        } else {
            Seq::empty()
        }
    }
}

/// `x` added after the names `names`, unless it is among them.
pub open spec fn add_name(names: Seq<Seq<char>>, x: Seq<char>) -> Seq<Seq<char>> {
    if names.contains(x) {
        names
    } else {
        names.push(x)
    }
}

/// The subdirectories of `prefix` that the first `n` files lie in, each once,
/// in the order of the first file that lies in each.
pub open spec fn dir_names(files: Seq<Seq<char>>, prefix: Seq<Seq<char>>, n: int) -> Seq<Seq<char>>
    decreases n,
{
    if n <= 0 {
        Seq::empty()
    } else if in_subdir(files[n - 1], prefix) {
        add_name(dir_names(files, prefix, n - 1), subdir_of(files[n - 1], prefix))
    } else {
        dir_names(files, prefix, n - 1)
    }
}

/// The index page path `prefix/d/page` as components.
pub open spec fn page_in(prefix: Seq<Seq<char>>, d: Seq<char>, page: Seq<char>) -> Seq<Seq<char>> {
    prefix + seq![d, page]
}

/// Some of the existing paths is `p` (as paths).
pub open spec fn exists_in(existing: Seq<Seq<char>>, p: Seq<Seq<char>>) -> bool {
    exists|i: int| 0 <= i < existing.len() && components::components(#[trigger] existing[i]) == p
}

/// The page of the section for subdirectory `d`: its `index.md`, else its
/// `README.md`, when one exists.
pub open spec fn section_page(existing: Seq<Seq<char>>, prefix: Seq<Seq<char>>, d: Seq<char>) -> Option<Seq<Seq<char>>> {
    if exists_in(existing, page_in(prefix, d, "index.md"@)) {
        Some(page_in(prefix, d, "index.md"@))
    } else if exists_in(existing, page_in(prefix, d, "README.md"@)) {
        Some(page_in(prefix, d, "README.md"@))
    } else {
        None
    }
}

/// The first `n` files in subdirectory `d` of `prefix`, other than its index pages.
pub open spec fn kids(files: Seq<Seq<char>>, prefix: Seq<Seq<char>>, d: Seq<char>, n: int) -> Seq<Seq<char>>
    decreases n,
{
    if n <= 0 {
        Seq::empty()
    } else {
        let f = files[n - 1];
        kids(files, prefix, d, n - 1) + if in_subdir(f, prefix) && subdir_of(f, prefix) == d
            && components::components(f) != page_in(prefix, d, "index.md"@)
            && components::components(f) != page_in(prefix, d, "README.md"@) {
            seq![f]
        } else {
            Seq::empty()
        }
    }
}

/// A title from a file: its stem (`Untitled` when it has none) without `.excalidraw`.
pub open spec fn file_title(f: Seq<char>) -> Seq<char> {
    let s = match paths::file_stem(f) {
        Some(x) => x,
        None => "Untitled"@,
    };
    if text::ends_with(s, ".excalidraw"@) {
        s.take(s.len() - 11)
    } else {
        s
    }
}

/// A title from a directory name: `-` and `_` read as spaces.
pub open spec fn section_title(d: Seq<char>) -> Seq<char> {
    Seq::new(d.len(), |i: int| if d[i] == '-' || d[i] == '_' { ' ' } else { d[i] })
}

/// The entries of the files `ds` lying directly in a section, numbered from `start`.
pub open spec fn file_entries(ds: Seq<Seq<char>>, depth: int, num: Seq<int>, start: int, parents: Seq<Seq<char>>) -> Seq<(int, Seq<char>, Seq<int>, Option<Seq<char>>, Seq<Seq<char>>)> {
    Seq::new(ds.len(), |k: int| (depth, file_title(ds[k]), num.push(start + k), Some(ds[k]), parents))
}

/// The entries for the files under `prefix`, numbered from `start`: the
/// files lying directly in it and one section per subdirectory, each in
/// order of first occurrence, the sections first when `dirs_first` and
/// last otherwise (a subdirectory with neither files nor an index page
/// gives nothing but still takes a number). `fuel` bounds the nesting: each section level below uses one
/// unit, and with none left the level is empty; `spec_build_items` gives the
/// deepest file's number of components.
pub open spec fn level(
    files: Seq<Seq<char>>,
    prefix: Seq<Seq<char>>,
    parents: Seq<Seq<char>>,
    num: Seq<int>,
    start: int,
    depth: int,
    existing: Seq<Seq<char>>,
    dirs_first: bool,
    fuel: nat,
) -> Seq<(int, Seq<char>, Seq<int>, Option<Seq<char>>, Seq<Seq<char>>)>
    decreases fuel, 1int, 0int,
{
    if fuel == 0 {
        Seq::empty()
    } else {
        let direct = direct_files(files, prefix, files.len() as int);
        let names = dir_names(files, prefix, files.len() as int);
        let fe = file_entries(direct, depth, num, if dirs_first { start + names.len() } else { start }, parents);
        let se = sections(
            files,
            prefix,
            parents,
            num,
            if dirs_first { start } else { start + direct.len() },
            depth,
            existing,
            dirs_first,
            fuel,
            names,
            names.len() as int,
        );
        if dirs_first {
            se + fe
        } else {
            fe + se
        }
    }
}

/// The entries of the first `k` subdirectories `names` of `prefix`, numbered from `first`.
pub open spec fn sections(
    files: Seq<Seq<char>>,
    prefix: Seq<Seq<char>>,
    parents: Seq<Seq<char>>,
    num: Seq<int>,
    first: int,
    depth: int,
    existing: Seq<Seq<char>>,
    dirs_first: bool,
    fuel: nat,
    names: Seq<Seq<char>>,
    k: int,
) -> Seq<(int, Seq<char>, Seq<int>, Option<Seq<char>>, Seq<Seq<char>>)>
    decreases fuel, 0int, k,
{
    if k <= 0 || fuel == 0 {
        Seq::empty()
    } else {
        let d = names[k - 1];
        let title = section_title(d);
        let page = section_page(existing, prefix, d);
        let sub = level(
            kids(files, prefix, d, files.len() as int),
            prefix.push(d),
            parents.push(title),
            num.push(first + k - 1),
            1,
            depth + 1,
            existing,
            dirs_first,
            (fuel - 1) as nat,
        );
        sections(files, prefix, parents, num, first, depth, existing, dirs_first, fuel, names, k - 1) + if sub.len() == 0
            && page is None {
            Seq::empty()
        } else {
            seq![
                (
                    depth,
                    title,
                    num.push(first + k - 1),
                    match page {
                        Some(pg) => Some(components::render(pg)),
                        None => None,
                    },
                    parents,
                ),
            ] + sub
        }
    }
}

/// The deepest file, in components.
pub open spec fn max_depth(files: Seq<Seq<char>>, n: int) -> nat
    decreases n,
{
    if n <= 0 {
        0
    } else {
        let d = components::components(files[n - 1]).len();
        if d > max_depth(files, n - 1) {
            d
        } else {
            max_depth(files, n - 1)
        }
    }
}

/// The generated chapters for the uncovered files `files` (relative to the
/// source directory, in the order `select_uncovered` gives), numbered from
/// `start` at the top level, with each level's sections before its files
/// when `dirs_first`.
pub open spec fn spec_build_items(files: Seq<Seq<char>>, existing: Seq<Seq<char>>, start: int, dirs_first: bool) -> Seq<(int, Seq<char>, Seq<int>, Option<Seq<char>>, Seq<Seq<char>>)> {
    level(files, Seq::empty(), Seq::empty(), Seq::empty(), start, 0, existing, dirs_first, max_depth(files, files.len() as int))
}

/// Each file is direct or gives at most one subdirectory, so the numbers used stay below `n` past the start.
proof fn lemma_level_count(files: Seq<Seq<char>>, prefix: Seq<Seq<char>>, n: int)
    requires
        0 <= n <= files.len(),
    ensures
        direct_files(files, prefix, n).len() + dir_names(files, prefix, n).len() <= n,
    decreases n,
{
    if n > 0 {
        lemma_level_count(files, prefix, n - 1);
    }
}

proof fn lemma_kids_len(files: Seq<Seq<char>>, prefix: Seq<Seq<char>>, d: Seq<char>, n: int)
    requires
        0 <= n,
    ensures
        kids(files, prefix, d, n).len() <= n,
    decreases n,
{
    if n > 0 {
        lemma_kids_len(files, prefix, d, n - 1);
    }
}

fn rest_len(fc: &Vec<Vec<char>>, prefix: &Vec<Vec<char>>) -> (r: Option<usize>)
    ensures
        match r {
            Some(n) => view_all(fc@).len() >= view_all(prefix@).len()
                && view_all(fc@).take(view_all(prefix@).len() as int) == view_all(prefix@)
                && n == view_all(fc@).len() - view_all(prefix@).len(),
            None => !(view_all(prefix@).len() <= view_all(fc@).len() && view_all(fc@).take(view_all(prefix@).len() as int) == view_all(prefix@)),
        },
{
    let ghost f = view_all(fc@);
    let ghost p = view_all(prefix@);
    if prefix.len() > fc.len() {
        return None;
    }
    let mut i: usize = 0;
    while i < prefix.len()
        invariant
            i <= prefix@.len(),
            prefix@.len() <= fc@.len(),
            f == view_all(fc@),
            p == view_all(prefix@),
            forall|j: int| 0 <= j < i ==> f[j] == p[j],
        decreases prefix@.len() - i,
    {
        if !text::same_chars(fc[i].as_slice(), prefix[i].as_slice()) {
            assert(f.take(p.len() as int)[i as int] != p[i as int]);
            return None;
        }
        i += 1;
    }
    assert(f.take(p.len() as int) =~= p);
    Some(fc.len() - prefix.len())
}

fn add_name_exec(names: &mut Vec<Vec<char>>, x: Vec<char>)
    ensures
        view_all(final(names)@) == add_name(view_all(old(names)@), x@),
{
    let ghost o = view_all(names@);
    let mut k: usize = 0;
    while k < names.len()
        invariant
            k <= names@.len(),
            o == view_all(names@),
            o == view_all(old(names)@),
            forall|j: int| 0 <= j < k ==> o[j] != x@,
        decreases names@.len() - k,
    {
        if text::same_chars(names[k].as_slice(), x.as_slice()) {
            assert(o[k as int] == x@);
            assert(o.contains(x@));
            return;
        }
        k += 1;
    }
    assert(!o.contains(x@));
    let ghost xv = x@;
    names.push(x);
    assert(view_all(names@) =~= o.push(xv));
}

fn exists_exec(existing_cs: &Vec<Vec<Vec<char>>>, p: &Vec<Vec<char>>, Ghost(existing): Ghost<Seq<Seq<char>>>) -> (b: bool)
    requires
        existing_cs@.len() == existing.len(),
        forall|i: int| 0 <= i < existing.len() ==> #[trigger] view_all(existing_cs@[i]@) == components::components(existing[i]),
    ensures
        b == exists_in(existing, view_all(p@)),
{
    let mut i: usize = 0;
    while i < existing_cs.len()
        invariant
            i <= existing_cs@.len(),
            existing_cs@.len() == existing.len(),
            forall|k: int| 0 <= k < existing.len() ==> #[trigger] view_all(existing_cs@[k]@) == components::components(existing[k]),
            forall|k: int| 0 <= k < i ==> components::components(#[trigger] existing[k]) != view_all(p@),
        decreases existing_cs@.len() - i,
    {
        if components_eq(&existing_cs[i], p) {
            assert(components::components(existing[i as int]) == view_all(p@));
            return true;
        }
        i += 1;
    }
    false
}

fn clone_texts(v: &Vec<String>) -> (res: Vec<String>)
    ensures
        texts(res@) == texts(v@),
{
    let mut out: Vec<String> = Vec::new();
    let mut i: usize = 0;
    while i < v.len()
        invariant
            i <= v@.len(),
            texts(out@) == texts(v@).take(i as int),
        decreases v@.len() - i,
    {
        let ghost before = texts(out@);
        let c = string_of(chars_of(v[i].as_str()).as_slice());
        out.push(c);
        assert(texts(out@) =~= before.push(v@[i as int]@));
        assert(texts(out@) =~= texts(v@).take(i + 1));
        i += 1;
    }
    assert(texts(v@).take(v@.len() as int) =~= texts(v@));
    out
}

fn spaced_exec(d: &[char]) -> (res: Vec<char>)
    ensures
        res@ == section_title(d@),
{
    let mut out: Vec<char> = Vec::new();
    let mut i: usize = 0;
    while i < d.len()
        invariant
            i <= d.len(),
            out@ == section_title(d@).take(i as int),
        decreases d.len() - i,
    {
        let c = if d[i] == '-' || d[i] == '_' { ' ' } else { d[i] };
        out.push(c);
        assert(out@ =~= section_title(d@).take(i + 1));
        i += 1;
    }
    assert(section_title(d@).take(d.len() as int) =~= section_title(d@));
    out
}

fn file_title_exec(f: &[char]) -> (res: Vec<char>)
    ensures
        res@ == file_title(f@),
{
    let s = match paths::file_stem_exec(f) {
        Some(x) => x,
        None => chars_of("Untitled"),
    };
    let e = chars_of(".excalidraw");
    assert(e@.len() == 11) by {
        reveal_strlit(".excalidraw");
    }
    if text::ends_with_exec(s.as_slice(), e.as_slice()) {
        slice_vec(s.as_slice(), 0, s.len() - 11)
    } else {
        s
    }
}

fn push_copy(v: &Vec<Vec<char>>, x: &[char]) -> (res: Vec<Vec<char>>)
    ensures
        view_all(res@) == view_all(v@).push(x@),
{
    let mut out: Vec<Vec<char>> = Vec::new();
    let mut i: usize = 0;
    while i < v.len()
        invariant
            i <= v@.len(),
            view_all(out@) == view_all(v@).take(i as int),
        decreases v@.len() - i,
    {
        let ghost before = view_all(out@);
        let c = slice_vec(v[i].as_slice(), 0, v[i].len());
        assert(c@ =~= v@[i as int]@);
        out.push(c);
        assert(view_all(out@) =~= before.push(v@[i as int]@));
        assert(view_all(out@) =~= view_all(v@).take(i + 1));
        i += 1;
    }
    assert(view_all(v@).take(v@.len() as int) =~= view_all(v@));
    let c = slice_vec(x, 0, x.len());
    assert(c@ =~= x@);
    out.push(c);
    assert(view_all(out@) =~= view_all(v@).push(x@));
    out
}

fn build_level(
    files: &Vec<String>,
    prefix: &Vec<Vec<char>>,
    parents: &Vec<String>,
    num: &Vec<u32>,
    start: u32,
    depth: usize,
    existing: &Vec<String>,
    existing_cs: &Vec<Vec<Vec<char>>>,
    dirs_first: bool,
    fuel: usize,
) -> (res: Vec<TocEntry>)
    requires
        1 <= start,
        start as int + files@.len() <= u32::MAX,
        depth + fuel <= usize::MAX,
        existing_cs@.len() == existing@.len(),
        forall|i: int| 0 <= i < existing@.len() ==> #[trigger] view_all(existing_cs@[i]@) == components::components(existing@[i]@),
    ensures
        entries_view(res@) == level(texts(files@), view_all(prefix@), texts(parents@), nums(num@), start as int, depth as int, texts(existing@), dirs_first, fuel as nat),
    decreases fuel,
{
    let ghost fs = texts(files@);
    let ghost pf = view_all(prefix@);
    let ghost ps = texts(parents@);
    let ghost nm = nums(num@);
    let ghost ex = texts(existing@);
    if fuel == 0 {
        let r: Vec<TocEntry> = Vec::new();
        assert(entries_view(r@) =~= Seq::<(int, Seq<char>, Seq<int>, Option<Seq<char>>, Seq<Seq<char>>)>::empty());
        return r;
    }
    let mut out: Vec<TocEntry> = Vec::new();
    let mut direct: Vec<String> = Vec::new();
    let mut names: Vec<Vec<char>> = Vec::new();
    let mut i: usize = 0;
    while i < files.len()
        invariant
            i <= files@.len(),
            fs == texts(files@),
            pf == view_all(prefix@),
            texts(direct@) == direct_files(fs, pf, i as int),
            view_all(names@) == dir_names(fs, pf, i as int),
        decreases files@.len() - i,
    {
        let fv = chars_of(files[i].as_str());
        let fc = components_exec(fv.as_slice());
        assert(fv@ == fs[i as int]);
        let ghost before_d = texts(direct@);
        match rest_len(&fc, prefix) {
            Some(n) => {
                assert(rest_under(fs[i as int], pf) == Some(view_all(fc@).skip(pf.len() as int)));
                if n == 1 {
                    direct.push(string_of(fv.as_slice()));
                    assert(texts(direct@) =~= before_d + seq![fs[i as int]]);
                } else if n >= 2 {
                    let d = slice_vec(fc[prefix.len()].as_slice(), 0, fc[prefix.len()].len());
                    assert(d@ =~= view_all(fc@).skip(pf.len() as int)[0]);
                    add_name_exec(&mut names, d);
                    assert(texts(direct@) =~= before_d + Seq::<Seq<char>>::empty());
                } else {
                    assert(texts(direct@) =~= before_d + Seq::<Seq<char>>::empty());
                }
            },
            None => {
                assert(rest_under(fs[i as int], pf) is None);
                assert(texts(direct@) =~= before_d + Seq::<Seq<char>>::empty());
            },
        }
        i += 1;
    }
    proof {
        lemma_level_count(fs, pf, fs.len() as int);
    }
    let ghost dfs = texts(direct@);
    let ghost nms = view_all(names@);
    let fbase: u32 = if dirs_first { start + names.len() as u32 } else { start };
    let mut k: usize = 0;
    while k < direct.len()
        invariant
            k <= direct@.len(),
            dfs == texts(direct@),
            dfs.len() + nms.len() <= fs.len(),
            start as int + fs.len() <= u32::MAX,
            fbase as int == if dirs_first { start + nms.len() } else { start as int },
            nm == nums(num@),
            ps == texts(parents@),
            entries_view(out@) == file_entries(dfs, depth as int, nm, fbase as int, ps).take(k as int),
        decreases direct@.len() - k,
    {
        let dv = chars_of(direct[k].as_str());
        let title = file_title_exec(dv.as_slice());
        let mut number: Vec<u32> = Vec::new();
        let mut q: usize = 0;
        while q < num.len()
            invariant
                q <= num@.len(),
                nums(number@) == nums(num@).take(q as int),
            decreases num@.len() - q,
        {
            let ghost nb = nums(number@);
            number.push(num[q]);
            assert(nums(number@) =~= nb.push(num@[q as int] as int));
            assert(nums(number@) =~= nums(num@).take(q + 1));
            q += 1;
        }
        assert(nums(num@).take(num@.len() as int) =~= nums(num@));
        let ghost nb = nums(number@);
        number.push(fbase + k as u32);
        assert(nums(number@) =~= nb.push(fbase + k));
        assert(nums(number@) =~= nm.push(fbase + k));
        let e = TocEntry {
            depth,
            name: string_of(title.as_slice()),
            number,
            path: Some(string_of(dv.as_slice())),
            parent_names: clone_texts(parents),
        };
        let ghost before = entries_view(out@);
        assert(dv@ == dfs[k as int]);
        assert(entry_view(e) == file_entries(dfs, depth as int, nm, fbase as int, ps)[k as int]);
        out.push(e);
        assert(entries_view(out@) =~= before.push(entry_view(e)));
        assert(entries_view(out@) =~= file_entries(dfs, depth as int, nm, fbase as int, ps).take(k + 1));
        k += 1;
    }
    assert(file_entries(dfs, depth as int, nm, fbase as int, ps).take(dfs.len() as int) =~= file_entries(dfs, depth as int, nm, fbase as int, ps));
    let ghost fe = entries_view(out@);
    let first: u32 = if dirs_first { start } else { start + direct.len() as u32 };
    let mut sout: Vec<TocEntry> = Vec::new();
    assert(sections(fs, pf, ps, nm, first as int, depth as int, ex, dirs_first, fuel as nat, nms, 0) =~= Seq::empty());
    let mut m: usize = 0;
    while m < names.len()
        invariant
            m <= names@.len(),
            nms == view_all(names@),
            fs == texts(files@),
            pf == view_all(prefix@),
            ps == texts(parents@),
            nm == nums(num@),
            ex == texts(existing@),
            fuel > 0,
            depth + fuel <= usize::MAX,
            dfs.len() + nms.len() <= fs.len(),
            start as int + fs.len() <= u32::MAX,
            1 <= start,
            first as int == if dirs_first { start as int } else { start + dfs.len() },
            fe == entries_view(out@),
            existing_cs@.len() == existing@.len(),
            forall|i: int| 0 <= i < existing@.len() ==> #[trigger] view_all(existing_cs@[i]@) == components::components(existing@[i]@),
            entries_view(sout@) == sections(fs, pf, ps, nm, first as int, depth as int, ex, dirs_first, fuel as nat, nms, m as int),
        decreases names@.len() - m,
    {
        let d = names[m].as_slice();
        let counter: u32 = first + m as u32;
        let index_cs = push_copy(&push_copy(prefix, d), chars_of("index.md").as_slice());
        let readme_cs = push_copy(&push_copy(prefix, d), chars_of("README.md").as_slice());
        assert(view_all(index_cs@) =~= page_in(pf, d@, "index.md"@));
        assert(view_all(readme_cs@) =~= page_in(pf, d@, "README.md"@));
        let page: Option<&Vec<Vec<char>>> = if exists_exec(existing_cs, &index_cs, Ghost(ex)) {
            Some(&index_cs)
        } else if exists_exec(existing_cs, &readme_cs, Ghost(ex)) {
            Some(&readme_cs)
        } else {
            None
        };
        let mut children: Vec<String> = Vec::new();
        let mut c: usize = 0;
        while c < files.len()
            invariant
                c <= files@.len(),
                fs == texts(files@),
                pf == view_all(prefix@),
                view_all(index_cs@) == page_in(pf, d@, "index.md"@),
                view_all(readme_cs@) == page_in(pf, d@, "README.md"@),
                texts(children@) == kids(fs, pf, d@, c as int),
            decreases files@.len() - c,
        {
            let fv = chars_of(files[c].as_str());
            let fc = components_exec(fv.as_slice());
            assert(fv@ == fs[c as int]);
            let ghost before = texts(children@);
            let mut keep = false;
            match rest_len(&fc, prefix) {
                Some(n) => {
                    assert(rest_under(fs[c as int], pf) == Some(view_all(fc@).skip(pf.len() as int)));
                    if n >= 2 {
                        assert(view_all(fc@).skip(pf.len() as int)[0] == fc@[prefix.len() as int]@);
                        keep = text::same_chars(fc[prefix.len()].as_slice(), d) && !components_eq(&fc, &index_cs)
                            && !components_eq(&fc, &readme_cs);
                    }
                },
                None => {},
            }
            if keep {
                children.push(string_of(fv.as_slice()));
                assert(texts(children@) =~= before + seq![fs[c as int]]);
            } else {
                assert(texts(children@) =~= before + Seq::<Seq<char>>::empty());
            }
            c += 1;
        }
        proof {
            lemma_kids_len(fs, pf, d@, fs.len() as int);
        }
        let title = spaced_exec(d);
        let sub_prefix = push_copy(prefix, d);
        let mut sub_parents = clone_texts(parents);
        sub_parents.push(string_of(title.as_slice()));
        let mut sub_num: Vec<u32> = Vec::new();
        let mut q: usize = 0;
        while q < num.len()
            invariant
                q <= num@.len(),
                nums(sub_num@) == nums(num@).take(q as int),
            decreases num@.len() - q,
        {
            let ghost nb = nums(sub_num@);
            sub_num.push(num[q]);
            assert(nums(sub_num@) =~= nb.push(num@[q as int] as int));
            assert(nums(sub_num@) =~= nums(num@).take(q + 1));
            q += 1;
        }
        assert(nums(num@).take(num@.len() as int) =~= nums(num@));
        sub_num.push(counter);
        assert(nums(sub_num@) =~= nm.push(first + m));
        assert(texts(sub_parents@) =~= ps.push(section_title(d@)));
        let sub = build_level(&children, &sub_prefix, &sub_parents, &sub_num, 1, depth + 1, existing, existing_cs, dirs_first, fuel - 1);
        let ghost page_spec = section_page(ex, pf, d@);
        assert(match page {
            Some(pg) => page_spec == Some(view_all(pg@)),
            None => page_spec is None,
        });
        let ghost before = entries_view(sout@);
        if sub.len() == 0 && page.is_none() {
            assert(entries_view(sout@) =~= sections(fs, pf, ps, nm, first as int, depth as int, ex, dirs_first, fuel as nat, nms, m + 1));
        } else {
            let path = match page {
                Some(pg) => {
                    let r = crate::components::render_exec(pg);
                    Some(string_of(r.as_slice()))
                },
                None => None,
            };
            let e = TocEntry { depth, name: string_of(title.as_slice()), number: sub_num, path, parent_names: clone_texts(parents) };
            let ghost ev = entry_view(e);
            sout.push(e);
            assert(entries_view(sout@) =~= before.push(ev));
            let mut s: usize = 0;
            let ghost mid = entries_view(sout@);
            while s < sub.len()
                invariant
                    s <= sub@.len(),
                    entries_view(sout@) == mid + entries_view(sub@).take(s as int),
                decreases sub@.len() - s,
            {
                let x = &sub[s];
                let mut xn: Vec<u32> = Vec::new();
                let mut q: usize = 0;
                while q < x.number.len()
                    invariant
                        q <= x.number@.len(),
                        nums(xn@) == nums(x.number@).take(q as int),
                    decreases x.number@.len() - q,
                {
                    let ghost nb = nums(xn@);
                    xn.push(x.number[q]);
                    assert(nums(xn@) =~= nb.push(x.number@[q as int] as int));
                    assert(nums(xn@) =~= nums(x.number@).take(q + 1));
                    q += 1;
                }
                assert(nums(x.number@).take(x.number@.len() as int) =~= nums(x.number@));
                let xp = match &x.path {
                    Some(p) => Some(string_of(chars_of(p.as_str()).as_slice())),
                    None => None,
                };
                let y = TocEntry {
                    depth: x.depth,
                    name: string_of(chars_of(x.name.as_str()).as_slice()),
                    number: xn,
                    path: xp,
                    parent_names: clone_texts(&x.parent_names),
                };
                assert(entry_view(y) == entry_view(*x));
                let ghost ob = entries_view(sout@);
                sout.push(y);
                assert(entries_view(sout@) =~= ob.push(entry_view(sub@[s as int])));
                assert(entries_view(sout@) =~= mid + entries_view(sub@).take(s + 1));
                s += 1;
            }
            assert(entries_view(sub@).take(sub@.len() as int) =~= entries_view(sub@));
            assert(entries_view(sout@) =~= sections(fs, pf, ps, nm, first as int, depth as int, ex, dirs_first, fuel as nat, nms, m + 1));
        }
        m += 1;
    }
    let ghost se = entries_view(sout@);
    if dirs_first {
        sout.append(&mut out);
        assert(entries_view(sout@) =~= se + fe);
        sout
    } else {
        out.append(&mut sout);
        assert(entries_view(out@) =~= fe + se);
        out
    }
}

/// The generated chapters for the uncovered files `files` (relative to the
/// source directory, as `select_uncovered` gives them), numbered from
/// `start` at the top level; `existing` holds the subdirectories' index
/// pages (`index.md`, `README.md`) that exist. At each level the files and
/// the subdirectories keep the order in which they first occur in `files`;
/// the subdirectories' sections come first when `dirs_first`, else last.
pub fn build_items(files: &Vec<String>, existing: &Vec<String>, start: u32, dirs_first: bool) -> (res: Vec<TocEntry>)
    requires
        1 <= start,
        start as int + files@.len() <= u32::MAX,
    ensures
        entries_view(res@) == spec_build_items(texts(files@), texts(existing@), start as int, dirs_first),
{
    let ghost fs = texts(files@);
    let mut existing_cs: Vec<Vec<Vec<char>>> = Vec::new();
    let mut i: usize = 0;
    while i < existing.len()
        invariant
            i <= existing@.len(),
            existing_cs@.len() == i,
            forall|k: int| 0 <= k < i ==> #[trigger] view_all(existing_cs@[k]@) == components::components(existing@[k]@),
        decreases existing@.len() - i,
    {
        let v = chars_of(existing[i].as_str());
        existing_cs.push(components_exec(v.as_slice()));
        i += 1;
    }
    let mut deepest: usize = 0;
    let mut j: usize = 0;
    assert(fs.len() == files@.len());
    while j < files.len()
        invariant
            j <= files@.len(),
            fs == texts(files@),
            deepest as nat == max_depth(fs, j as int),
        decreases files@.len() - j,
    {
        let v = chars_of(files[j].as_str());
        let c = components_exec(v.as_slice());
        assert(v@ == fs[j as int]);
        if c.len() > deepest {
            deepest = c.len();
        }
        assert(fs.take(j + 1).drop_last() =~= fs.take(j as int));
        j += 1;
    }
    let prefix: Vec<Vec<char>> = Vec::new();
    let parents: Vec<String> = Vec::new();
    let num: Vec<u32> = Vec::new();
    assert(view_all(prefix@) =~= Seq::<Seq<char>>::empty());
    assert(texts(parents@) =~= Seq::<Seq<char>>::empty());
    assert(nums(num@) =~= Seq::<int>::empty());
    build_level(files, &prefix, &parents, &num, start, 0, existing, &existing_cs, dirs_first, deepest)
}

/// The components of `p` with the extension of its file name replaced by
/// `html` (`Path::with_extension`); unchanged when it has no file name.
pub open spec fn html_components(p: Seq<char>) -> Seq<Seq<char>> {
    let cs = components::components(p);
    if cs.len() > 0 && components::kind_rank(cs.last()) == 3 {
        cs.drop_last().push(paths::name_stem(cs.last()) + ".html"@)
    } else {
        cs
    }
}

/// Where the listing links to for a generated chapter with source `p`: the
/// viewer page of a drawing, else the `.html` page, each component
/// percent-encoded.
pub open spec fn entry_href(name: Seq<char>, p: Seq<char>) -> Seq<char> {
    if drawing_links::is_drawing_url(p) {
        "_excalidraw/"@ + crate::excalidraw::page::spec_excalidraw_slug(name) + ".html"@
    } else {
        text::join_char(html_components(p).map_values(|c: Seq<char>| trusted::url_encoded(c)), '/')
    }
}

pub open spec fn indent(depth: nat) -> Seq<char>
    decreases depth,
{
    if depth == 0 {
        Seq::empty()
    } else {
        indent((depth - 1) as nat) + "  "@
    }
}

/// The listing line of an entry: a link when it has a page, else its title.
pub open spec fn entry_line(e: (int, Seq<char>, Seq<int>, Option<Seq<char>>, Seq<Seq<char>>)) -> Seq<char> {
    indent(e.0 as nat) + match e.3 {
        Some(p) => "- ["@ + e.1 + "]("@ + entry_href(e.1, p) + ")\n"@,
        None => "- "@ + e.1 + "\n"@,
    }
}

/// The nested markdown list of the generated chapters.
pub open spec fn spec_render_markdown(es: Seq<(int, Seq<char>, Seq<int>, Option<Seq<char>>, Seq<Seq<char>>)>) -> Seq<char>
    decreases es.len(),
{
    if es.len() == 0 {
        Seq::empty()
    } else {
        spec_render_markdown(es.drop_last()) + entry_line(es.last())
    }
}

fn html_components_exec(p: &[char]) -> (res: Vec<Vec<char>>)
    ensures
        view_all(res@) == html_components(p@),
{
    let mut cs = components_exec(p);
    let ghost g = view_all(cs@);
    if cs.len() > 0 {
        let last = cs.len() - 1;
        let l = cs[last].as_slice();
        let is_root = l.len() == 1 && l[0] == '/';
        let is_cur = l.len() == 1 && l[0] == '.';
        let is_parent = l.len() == 2 && l[0] == '.' && l[1] == '.';
        assert(g.last() == l@);
        assert((is_root || is_cur || is_parent) == (components::kind_rank(l@) != 3)) by {
            if l@ == components::root() || l@ == components::cur_dir() || l@ == components::parent_dir() {
                assert(l@.len() <= 2);
            }
            if is_root {
                assert(l@ =~= components::root());
            }
            if is_cur {
                assert(l@ =~= components::cur_dir());
            }
            if is_parent {
                assert(l@ =~= components::parent_dir());
            }
        }
        if !(is_root || is_cur || is_parent) {
            let dot: [char; 1] = ['.'];
            let ds = dot.as_slice();
            assert(ds@ =~= seq!['.']);
            let stem = match text::rfind_exec(l, ds) {
                None => slice_vec(l, 0, l.len()),
                Some(i) => {
                    proof {
                        text::lemma_rfind_from_some(l@, seq!['.'], l@.len() - 1);
                    }
                    if i == 0 {
                        slice_vec(l, 0, l.len())
                    } else {
                        slice_vec(l, 0, i)
                    }
                },
            };
            assert(stem@ =~= paths::name_stem(l@));
            let mut name = stem;
            push_str(&mut name, ".html");
            cs.pop();
            cs.push(name);
            assert(view_all(cs@) =~= g.drop_last().push(paths::name_stem(g.last()) + ".html"@));
        }
    }
    cs
}

fn entry_href_exec(name: &str, p: &[char]) -> (res: Vec<char>)
    ensures
        res@ == entry_href(name@, p@),
{
    let e1 = chars_of(".excalidraw");
    let e2 = chars_of(".excalidraw.md");
    if text::ends_with_exec(p, e1.as_slice()) || text::ends_with_exec(p, e2.as_slice()) {
        let slug = crate::excalidraw::page::excalidraw_slug(name);
        let mut out: Vec<char> = Vec::new();
        push_str(&mut out, "_excalidraw/");
        push_str(&mut out, slug.as_str());
        push_str(&mut out, ".html");
        return out;
    }
    let cs = html_components_exec(p);
    let ghost enc = view_all(cs@).map_values(|c: Seq<char>| trusted::url_encoded(c));
    let mut out: Vec<char> = Vec::new();
    let mut i: usize = 0;
    assert(enc.take(0) =~= Seq::<Seq<char>>::empty());
    while i < cs.len()
        invariant
            i <= cs@.len(),
            enc == view_all(cs@).map_values(|c: Seq<char>| trusted::url_encoded(c)),
            out@ == text::join_char(enc.take(i as int), '/'),
        decreases cs@.len() - i,
    {
        proof {
            text::lemma_join_char_take(enc, '/', i as int);
        }
        let e = crate::trusted::url_encode(string_of(cs[i].as_slice()).as_str());
        assert(e@ == enc[i as int]);
        if i > 0 {
            out.push('/');
        }
        push_str(&mut out, e.as_str());
        i += 1;
    }
    assert(enc.take(cs@.len() as int) =~= enc);
    out
}

/// The generated chapters as a nested markdown list, for the placeholder.
pub fn render_markdown(entries: &Vec<TocEntry>) -> (res: String)
    ensures
        res@ == spec_render_markdown(entries_view(entries@)),
{
    let ghost es = entries_view(entries@);
    let mut out: Vec<char> = Vec::new();
    let mut i: usize = 0;
    assert(es.take(0) =~= Seq::<(int, Seq<char>, Seq<int>, Option<Seq<char>>, Seq<Seq<char>>)>::empty());
    while i < entries.len()
        invariant
            i <= entries@.len(),
            es == entries_view(entries@),
            out@ == spec_render_markdown(es.take(i as int)),
        decreases entries@.len() - i,
    {
        let e = &entries[i];
        assert(es[i as int] == entry_view(*e));
        let ghost before = out@;
        let mut k: usize = 0;
        while k < e.depth
            invariant
                k <= e.depth,
                out@ == before + indent(k as nat),
            decreases e.depth - k,
        {
            push_str(&mut out, "  ");
            k += 1;
        }
        match &e.path {
            Some(p) => {
                let pv = chars_of(p.as_str());
                let href = entry_href_exec(e.name.as_str(), pv.as_slice());
                push_str(&mut out, "- [");
                push_str(&mut out, e.name.as_str());
                push_str(&mut out, "](");
                push_all(&mut out, href.as_slice());
                push_str(&mut out, ")\n");
            },
            None => {
                push_str(&mut out, "- ");
                push_str(&mut out, e.name.as_str());
                push_str(&mut out, "\n");
            },
        }
        assert(es.take(i + 1).drop_last() =~= es.take(i as int));
        assert(out@ =~= before + entry_line(es[i as int]));
        i += 1;
    }
    assert(es.take(entries@.len() as int) =~= es);
    string_of(out.as_slice())
}

/// The first generated chapter is numbered after every numbered top-level chapter.
pub proof fn law_generated_numbers_follow(firsts: Seq<u32>)
    ensures
        forall|i: int| 0 <= i < firsts.len() ==> #[trigger] firsts[i] < spec_next_section_number(firsts),
        spec_next_section_number(firsts) >= 1,
    decreases firsts.len(),
{
    if firsts.len() > 0 {
        law_generated_numbers_follow(firsts.drop_last());
        assert forall|i: int| 0 <= i < firsts.len() implies #[trigger] firsts[i] < spec_next_section_number(firsts) by {
            if i < firsts.len() - 1 {
                assert(firsts.drop_last()[i] == firsts[i]);
            }
        }
    }
}

/// How many components of `f` lie past the directory `prefix` (0 when it
/// does not lie under it).
pub open spec fn depth_under(f: Seq<char>, prefix: Seq<Seq<char>>) -> int {
    match rest_under(f, prefix) {
        Some(r) => r.len() as int,
        None => 0,
    }
}

proof fn lemma_shallow_level_empty(files: Seq<Seq<char>>, prefix: Seq<Seq<char>>, n: int)
    requires
        0 <= n <= files.len(),
        forall|k: int| 0 <= k < files.len() ==> depth_under(#[trigger] files[k], prefix) == 0,
    ensures
        direct_files(files, prefix, n).len() == 0,
        dir_names(files, prefix, n).len() == 0,
    decreases n,
{
    if n > 0 {
        lemma_shallow_level_empty(files, prefix, n - 1);
        assert(depth_under(files[n - 1], prefix) == 0);
        assert(direct_files(files, prefix, n) =~= direct_files(files, prefix, n - 1));
    }
}

/// The files in subdirectory `d` of `prefix` lie one component less deep under `prefix/d`.
proof fn lemma_kids_shallower(files: Seq<Seq<char>>, prefix: Seq<Seq<char>>, d: Seq<char>, n: int)
    requires
        0 <= n <= files.len(),
    ensures
        forall|j: int| 0 <= j < kids(files, prefix, d, n).len() ==> exists|k: int| 0 <= k < n && #[trigger] kids(files, prefix, d, n)[j] == files[k]
            && depth_under(files[k], prefix) >= 2
            && depth_under(kids(files, prefix, d, n)[j], prefix.push(d)) == depth_under(files[k], prefix) - 1,
    decreases n,
{
    if n > 0 {
        lemma_kids_shallower(files, prefix, d, n - 1);
        let prev = kids(files, prefix, d, n - 1);
        let cur = kids(files, prefix, d, n);
        let f = files[n - 1];
        assert forall|j: int| 0 <= j < cur.len() implies exists|k: int| 0 <= k < n && #[trigger] cur[j] == files[k]
            && depth_under(files[k], prefix) >= 2
            && depth_under(cur[j], prefix.push(d)) == depth_under(files[k], prefix) - 1 by {
            if j < prev.len() {
                assert(cur[j] == prev[j]);
                let k = choose|k: int| 0 <= k < n - 1 && #[trigger] prev[j] == files[k]
                    && depth_under(files[k], prefix) >= 2
                    && depth_under(prev[j], prefix.push(d)) == depth_under(files[k], prefix) - 1;
                assert(0 <= k < n && cur[j] == files[k]);
            } else {
                assert(cur[j] == f);
                let cs = components::components(f);
                let r = cs.skip(prefix.len() as int);
                assert(r[0] == cs[prefix.len() as int]);
                assert(cs.take(prefix.len() as int + 1) =~= prefix.push(d)) by {
                    assert(cs.take(prefix.len() as int) == prefix);
                    assert forall|i: int| 0 <= i < prefix.len() + 1 implies cs.take(prefix.len() as int + 1)[i] == prefix.push(d)[i] by {
                        if i < prefix.len() {
                            assert(cs.take(prefix.len() as int)[i] == cs[i]);
                        }
                    }
                }
                assert(cs.skip(prefix.len() as int + 1).len() == r.len() - 1);
                assert(0 <= n - 1 < n && cur[j] == files[n - 1]);
            }
        }
    }
}

proof fn lemma_level_fuel(
    files: Seq<Seq<char>>,
    prefix: Seq<Seq<char>>,
    parents: Seq<Seq<char>>,
    num: Seq<int>,
    start: int,
    depth: int,
    existing: Seq<Seq<char>>,
    dirs_first: bool,
    f1: nat,
    f2: nat,
)
    requires
        forall|k: int| 0 <= k < files.len() ==> depth_under(#[trigger] files[k], prefix) <= f1 && depth_under(files[k], prefix) <= f2,
    ensures
        level(files, prefix, parents, num, start, depth, existing, dirs_first, f1) == level(files, prefix, parents, num, start, depth, existing, dirs_first, f2),
    decreases f1 + f2, 1int, 0int,
{
    if forall|k: int| 0 <= k < files.len() ==> depth_under(#[trigger] files[k], prefix) == 0 {
        lemma_shallow_level_empty(files, prefix, files.len() as int);
        let direct = direct_files(files, prefix, files.len() as int);
        let names = dir_names(files, prefix, files.len() as int);
        assert(file_entries(direct, depth, num, start, parents) =~= Seq::empty());
        assert(file_entries(direct, depth, num, start + names.len(), parents) =~= Seq::empty());
        assert(level(files, prefix, parents, num, start, depth, existing, dirs_first, f1) =~= Seq::empty());
        assert(level(files, prefix, parents, num, start, depth, existing, dirs_first, f2) =~= Seq::empty());
    } else {
        let k0 = choose|k: int| 0 <= k < files.len() && depth_under(#[trigger] files[k], prefix) != 0;
        assert(depth_under(files[k0], prefix) <= f1 && depth_under(files[k0], prefix) <= f2);
        let names = dir_names(files, prefix, files.len() as int);
        let direct = direct_files(files, prefix, files.len() as int);
        let first = if dirs_first { start } else { start + direct.len() };
        lemma_sections_fuel(files, prefix, parents, num, first, depth, existing, dirs_first, f1, f2, names, names.len() as int);
    }
}

proof fn lemma_sections_fuel(
    files: Seq<Seq<char>>,
    prefix: Seq<Seq<char>>,
    parents: Seq<Seq<char>>,
    num: Seq<int>,
    first: int,
    depth: int,
    existing: Seq<Seq<char>>,
    dirs_first: bool,
    f1: nat,
    f2: nat,
    names: Seq<Seq<char>>,
    k: int,
)
    requires
        f1 >= 1,
        f2 >= 1,
        k <= names.len(),
        forall|i: int| 0 <= i < files.len() ==> depth_under(#[trigger] files[i], prefix) <= f1 && depth_under(files[i], prefix) <= f2,
    ensures
        sections(files, prefix, parents, num, first, depth, existing, dirs_first, f1, names, k) == sections(files, prefix, parents, num, first, depth, existing, dirs_first, f2, names, k),
    decreases f1 + f2, 0int, k,
{
    if k > 0 {
        lemma_sections_fuel(files, prefix, parents, num, first, depth, existing, dirs_first, f1, f2, names, k - 1);
        let d = names[k - 1];
        let ks = kids(files, prefix, d, files.len() as int);
        lemma_kids_shallower(files, prefix, d, files.len() as int);
        assert forall|j: int| 0 <= j < ks.len() implies depth_under(#[trigger] ks[j], prefix.push(d)) <= (f1 - 1) as nat
            && depth_under(ks[j], prefix.push(d)) <= (f2 - 1) as nat by {
            let i = choose|i: int| 0 <= i < files.len() && #[trigger] ks[j] == files[i] && depth_under(files[i], prefix) >= 2
                && depth_under(ks[j], prefix.push(d)) == depth_under(files[i], prefix) - 1;
            assert(depth_under(files[i], prefix) <= f1 && depth_under(files[i], prefix) <= f2);
        }
        lemma_level_fuel(
            ks,
            prefix.push(d),
            parents.push(section_title(d)),
            num.push(first + k - 1),
            1,
            depth + 1,
            existing,
            dirs_first,
            (f1 - 1) as nat,
            (f2 - 1) as nat,
        );
    }
}

proof fn lemma_max_depth(files: Seq<Seq<char>>, n: int)
    requires
        0 <= n <= files.len(),
    ensures
        forall|k: int| 0 <= k < n ==> depth_under(#[trigger] files[k], Seq::empty()) <= max_depth(files, n),
    decreases n,
{
    if n > 0 {
        lemma_max_depth(files, n - 1);
        assert forall|k: int| 0 <= k < n implies depth_under(#[trigger] files[k], Seq::empty()) <= max_depth(files, n) by {
            let cs = components::components(files[k]);
            assert(cs.take(0) =~= Seq::<Seq<char>>::empty());
            assert(cs.skip(0) =~= cs);
        }
    }
}

/// No file is left out of the generated chapters for want of nesting
/// levels: any budget at least as deep as the deepest file gives the same
/// listing as `spec_build_items`.
pub proof fn law_generated_listing_complete(files: Seq<Seq<char>>, existing: Seq<Seq<char>>, start: int, dirs_first: bool, fuel: nat)
    requires
        fuel >= max_depth(files, files.len() as int),
    ensures
        level(files, Seq::empty(), Seq::empty(), Seq::empty(), start, 0, existing, dirs_first, fuel) == spec_build_items(files, existing, start, dirs_first),
{
    lemma_max_depth(files, files.len() as int);
    lemma_level_fuel(files, Seq::empty(), Seq::empty(), Seq::empty(), start, 0, existing, dirs_first, fuel, max_depth(files, files.len() as int));
}

/// A section's title is its directory name with every `-` and `_` read as
/// a space, character for character; every other character is kept.
pub proof fn law_section_title_spaces(d: Seq<char>)
    ensures
        section_title(d).len() == d.len(),
        forall|i: int| 0 <= i < d.len() ==> (d[i] == '-' || d[i] == '_') ==> #[trigger] section_title(d)[i] == ' ',
        forall|i: int| 0 <= i < d.len() ==> !(d[i] == '-' || d[i] == '_') ==> #[trigger] section_title(d)[i] == d[i],
{
}

} // verus!

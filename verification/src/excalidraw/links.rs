//! Links to drawings. `[text](x.excalidraw)`, `[text](x.excalidraw.md)`,
//! `![[x.excalidraw]]` and `[[x.excalidraw|alias]]` become plain links to the
//! drawing's viewer page, and every drawing linked is recorded in order.
//!
//! A markdown link to a drawing is a markdown link whose url ends with
//! `.excalidraw` or `.excalidraw.md`. A wikilink to a drawing is
//! `!?[[path]]` or `!?[[path|alias]]` where `path` ends with `.excalidraw`
//! and has at least one character before it; when both readings fit, the
//! one without an alias wins, and among aliases the last `|` that fits.
//! Matches are found leftmost first and do not overlap.
use vstd::prelude::*;
use crate::excalidraw::page::{self, excalidraw_href, excalidraw_slug};
use crate::lines::{self, fence_step, push_line, split_lines_exec};
use crate::links::{self, md_link_at_exec, wiki_at_exec, MdLink, WikiLink};
use crate::paths::{self, file_stem_exec};
use crate::text::{self, chars_of, ends_with_exec, push_all, push_str, slice_vec, string_of};
use crate::trusted::{self, url_decode};

verus! {

/// A drawing that a chapter links to.
pub struct ExcalidrawRef {
    /// The link's path, percent-decoded, relative to the chapter's directory.
    pub target: String,
    /// The name of the drawing's viewer page.
    pub slug: String,
    /// The drawing's name.
    pub name: String,
    /// Whether the link was a wikilink, whose file may also be stored with
    /// `.md` added to the path.
    pub from_wikilink: bool,
}

pub open spec fn ref_view(r: ExcalidrawRef) -> (Seq<char>, Seq<char>, Seq<char>, bool) {
    (r.target@, r.slug@, r.name@, r.from_wikilink)
}

pub open spec fn refs_view(v: Seq<ExcalidrawRef>) -> Seq<(Seq<char>, Seq<char>, Seq<char>, bool)> {
    v.map_values(|r: ExcalidrawRef| ref_view(r))
}

pub open spec fn ext() -> Seq<char> {
    ".excalidraw"@
}

pub open spec fn md_ext() -> Seq<char> {
    ".excalidraw.md"@
}

/// A link path that names a drawing.
pub open spec fn is_drawing_url(u: Seq<char>) -> bool {
    text::ends_with(u, ext()) || text::ends_with(u, md_ext())
}

/// The percent-decoded path, or the path itself when it does not decode.
pub open spec fn decode_or_raw(raw: Seq<char>) -> Seq<char> {
    match trusted::url_decoded(raw) {
        Some(d) => d,
        None => raw,
    }
}

/// The file stem of a path, `drawing` when it has none.
pub open spec fn stem_or_drawing(p: Seq<char>) -> Seq<char> {
    match paths::file_stem(p) {
        Some(s) => s,
        None => "drawing"@,
    }
}

/// The name of the drawing a markdown link points to: the file stem without `.excalidraw`.
pub open spec fn link_name(decoded: Seq<char>) -> Seq<char> {
    let s = stem_or_drawing(decoded);
    if text::ends_with(s, ext()) {
        s.take(s.len() - ext().len())
    } else {
        s
    }
}

/// `[shown](href)` to the viewer page `slug`.
pub open spec fn viewer_link(shown: Seq<char>, slug: Seq<char>, depth: nat) -> Seq<char> {
    seq!['['] + shown + seq![']', '('] + page::spec_excalidraw_href(slug, depth) + seq![')']
}

/// The markdown link to a drawing that starts at `p`, if any.
pub open spec fn drawing_link_at(s: Seq<char>, p: int) -> Option<MdLink> {
    match links::md_link_at(s, p) {
        Some(m) => if is_drawing_url(m.url(s)) {
            Some(m)
        } else {
            None
        },
        None => None,
    }
}

/// The leftmost markdown link to a drawing at or after `p`.
pub open spec fn next_drawing_link(s: Seq<char>, p: int) -> Option<MdLink>
    decreases s.len() - p,
{
    if p < 0 || p >= s.len() {
        None
    } else if drawing_link_at(s, p) is Some {
        drawing_link_at(s, p)
    } else {
        next_drawing_link(s, p + 1)
    }
}

/// The record of the drawing that the markdown link `m` points to.
pub open spec fn link_ref(s: Seq<char>, m: MdLink) -> (Seq<char>, Seq<char>, Seq<char>, bool) {
    let d = decode_or_raw(m.url(s));
    let name = link_name(d);
    (d, page::spec_excalidraw_slug(name), name, false)
}

/// `s[p..]` with its markdown links to drawings pointed at viewer pages.
pub open spec fn drawing_links_from(s: Seq<char>, p: int, depth: nat) -> Seq<char>
    decreases s.len() - p via drawing_links_from_decreases
{
    match next_drawing_link(s, p) {
        None => s.subrange(p, s.len() as int),
        Some(m) => s.subrange(p, m.start) + viewer_link(m.text(s), link_ref(s, m).1, depth)
            + drawing_links_from(s, m.end(), depth),
    }
}

#[via_fn]
proof fn drawing_links_from_decreases(s: Seq<char>, p: int, depth: nat) {
    if next_drawing_link(s, p) is Some {
        lemma_next_drawing_link(s, p);
    }
}

/// The drawings that the markdown links of `s[p..]` point to, in order.
pub open spec fn drawing_link_refs_from(s: Seq<char>, p: int) -> Seq<(Seq<char>, Seq<char>, Seq<char>, bool)>
    decreases s.len() - p via drawing_link_refs_from_decreases
{
    match next_drawing_link(s, p) {
        None => Seq::empty(),
        Some(m) => seq![link_ref(s, m)] + drawing_link_refs_from(s, m.end()),
    }
}

#[via_fn]
proof fn drawing_link_refs_from_decreases(s: Seq<char>, p: int) {
    if next_drawing_link(s, p) is Some {
        lemma_next_drawing_link(s, p);
    }
}

pub proof fn lemma_next_drawing_link(s: Seq<char>, p: int)
    requires
        next_drawing_link(s, p) is Some,
    ensures
        p <= next_drawing_link(s, p)->0.start,
        links::md_link_at(s, next_drawing_link(s, p)->0.start) == next_drawing_link(s, p),
        next_drawing_link(s, p)->0.start < next_drawing_link(s, p)->0.text_start() <= next_drawing_link(s, p)->0.close,
        next_drawing_link(s, p)->0.url_start() < next_drawing_link(s, p)->0.url_end,
        next_drawing_link(s, p)->0.end() <= s.len(),
    decreases s.len() - p,
{
    if drawing_link_at(s, p) is Some {
        links::lemma_md_link_at(s, p);
    } else {
        lemma_next_drawing_link(s, p + 1);
    }
}

/// The last `|` below `j` whose prefix is a drawing path: at least one
/// character, then `.excalidraw`.
pub open spec fn bar_split(r: Seq<char>, j: int) -> Option<int>
    decreases j,
{
    if j <= 0 {
        None
    } else if r[j - 1] == '|' && j - 1 >= 12 && text::ends_with(r.take(j - 1), ext()) {
        Some(j - 1)
    } else {
        bar_split(r, j - 1)
    }
}

/// How the text inside `[[...]]` reads as a link to a drawing: `Some(None)`
/// when the whole text is the path, `Some(Some(k))` when the path ends at
/// the `|` at `k` and an alias follows it.
pub open spec fn drawing_wiki_split(r: Seq<char>) -> Option<Option<int>> {
    if r.len() >= 12 && text::ends_with(r, ext()) {
        Some(None)
    } else {
        match bar_split(r, r.len() as int) {
            Some(k) => Some(Some(k)),
            None => None,
        }
    }
}

/// A wikilink to a drawing: the link and where its alias starts (see
/// `drawing_wiki_split`).
pub struct DrawingWiki {
    pub link: WikiLink,
    pub split: Option<int>,
}

pub open spec fn drawing_wiki(link: WikiLink, split: Option<int>) -> DrawingWiki {
    DrawingWiki { link, split }
}

/// The wikilink to a drawing that starts at `p`, with its alias split.
pub open spec fn drawing_wiki_at(s: Seq<char>, p: int) -> Option<DrawingWiki> {
    match links::wiki_at(s, p) {
        Some(w) => match drawing_wiki_split(w.inner(s)) {
            Some(sp) => Some(drawing_wiki(w, sp)),
            None => None,
        },
        None => None,
    }
}

/// The leftmost wikilink to a drawing at or after `p`.
pub open spec fn next_drawing_wiki(s: Seq<char>, p: int) -> Option<DrawingWiki>
    decreases s.len() - p,
{
    if p < 0 || p >= s.len() {
        None
    } else if drawing_wiki_at(s, p) is Some {
        drawing_wiki_at(s, p)
    } else {
        next_drawing_wiki(s, p + 1)
    }
}

pub proof fn lemma_next_drawing_wiki(s: Seq<char>, p: int)
    requires
        next_drawing_wiki(s, p) is Some,
    ensures
        p <= next_drawing_wiki(s, p)->0.link.start,
        links::wiki_at(s, next_drawing_wiki(s, p)->0.link.start) == Some(next_drawing_wiki(s, p)->0.link),
        drawing_wiki_split(next_drawing_wiki(s, p)->0.link.inner(s)) == Some(next_drawing_wiki(s, p)->0.split),
        next_drawing_wiki(s, p)->0.link.start < next_drawing_wiki(s, p)->0.link.inner_start() < next_drawing_wiki(s, p)->0.link.close,
        next_drawing_wiki(s, p)->0.link.end() <= s.len(),
    decreases s.len() - p,
{
    if drawing_wiki_at(s, p) is Some {
        links::lemma_wiki_at(s, p);
    } else {
        lemma_next_drawing_wiki(s, p + 1);
    }
}

/// The path part of a drawing wikilink's inner text.
pub open spec fn wiki_path(r: Seq<char>, split: Option<int>) -> Seq<char> {
    match split {
        Some(k) => r.take(k),
        None => r,
    }
}

/// The record of the drawing that the wikilink `w` points to.
pub open spec fn wiki_ref(s: Seq<char>, w: DrawingWiki) -> (Seq<char>, Seq<char>, Seq<char>, bool) {
    let d = decode_or_raw(wiki_path(w.link.inner(s), w.split));
    let name = stem_or_drawing(d);
    (d, page::spec_excalidraw_slug(name), name, true)
}

/// The text shown for a drawing wikilink: its alias, else the drawing's name.
pub open spec fn wiki_shown(s: Seq<char>, w: DrawingWiki) -> Seq<char> {
    match w.split {
        Some(k) => w.link.inner(s).skip(k + 1),
        None => wiki_ref(s, w).2,
    }
}

/// `s[p..]` with its wikilinks to drawings turned into links to viewer pages.
pub open spec fn drawing_wikis_from(s: Seq<char>, p: int, depth: nat) -> Seq<char>
    decreases s.len() - p via drawing_wikis_from_decreases
{
    match next_drawing_wiki(s, p) {
        None => s.subrange(p, s.len() as int),
        Some(w) => s.subrange(p, w.link.start) + viewer_link(wiki_shown(s, w), wiki_ref(s, w).1, depth)
            + drawing_wikis_from(s, w.link.end(), depth),
    }
}

#[via_fn]
proof fn drawing_wikis_from_decreases(s: Seq<char>, p: int, depth: nat) {
    if next_drawing_wiki(s, p) is Some {
        lemma_next_drawing_wiki(s, p);
    }
}

/// The drawings that the wikilinks of `s[p..]` point to, in order.
pub open spec fn drawing_wiki_refs_from(s: Seq<char>, p: int) -> Seq<(Seq<char>, Seq<char>, Seq<char>, bool)>
    decreases s.len() - p via drawing_wiki_refs_from_decreases
{
    match next_drawing_wiki(s, p) {
        None => Seq::empty(),
        Some(w) => seq![wiki_ref(s, w)] + drawing_wiki_refs_from(s, w.link.end()),
    }
}

#[via_fn]
proof fn drawing_wiki_refs_from_decreases(s: Seq<char>, p: int) {
    if next_drawing_wiki(s, p) is Some {
        lemma_next_drawing_wiki(s, p);
    }
}

pub open spec fn opt_int(o: Option<usize>) -> Option<int> {
    match o {
        Some(k) => Some(k as int),
        None => None,
    }
}

fn decode_or_raw_exec(raw: &[char]) -> (res: Vec<char>)
    ensures
        res@ == decode_or_raw(raw@),
{
    let rs = string_of(raw);
    match url_decode(rs.as_str()) {
        Some(d) => chars_of(d.as_str()),
        None => {
            let v = slice_vec(raw, 0, raw.len());
            assert(v@ =~= raw@);
            v
        },
    }
}

fn stem_or_drawing_exec(p: &[char]) -> (res: Vec<char>)
    ensures
        res@ == stem_or_drawing(p@),
{
    match file_stem_exec(p) {
        Some(v) => v,
        None => chars_of("drawing"),
    }
}

fn link_name_exec(d: &[char]) -> (res: Vec<char>)
    ensures
        res@ == link_name(d@),
{
    let s = stem_or_drawing_exec(d);
    let e = chars_of(".excalidraw");
    if ends_with_exec(s.as_slice(), e.as_slice()) {
        slice_vec(s.as_slice(), 0, s.len() - e.len())
    } else {
        s
    }
}

fn drawing_link_at_exec(s: &[char], p: usize) -> (r: Option<(bool, usize, usize)>)
    ensures
        match r {
            Some(m) => drawing_link_at(s@, p as int) == Some(links::md_link(p as int, m.0, m.1 as int, m.2 as int)),
            None => drawing_link_at(s@, p as int) is None,
        },
{
    match md_link_at_exec(s, p) {
        Some(m) => {
            proof {
                links::lemma_md_link_at(s@, p as int);
            }
            let url = &s[m.1 + 2..m.2];
            let e1 = chars_of(".excalidraw");
            let e2 = chars_of(".excalidraw.md");
            if ends_with_exec(url, e1.as_slice()) || ends_with_exec(url, e2.as_slice()) {
                Some(m)
            } else {
                None
            }
        },
        None => None,
    }
}

fn next_drawing_link_exec(s: &[char], p: usize) -> (r: Option<(usize, bool, usize, usize)>)
    ensures
        match r {
            Some(m) => next_drawing_link(s@, p as int) == Some(links::md_link(m.0 as int, m.1, m.2 as int, m.3 as int)),
            None => next_drawing_link(s@, p as int) is None,
        },
{
    let mut k: usize = p;
    while k < s.len()
        invariant
            p <= k,
            next_drawing_link(s@, p as int) == next_drawing_link(s@, k as int),
        decreases s.len() - k,
    {
        match drawing_link_at_exec(s, k) {
            Some(m) => {
                return Some((k, m.0, m.1, m.2));
            },
            None => {},
        }
        k += 1;
    }
    None
}

fn link_replacement(s: &[char], st: usize, bang: bool, close: usize, ue: usize, depth: usize) -> (res: (Vec<char>, ExcalidrawRef))
    requires
        links::md_link(st as int, bang, close as int, ue as int).text_start() <= close,
        close + 2 <= ue < s.len(),
    ensures
        res.0@ == viewer_link(
            links::md_link(st as int, bang, close as int, ue as int).text(s@),
            link_ref(s@, links::md_link(st as int, bang, close as int, ue as int)).1,
            depth as nat,
        ),
        ref_view(res.1) == link_ref(s@, links::md_link(st as int, bang, close as int, ue as int)),
{
    let url = &s[close + 2..ue];
    let d = decode_or_raw_exec(url);
    let name = link_name_exec(d.as_slice());
    let name_s = string_of(name.as_slice());
    let slug = excalidraw_slug(name_s.as_str());
    let href = excalidraw_href(slug.as_str(), depth);
    let ts = if bang { st + 2 } else { st + 1 };
    let mut out: Vec<char> = Vec::new();
    out.push('[');
    push_all(&mut out, &s[ts..close]);
    out.push(']');
    out.push('(');
    push_str(&mut out, href.as_str());
    out.push(')');
    assert(out@ =~= viewer_link(s@.subrange(ts as int, close as int), slug@, depth as nat));
    (out, ExcalidrawRef { target: string_of(d.as_slice()), slug, name: name_s, from_wikilink: false })
}

/// Points every markdown link to a drawing in `text` at the drawing's
/// viewer page, as seen from a chapter `depth` directories deep, and
/// records the drawings in `refs`.
pub fn replace_links(text: &str, depth: usize, refs: &mut Vec<ExcalidrawRef>) -> (res: String)
    ensures
        res@ == drawing_links_from(text@, 0, depth as nat),
        refs_view(final(refs)@) == refs_view(old(refs)@) + drawing_link_refs_from(text@, 0),
{
    let sv = chars_of(text);
    let s = sv.as_slice();
    let ghost pre = refs_view(refs@);
    let mut out: Vec<char> = Vec::new();
    let mut p: usize = 0;
    assert(refs_view(refs@) + drawing_link_refs_from(s@, 0) =~= pre + drawing_link_refs_from(s@, 0));
    loop
        invariant
            p <= s.len(),
            s@ == text@,
            pre == refs_view(old(refs)@),
            drawing_links_from(s@, 0, depth as nat) == out@ + drawing_links_from(s@, p as int, depth as nat),
            pre + drawing_link_refs_from(s@, 0) == refs_view(refs@) + drawing_link_refs_from(s@, p as int),
        decreases s.len() - p,
    {
        match next_drawing_link_exec(s, p) {
            None => {
                let ghost before = out@;
                push_all(&mut out, &s[p..s.len()]);
                assert(refs_view(refs@) + drawing_link_refs_from(s@, p as int) =~= refs_view(refs@));
                return string_of(out.as_slice());
            },
            Some((st, bang, close, ue)) => {
                proof {
                    lemma_next_drawing_link(s@, p as int);
                }
                let ghost m = links::md_link(st as int, bang, close as int, ue as int);
                let (rendered, r) = link_replacement(s, st, bang, close, ue, depth);
                let ghost before = out@;
                let ghost rbefore = refs_view(refs@);
                push_all(&mut out, &s[p..st]);
                push_all(&mut out, rendered.as_slice());
                refs.push(r);
                assert(refs_view(refs@) =~= rbefore + seq![link_ref(s@, m)]);
                assert(out@ =~= before + s@.subrange(p as int, st as int) + rendered@);
                assert(rbefore + drawing_link_refs_from(s@, p as int) =~= refs_view(refs@) + drawing_link_refs_from(s@, ue + 1));
                p = ue + 1;
            },
        }
    }
}

fn bar_split_exec(r: &[char]) -> (res: Option<usize>)
    ensures
        opt_int(res) == bar_split(r@, r@.len() as int),
        res matches Some(k) ==> k < r.len(),
{
    let e = chars_of(".excalidraw");
    let mut j: usize = r.len();
    while j > 0
        invariant
            j <= r.len(),
            e@ == ext(),
            bar_split(r@, r@.len() as int) == bar_split(r@, j as int),
        decreases j,
    {
        let head = &r[0..j - 1];
        assert(head@ =~= r@.take(j - 1));
        if r[j - 1] == '|' && j - 1 >= 12 && ends_with_exec(head, e.as_slice()) {
            return Some(j - 1);
        }
        j -= 1;
    }
    None
}

fn drawing_wiki_split_exec(r: &[char]) -> (res: Option<Option<usize>>)
    ensures
        match res {
            Some(sp) => drawing_wiki_split(r@) == Some(opt_int(sp)) && (sp matches Some(k) ==> k < r.len()),
            None => drawing_wiki_split(r@) is None,
        },
{
    let e = chars_of(".excalidraw");
    if r.len() >= 12 && ends_with_exec(r, e.as_slice()) {
        Some(None)
    } else {
        match bar_split_exec(r) {
            Some(k) => Some(Some(k)),
            None => None,
        }
    }
}

fn drawing_wiki_at_exec(s: &[char], p: usize) -> (r: Option<(bool, usize, Option<usize>)>)
    ensures
        match r {
            Some(w) => drawing_wiki_at(s@, p as int) == Some(drawing_wiki(links::wiki_link(p as int, w.0, w.1 as int), opt_int(w.2)))
                && (w.2 matches Some(k) ==> k < w.1 - links::wiki_link(p as int, w.0, w.1 as int).inner_start()),
            None => drawing_wiki_at(s@, p as int) is None,
        },
{
    match wiki_at_exec(s, p) {
        Some((bang, close)) => {
            proof {
                links::lemma_wiki_at(s@, p as int);
            }
            let is = if bang { p + 3 } else { p + 2 };
            match drawing_wiki_split_exec(&s[is..close]) {
                Some(sp) => Some((bang, close, sp)),
                None => None,
            }
        },
        None => None,
    }
}

fn next_drawing_wiki_exec(s: &[char], p: usize) -> (r: Option<(usize, bool, usize, Option<usize>)>)
    ensures
        match r {
            Some(w) => next_drawing_wiki(s@, p as int) == Some(drawing_wiki(links::wiki_link(w.0 as int, w.1, w.2 as int), opt_int(w.3)))
                && (w.3 matches Some(k) ==> k < w.2 - links::wiki_link(w.0 as int, w.1, w.2 as int).inner_start()),
            None => next_drawing_wiki(s@, p as int) is None,
        },
{
    let mut k: usize = p;
    while k < s.len()
        invariant
            p <= k,
            next_drawing_wiki(s@, p as int) == next_drawing_wiki(s@, k as int),
        decreases s.len() - k,
    {
        match drawing_wiki_at_exec(s, k) {
            Some(w) => {
                return Some((k, w.0, w.1, w.2));
            },
            None => {},
        }
        k += 1;
    }
    None
}

fn wiki_replacement(s: &[char], st: usize, bang: bool, close: usize, split: Option<usize>, depth: usize) -> (res: (Vec<char>, ExcalidrawRef))
    requires
        links::wiki_link(st as int, bang, close as int).inner_start() < close,
        close + 2 <= s.len(),
        split matches Some(k) ==> k < close - links::wiki_link(st as int, bang, close as int).inner_start(),
    ensures
        res.0@ == viewer_link(
            wiki_shown(s@, drawing_wiki(links::wiki_link(st as int, bang, close as int), opt_int(split))),
            wiki_ref(s@, drawing_wiki(links::wiki_link(st as int, bang, close as int), opt_int(split))).1,
            depth as nat,
        ),
        ref_view(res.1) == wiki_ref(s@, drawing_wiki(links::wiki_link(st as int, bang, close as int), opt_int(split))),
{
    let is = if bang { st + 3 } else { st + 2 };
    let inner = &s[is..close];
    let d = match split {
        Some(k) => {
            let path = &inner[0..k];
            assert(path@ =~= inner@.take(k as int));
            decode_or_raw_exec(path)
        },
        None => decode_or_raw_exec(inner),
    };
    let name = stem_or_drawing_exec(d.as_slice());
    let name_s = string_of(name.as_slice());
    let slug = excalidraw_slug(name_s.as_str());
    let href = excalidraw_href(slug.as_str(), depth);
    let mut out: Vec<char> = Vec::new();
    out.push('[');
    let ghost shown: Seq<char>;
    match split {
        Some(k) => {
            let alias = &inner[k + 1..inner.len()];
            assert(alias@ =~= inner@.skip(k + 1));
            push_all(&mut out, alias);
            proof {
                shown = alias@;
            }
        },
        None => {
            push_all(&mut out, name.as_slice());
            proof {
                shown = name@;
            }
        },
    }
    out.push(']');
    out.push('(');
    push_str(&mut out, href.as_str());
    out.push(')');
    assert(out@ =~= viewer_link(shown, slug@, depth as nat));
    (out, ExcalidrawRef { target: string_of(d.as_slice()), slug, name: name_s, from_wikilink: true })
}

/// Turns every wikilink to a drawing in `text` into a link to the drawing's
/// viewer page, as seen from a chapter `depth` directories deep, and
/// records the drawings in `refs`.
pub fn replace_wikilinks(text: &str, depth: usize, refs: &mut Vec<ExcalidrawRef>) -> (res: String)
    ensures
        res@ == drawing_wikis_from(text@, 0, depth as nat),
        refs_view(final(refs)@) == refs_view(old(refs)@) + drawing_wiki_refs_from(text@, 0),
{
    let sv = chars_of(text);
    let s = sv.as_slice();
    let ghost pre = refs_view(refs@);
    let mut out: Vec<char> = Vec::new();
    let mut p: usize = 0;
    assert(refs_view(refs@) + drawing_wiki_refs_from(s@, 0) =~= pre + drawing_wiki_refs_from(s@, 0));
    loop
        invariant
            p <= s.len(),
            s@ == text@,
            pre == refs_view(old(refs)@),
            drawing_wikis_from(s@, 0, depth as nat) == out@ + drawing_wikis_from(s@, p as int, depth as nat),
            pre + drawing_wiki_refs_from(s@, 0) == refs_view(refs@) + drawing_wiki_refs_from(s@, p as int),
        decreases s.len() - p,
    {
        match next_drawing_wiki_exec(s, p) {
            None => {
                push_all(&mut out, &s[p..s.len()]);
                assert(refs_view(refs@) + drawing_wiki_refs_from(s@, p as int) =~= refs_view(refs@));
                return string_of(out.as_slice());
            },
            Some((st, bang, close, split)) => {
                proof {
                    lemma_next_drawing_wiki(s@, p as int);
                }
                let ghost w = drawing_wiki(links::wiki_link(st as int, bang, close as int), opt_int(split));
                let (rendered, r) = wiki_replacement(s, st, bang, close, split, depth);
                let ghost before = out@;
                let ghost rbefore = refs_view(refs@);
                push_all(&mut out, &s[p..st]);
                push_all(&mut out, rendered.as_slice());
                refs.push(r);
                assert(refs_view(refs@) =~= rbefore + seq![wiki_ref(s@, w)]);
                assert(out@ =~= before + s@.subrange(p as int, st as int) + rendered@);
                assert(rbefore + drawing_wiki_refs_from(s@, p as int) =~= refs_view(refs@) + drawing_wiki_refs_from(s@, close + 2));
                p = close + 2;
            },
        }
    }
}

/// A line with its drawing wikilinks, then its drawing links, pointed at viewer pages.
pub open spec fn spec_excalidraw_line(line: Seq<char>, depth: nat) -> Seq<char> {
    drawing_links_from(drawing_wikis_from(line, 0, depth), 0, depth)
}

/// The drawings a line links to: those of its wikilinks, then those of its
/// markdown links.
pub open spec fn line_refs(line: Seq<char>, depth: nat) -> Seq<(Seq<char>, Seq<char>, Seq<char>, bool)> {
    drawing_wiki_refs_from(line, 0) + drawing_link_refs_from(drawing_wikis_from(line, 0, depth), 0)
}

/// The drawings that the first `i` lines link to outside fenced code blocks.
pub open spec fn prose_refs(ls: Seq<Seq<char>>, i: int, depth: nat) -> Seq<(Seq<char>, Seq<char>, Seq<char>, bool)>
    decreases i,
{
    if i <= 0 {
        Seq::empty()
    } else {
        prose_refs(ls, i - 1, depth) + if lines::verbatim(ls, i - 1) {
            Seq::empty()
        } else {
            line_refs(ls[i - 1], depth)
        }
    }
}

/// A chapter with its links to drawings pointed at viewer pages, outside
/// fenced code blocks; a final newline is kept.
pub open spec fn spec_process_excalidraw(content: Seq<char>, depth: nat) -> Seq<char> {
    let r = lines::rewrite_prose(content, |l: Seq<char>| spec_excalidraw_line(l, depth));
    if text::ends_with(content, seq!['\n']) && !text::ends_with(r, seq!['\n']) {
        r + seq!['\n']
    } else {
        r
    }
}

/// The drawings a chapter links to, in order.
pub open spec fn spec_excalidraw_refs(content: Seq<char>, depth: nat) -> Seq<(Seq<char>, Seq<char>, Seq<char>, bool)> {
    let ls = lines::split_lines(content);
    prose_refs(ls, ls.len() as int, depth)
}

/// Points the links to drawings of a chapter `depth` directories deep at
/// their viewer pages, and records the drawings in `refs`.
pub fn process_excalidraw(content: &str, depth: usize, refs: &mut Vec<ExcalidrawRef>) -> (res: String)
    ensures
        res@ == spec_process_excalidraw(content@, depth as nat),
        refs_view(final(refs)@) == refs_view(old(refs)@) + spec_excalidraw_refs(content@, depth as nat),
{
    let cv = chars_of(content);
    let cs = cv.as_slice();
    let ls = split_lines_exec(cs);
    let ghost gl = lines::split_lines(cs@);
    let ghost d = depth as nat;
    let ghost f = |l: Seq<char>| spec_excalidraw_line(l, d);
    let ghost outl = lines::map_prose(gl, f);
    let ghost pre = refs_view(refs@);
    let mut out: Vec<char> = Vec::new();
    let mut st: Option<(char, usize)> = None;
    let mut i: usize = 0;
    assert(outl.take(0) =~= Seq::<Seq<char>>::empty());
    assert(refs_view(refs@) =~= pre + prose_refs(gl, 0, d));
    while i < ls.len()
        invariant
            i <= ls.len(),
            ls@.len() == gl.len(),
            forall|j: int| 0 <= j < ls@.len() ==> #[trigger] ls@[j]@ == gl[j],
            d == depth as nat,
            f == (|l: Seq<char>| spec_excalidraw_line(l, d)),
            outl == lines::map_prose(gl, f),
            pre == refs_view(old(refs)@),
            lines::fence_view(st) == lines::fence_before(gl, i as int),
            out@ == lines::join_lines(outl.take(i as int)),
            refs_view(refs@) == pre + prose_refs(gl, i as int, d),
        decreases ls.len() - i,
    {
        let line = ls[i].as_slice();
        assert(line@ == gl[i as int]);
        let verb = fence_step(&mut st, line);
        proof {
            lines::lemma_join_take(outl, i as int);
        }
        assert(verb == lines::verbatim(gl, i as int));
        assert(outl[i as int] == if lines::verbatim(gl, i as int) { gl[i as int] } else { spec_excalidraw_line(gl[i as int], d) });
        let ghost rbefore = refs_view(refs@);
        if verb {
            push_line(&mut out, i == 0, line);
            assert(refs_view(refs@) =~= pre + prose_refs(gl, i + 1, d));
        } else {
            let w = replace_wikilinks(string_of(line).as_str(), depth, refs);
            let t = replace_links(w.as_str(), depth, refs);
            let tc = chars_of(t.as_str());
            push_line(&mut out, i == 0, tc.as_slice());
            assert(refs_view(refs@) =~= pre + prose_refs(gl, i + 1, d));
        }
        i += 1;
    }
    assert(outl.take(ls.len() as int) =~= outl);
    let nl: [char; 1] = ['\n'];
    let nls = nl.as_slice();
    assert(nls@ =~= seq!['\n']);
    if text::ends_with_exec(cs, nls) && !text::ends_with_exec(out.as_slice(), nls) {
        out.push('\n');
    }
    string_of(out.as_slice())
}

/// The drawing a chapter is, when its source file is a drawing: named by
/// its file stem without `.excalidraw`.
pub open spec fn spec_drawing_chapter_ref(source: Seq<char>) -> Option<(Seq<char>, Seq<char>, Seq<char>, bool)> {
    if is_drawing_url(source) {
        Some((source, page::spec_excalidraw_slug(link_name(source)), link_name(source), false))
    } else {
        None
    }
}

/// The drawing a chapter is, when its source file (`source_path`, relative
/// to the book's source directory) is an `.excalidraw` or `.excalidraw.md` file.
pub fn drawing_chapter_ref(source_path: &str) -> (r: Option<ExcalidrawRef>)
    ensures
        r is None <==> spec_drawing_chapter_ref(source_path@) is None,
        r matches Some(x) ==> spec_drawing_chapter_ref(source_path@) == Some(ref_view(x)),
{
    let sv = chars_of(source_path);
    let s = sv.as_slice();
    let e1 = chars_of(".excalidraw");
    let e2 = chars_of(".excalidraw.md");
    if ends_with_exec(s, e1.as_slice()) || ends_with_exec(s, e2.as_slice()) {
        let name = link_name_exec(s);
        let name_s = string_of(name.as_slice());
        let slug = excalidraw_slug(name_s.as_str());
        Some(ExcalidrawRef { target: string_of(s), slug, name: name_s, from_wikilink: false })
    } else {
        None
    }
}

/// Ref `i` is the first with its slug, and its slug is not among `handled`.
pub open spec fn first_new(handled: Seq<Seq<char>>, slugs: Seq<Seq<char>>, i: int) -> bool {
    !handled.contains(slugs[i]) && forall|j: int| 0 <= j < i ==> slugs[j] != slugs[i]
}

/// The indices below `n` of the refs that are first with a slug not among `handled`.
pub open spec fn new_page_indices(handled: Seq<Seq<char>>, slugs: Seq<Seq<char>>, n: int) -> Seq<int>
    decreases n,
{
    if n <= 0 {
        Seq::empty()
    } else {
        new_page_indices(handled, slugs, n - 1) + if first_new(handled, slugs, n - 1) {
            seq![n - 1]
        } else {
            Seq::empty()
        }
    }
}

pub open spec fn texts_view(v: Seq<String>) -> Seq<Seq<char>> {
    v.map_values(|s: String| s@)
}

pub open spec fn ref_slugs(v: Seq<ExcalidrawRef>) -> Seq<Seq<char>> {
    v.map_values(|r: ExcalidrawRef| r.slug@)
}

fn contains_text(v: &Vec<String>, x: &str) -> (r: bool)
    ensures
        r == texts_view(v@).contains(x@),
{
    let mut i: usize = 0;
    while i < v.len()
        invariant
            i <= v.len(),
            forall|j: int| 0 <= j < i ==> v@[j]@ != x@,
        decreases v.len() - i,
    {
        if crate::text::same_text(v[i].as_str(), x) {
            assert(texts_view(v@)[i as int] == x@);
            return true;
        }
        i += 1;
    }
    assert forall|j: int| 0 <= j < texts_view(v@).len() implies texts_view(v@)[j] != x@ by {
        assert(texts_view(v@)[j] == v@[j]@);
    }
    false
}

/// Which recorded drawings still need a viewer page: the indices of the
/// refs that are the first with their slug, leaving out slugs in `handled`
/// (the drawings that are chapters of the book themselves).
pub fn refs_to_inject(handled: &Vec<String>, refs: &[ExcalidrawRef]) -> (res: Vec<usize>)
    ensures
        res@.map_values(|i: usize| i as int) == new_page_indices(texts_view(handled@), ref_slugs(refs@), refs@.len() as int),
{
    let ghost hv = texts_view(handled@);
    let ghost sl = ref_slugs(refs@);
    let mut seen: Vec<String> = Vec::new();
    let mut out: Vec<usize> = Vec::new();
    let mut i: usize = 0;
    while i < refs.len()
        invariant
            i <= refs.len(),
            hv == texts_view(handled@),
            sl == ref_slugs(refs@),
            texts_view(seen@) == sl.take(i as int),
            out@.map_values(|k: usize| k as int) == new_page_indices(hv, sl, i as int),
        decreases refs.len() - i,
    {
        let slug = refs[i].slug.as_str();
        assert(sl[i as int] == slug@);
        let in_handled = contains_text(handled, slug);
        let in_seen = contains_text(&seen, slug);
        assert(in_seen == (exists|j: int| 0 <= j < i && sl[j] == sl[i as int])) by {
            if in_seen {
                let k = choose|k: int| 0 <= k < texts_view(seen@).len() && texts_view(seen@)[k] == slug@;
                assert(sl.take(i as int)[k] == sl[k]);
            }
            if exists|j: int| 0 <= j < i && sl[j] == sl[i as int] {
                let j = choose|j: int| 0 <= j < i && sl[j] == sl[i as int];
                assert(texts_view(seen@)[j] == sl[j]);
            }
        }
        let ghost before = out@;
        if !in_handled && !in_seen {
            out.push(i);
            assert(out@.map_values(|k: usize| k as int) =~= before.map_values(|k: usize| k as int) + seq![i as int]);
        } else {
            assert(out@.map_values(|k: usize| k as int) =~= before.map_values(|k: usize| k as int) + Seq::<int>::empty());
        }
        let ghost sbefore = seen@;
        seen.push(refs[i].slug.clone());
        assert(texts_view(seen@) =~= texts_view(sbefore) + seq![seen@[i as int]@]);
        assert(sl.take(i + 1) =~= sl.take(i as int) + seq![sl[i as int]]);
        i += 1;
    }
    out
}

proof fn lemma_drawing_link_mentions(s: Seq<char>, p: int)
    requires
        drawing_link_at(s, p) is Some,
    ensures
        exists|k: int| text::occurs_at(s, ext(), k),
{
    links::lemma_md_link_at(s, p);
    let m = drawing_link_at(s, p)->0;
    let u = m.url(s);
    reveal_strlit(".excalidraw");
    reveal_strlit(".excalidraw.md");
    if text::ends_with(u, ext()) {
        assert(text::occurs_at(u, ext(), u.len() - 11));
        text::lemma_subrange_occurs(s, ext(), m.url_start(), m.url_end, u.len() - 11);
    } else {
        assert(u.skip(u.len() - 14) == md_ext());
        assert(u.subrange(u.len() - 14, u.len() - 3) =~= ext());
        assert(text::occurs_at(u, ext(), u.len() - 14));
        text::lemma_subrange_occurs(s, ext(), m.url_start(), m.url_end, u.len() - 14);
    }
}

proof fn lemma_no_drawing_link(s: Seq<char>, p: int)
    requires
        forall|k: int| !text::occurs_at(s, ext(), k),
    ensures
        next_drawing_link(s, p) is None,
    decreases s.len() - p,
{
    if 0 <= p < s.len() {
        if drawing_link_at(s, p) is Some {
            lemma_drawing_link_mentions(s, p);
        }
        lemma_no_drawing_link(s, p + 1);
    }
}

proof fn lemma_bar_split_mentions(r: Seq<char>, j: int)
    requires
        bar_split(r, j) is Some,
    ensures
        0 <= bar_split(r, j)->0 < j,
        bar_split(r, j)->0 <= r.len() ==> text::ends_with(r.take(bar_split(r, j)->0), ext()),
    decreases j,
{
    if j > 0 && !(r[j - 1] == '|' && j - 1 >= 12 && text::ends_with(r.take(j - 1), ext())) {
        lemma_bar_split_mentions(r, j - 1);
    }
}

proof fn lemma_drawing_wiki_mentions(s: Seq<char>, p: int)
    requires
        drawing_wiki_at(s, p) is Some,
    ensures
        exists|k: int| text::occurs_at(s, ext(), k),
{
    links::lemma_wiki_at(s, p);
    let w = drawing_wiki_at(s, p)->0;
    let r = w.link.inner(s);
    reveal_strlit(".excalidraw");
    let path = wiki_path(r, w.split);
    match w.split {
        Some(k) => {
            lemma_bar_split_mentions(r, r.len() as int);
            assert(text::ends_with(path, ext()));
        },
        None => {},
    }
    assert(path.len() >= 11);
    assert(text::occurs_at(path, ext(), path.len() - 11));
    assert(text::occurs_at(r, ext(), path.len() - 11)) by {
        assert(r.subrange(path.len() - 11, path.len() as int) =~= path.subrange(path.len() - 11, path.len() as int));
    }
    text::lemma_subrange_occurs(s, ext(), w.link.inner_start(), w.link.close, path.len() - 11);
}

proof fn lemma_no_drawing_wiki(s: Seq<char>, p: int)
    requires
        forall|k: int| !text::occurs_at(s, ext(), k),
    ensures
        next_drawing_wiki(s, p) is None,
    decreases s.len() - p,
{
    if 0 <= p < s.len() {
        if drawing_wiki_at(s, p) is Some {
            lemma_drawing_wiki_mentions(s, p);
        }
        lemma_no_drawing_wiki(s, p + 1);
    }
}

proof fn lemma_prose_refs_empty(ls: Seq<Seq<char>>, n: int, depth: nat)
    requires
        n <= ls.len(),
        forall|i: int| 0 <= i < n && !lines::verbatim(ls, i) ==> #[trigger] line_refs(ls[i], depth) == Seq::<(Seq<char>, Seq<char>, Seq<char>, bool)>::empty(),
    ensures
        prose_refs(ls, n, depth) == Seq::<(Seq<char>, Seq<char>, Seq<char>, bool)>::empty(),
    decreases n,
{
    if n > 0 {
        lemma_prose_refs_empty(ls, n - 1, depth);
        if !lines::verbatim(ls, n - 1) {
            assert(line_refs(ls[n - 1], depth) == Seq::<(Seq<char>, Seq<char>, Seq<char>, bool)>::empty());
        }
        assert(prose_refs(ls, n, depth) =~= Seq::<(Seq<char>, Seq<char>, Seq<char>, bool)>::empty());
    }
}

/// A chapter that never mentions `.excalidraw` comes out of the drawing
/// pass as it went in, and records no drawing.
pub proof fn law_chapter_without_drawings_unchanged(content: Seq<char>, depth: nat)
    requires
        !text::contains(content, ext()),
    ensures
        spec_process_excalidraw(content, depth) == content,
        spec_excalidraw_refs(content, depth) == Seq::<(Seq<char>, Seq<char>, Seq<char>, bool)>::empty(),
{
    let ls = lines::split_lines(content);
    assert forall|i: int| 0 <= i < ls.len() implies spec_excalidraw_line(#[trigger] ls[i], depth) == ls[i]
        && line_refs(ls[i], depth) == Seq::<(Seq<char>, Seq<char>, Seq<char>, bool)>::empty() by {
        let l = ls[i];
        assert forall|k: int| !text::occurs_at(l, ext(), k) by {
            if text::occurs_at(l, ext(), k) {
                text::lemma_split_piece_occurs(content, '\n', ext(), i, k);
            }
        }
        lemma_no_drawing_wiki(l, 0);
        lemma_no_drawing_link(l, 0);
        assert(l.subrange(0, l.len() as int) =~= l);
        assert(drawing_wikis_from(l, 0, depth) == l);
        assert(line_refs(l, depth) =~= Seq::<(Seq<char>, Seq<char>, Seq<char>, bool)>::empty());
    }
    lines::law_rewrite_prose_identity(content, |l: Seq<char>| spec_excalidraw_line(l, depth));
    lemma_prose_refs_empty(ls, ls.len() as int, depth);
}

} // verus!

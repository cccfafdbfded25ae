//! Wikilinks: `[[Note]]`, `[[Note|Shown]]`, `[[Note#Heading]]` and
//! `[[#^block]]` become markdown links. Embeds (`![[...]]`) and Excalidraw
//! wikilinks are left for other passes.
use vstd::prelude::*;
use crate::text::{self, chars_of, ends_with_exec, find_exec, push_all, push_str, replace_char_exec, slice_vec, split_char_exec, string_of, trim_vec};
use crate::lines::{self, fence_step, push_line, split_lines_exec};
use crate::links::{self, next_wiki_exec};
use crate::paths::{self, file_stem_exec, has_extension};
use crate::trusted::{self, to_lowercase, url_encode};

verus! {

pub open spec fn dot_md() -> Seq<char> {
    seq!['.', 'm', 'd']
}

pub open spec fn dot_excalidraw() -> Seq<char> {
    seq!['.', 'e', 'x', 'c', 'a', 'l', 'i', 'd', 'r', 'a', 'w']
}

/// A path that names an Excalidraw drawing.
pub open spec fn is_excalidraw_path(p: Seq<char>) -> bool {
    text::ends_with(p, dot_excalidraw()) || text::ends_with(p, dot_excalidraw() + dot_md())
}

/// Each `/`-separated component of `p` percent-encoded.
pub open spec fn encode_components(p: Seq<char>) -> Seq<char> {
    text::join_char(text::split_char(p, '/').map_values(|c: Seq<char>| trusted::url_encoded(c)), '/')
}

/// `inner` split at its first `|`: the target and the trimmed display text.
pub open spec fn split_pipe(inner: Seq<char>) -> (Seq<char>, Option<Seq<char>>) {
    match text::find(inner, seq!['|']) {
        Some(pp) => (inner.take(pp), Some(text::trim(inner.skip(pp + 1)))),
        None => (inner, None),
    }
}

/// A target split at its first `#`: the file and the fragment.
pub open spec fn split_hash(path: Seq<char>) -> (Seq<char>, Option<Seq<char>>) {
    match text::find(path, seq!['#']) {
        Some(h) => (path.take(h), Some(path.skip(h + 1))),
        None => (path, None),
    }
}

/// The file with `.md` added when it has no extension (empty stays empty).
pub open spec fn with_md_ext(file: Seq<char>) -> Seq<char> {
    if file.len() == 0 {
        Seq::empty()
    } else if paths::extension(file) is Some {
        file
    } else {
        file + dot_md()
    }
}

/// The fragment of the url: a block id kept verbatim, a heading lowercased with `-` for spaces.
pub open spec fn url_fragment(f: Seq<char>) -> Seq<char> {
    if text::starts_with(f, seq!['^']) {
        f.skip(1)
    } else {
        text::replace_char(trusted::lowercase(f), ' ', seq!['-'])
    }
}

pub open spec fn wiki_url(file: Seq<char>, frag: Option<Seq<char>>) -> Seq<char> {
    let encoded = encode_components(with_md_ext(file));
    match frag {
        Some(f) => encoded + seq!['#'] + url_fragment(f),
        None => encoded,
    }
}

/// The display text: the explicit one, else the file stem, else (same-page
/// link) the fragment without leading `^`.
pub open spec fn wiki_display(file: Seq<char>, frag: Option<Seq<char>>, shown: Option<Seq<char>>) -> Seq<char> {
    let stem = match paths::file_stem(file) {
        Some(x) => x,
        None => file,
    };
    match shown {
        Some(d) => d,
        None => if stem.len() == 0 {
            match frag {
                Some(f) => text::trim_start_char(f, '^'),
                None => Seq::empty(),
            }
        } else {
            stem
        },
    }
}

/// The markdown link that replaces `[[inner]]`; `None` when the wikilink
/// names an Excalidraw drawing and is kept.
pub open spec fn wiki_target(inner: Seq<char>) -> Option<Seq<char>> {
    let (path_part, shown) = split_pipe(inner);
    if is_excalidraw_path(path_part) {
        None
    } else {
        let (file, frag) = split_hash(path_part);
        Some(seq!['['] + wiki_display(file, frag, shown) + seq![']', '('] + wiki_url(file, frag) + seq![')'])
    }
}

/// `line[p..]` with its wikilinks converted.
pub open spec fn wikilinks_from(s: Seq<char>, p: int) -> Seq<char>
    decreases s.len() - p via wikilinks_from_decreases
{
    match links::next_wiki(s, p) {
        None => s.subrange(p, s.len() as int),
        Some(w) => s.subrange(p, w.start) + (if w.bang {
            w.whole(s)
        } else {
            match wiki_target(w.inner(s)) {
                Some(r) => r,
                None => w.whole(s),
            }
        }) + wikilinks_from(s, w.end()),
    }
}

#[via_fn]
proof fn wikilinks_from_decreases(s: Seq<char>, p: int) {
    if links::next_wiki(s, p) is Some {
        links::lemma_next_wiki(s, p);
    }
}

pub open spec fn spec_wikilink_line(line: Seq<char>) -> Seq<char> {
    wikilinks_from(line, 0)
}

pub open spec fn spec_convert_wikilinks(content: Seq<char>) -> Seq<char> {
    lines::rewrite_prose(content, |l: Seq<char>| spec_wikilink_line(l))
}

fn find_char(s: &[char], c: char) -> (r: Option<usize>)
    ensures
        match r {
            Some(k) => text::find(s@, seq![c]) == Some(k as int) && k < s.len(),
            None => text::find(s@, seq![c]) is None,
        },
{
    let p: [char; 1] = [c];
    let ps = p.as_slice();
    assert(ps@ =~= seq![c]);
    let r = find_exec(s, ps);
    if r.is_some() {
        proof {
            links::lemma_find_char_bounds(s@, c, 0);
        }
    }
    r
}

/// Each `/`-separated component of `p` percent-encoded.
fn encode_components_exec(p: &[char]) -> (res: Vec<char>)
    ensures
        res@ == encode_components(p@),
{
    let parts = split_char_exec(p, '/');
    let ghost gp = text::split_char(p@, '/');
    let ghost enc = gp.map_values(|c: Seq<char>| trusted::url_encoded(c));
    let mut out: Vec<char> = Vec::new();
    let mut i: usize = 0;
    assert(enc.take(0) =~= Seq::<Seq<char>>::empty());
    while i < parts.len()
        invariant
            i <= parts.len(),
            parts@.len() == gp.len(),
            forall|j: int| 0 <= j < parts@.len() ==> #[trigger] parts@[j]@ == gp[j],
            enc == gp.map_values(|c: Seq<char>| trusted::url_encoded(c)),
            out@ == text::join_char(enc.take(i as int), '/'),
        decreases parts.len() - i,
    {
        proof {
            text::lemma_join_char_take(enc, '/', i as int);
        }
        let e = url_encode(string_of(parts[i].as_slice()).as_str());
        if i > 0 {
            out.push('/');
        }
        push_str(&mut out, e.as_str());
        i += 1;
    }
    assert(enc.take(parts.len() as int) =~= enc);
    out
}

fn split_at_char(s: &[char], c: char) -> (r: (Vec<char>, Option<Vec<char>>))
    ensures
        match text::find(s@, seq![c]) {
            Some(k) => r.0@ == s@.take(k) && (r.1 matches Some(v) && v@ == s@.skip(k + 1)),
            None => r.0@ == s@ && r.1 is None,
        },
{
    match find_char(s, c) {
        Some(k) => {
            let a = slice_vec(s, 0, k);
            let b = slice_vec(s, k + 1, s.len());
            assert(s@.subrange(0, k as int) =~= s@.take(k as int));
            assert(s@.subrange(k + 1, s@.len() as int) =~= s@.skip(k + 1));
            (a, Some(b))
        },
        None => {
            assert(s@.subrange(0, s@.len() as int) =~= s@);
            (slice_vec(s, 0, s.len()), None)
        },
    }
}

fn with_md_ext_exec(fp: &[char]) -> (res: Vec<char>)
    ensures
        res@ == with_md_ext(fp@),
{
    let mut out: Vec<char> = Vec::new();
    if fp.len() == 0 {
    } else if has_extension(fp) {
        push_all(&mut out, fp);
    } else {
        push_all(&mut out, fp);
        out.push('.');
        out.push('m');
        out.push('d');
    }
    assert(out@ =~= with_md_ext(fp@));
    out
}

fn url_fragment_exec(f: &[char]) -> (res: Vec<char>)
    ensures
        res@ == url_fragment(f@),
{
    if f.len() > 0 && f[0] == '^' {
        assert(f@.subrange(0, 1) =~= seq!['^']);
        slice_vec(f, 1, f.len())
    } else {
        proof {
            if text::starts_with(f@, seq!['^']) {
                assert(f@.subrange(0, 1)[0] == '^');
            }
        }
        let low = to_lowercase(string_of(f).as_str());
        let dash: [char; 1] = ['-'];
        let ds = dash.as_slice();
        assert(ds@ =~= seq!['-']);
        replace_char_exec(chars_of(low.as_str()).as_slice(), ' ', ds)
    }
}

fn wiki_url_exec(file: &[char], frag: &Option<Vec<char>>) -> (res: Vec<char>)
    ensures
        res@ == wiki_url(file@, match frag {
            Some(f) => Some(f@),
            None => None,
        }),
{
    let with_ext = with_md_ext_exec(file);
    let mut url = encode_components_exec(with_ext.as_slice());
    match frag {
        Some(f) => {
            url.push('#');
            let uf = url_fragment_exec(f.as_slice());
            push_all(&mut url, uf.as_slice());
        },
        None => {},
    }
    url
}

fn wiki_display_exec(file: &[char], frag: &Option<Vec<char>>, shown: Option<Vec<char>>) -> (res: Vec<char>)
    ensures
        res@ == wiki_display(file@, match frag {
            Some(f) => Some(f@),
            None => None,
        }, match shown {
            Some(d) => Some(d@),
            None => None,
        }),
{
    match shown {
        Some(d) => d,
        None => {
            let stem: Vec<char> = match file_stem_exec(file) {
                Some(x) => x,
                None => {
                    assert(file@.subrange(0, file@.len() as int) =~= file@);
                    slice_vec(file, 0, file.len())
                },
            };
            if stem.len() == 0 {
                match frag {
                    Some(f) => {
                        let k = text::trim_start_char_len(f.as_slice(), '^');
                        assert(f@.subrange(k as int, f@.len() as int) =~= f@.skip(k as int));
                        slice_vec(f.as_slice(), k, f.len())
                    },
                    None => Vec::new(),
                }
            } else {
                stem
            }
        },
    }
}

/// The markdown link that replaces `[[inner]]`, if the wikilink is converted.
fn wiki_target_exec(inner: &[char]) -> (r: Option<Vec<char>>)
    ensures
        r is None <==> wiki_target(inner@) is None,
        r matches Some(v) ==> wiki_target(inner@) == Some(v@),
{
    let (path_part, shown) = split_at_char(inner, '|');
    let ghost gshown: Option<Seq<char>> = match &shown {
        Some(v) => Some(text::trim(v@)),
        None => None,
    };
    let shown_t: Option<Vec<char>> = match shown {
        Some(v) => Some(trim_vec(v.as_slice())),
        None => None,
    };
    assert(split_pipe(inner@) == (path_part@, gshown));
    let pp = path_part.as_slice();
    let ex: [char; 11] = ['.', 'e', 'x', 'c', 'a', 'l', 'i', 'd', 'r', 'a', 'w'];
    let exmd: [char; 14] = ['.', 'e', 'x', 'c', 'a', 'l', 'i', 'd', 'r', 'a', 'w', '.', 'm', 'd'];
    let (exs, exmds) = (ex.as_slice(), exmd.as_slice());
    assert(exs@ =~= dot_excalidraw());
    assert(exmds@ =~= dot_excalidraw() + dot_md());
    if ends_with_exec(pp, exs) || ends_with_exec(pp, exmds) {
        return None;
    }
    let (file, frag) = split_at_char(pp, '#');
    let ghost gfrag: Option<Seq<char>> = match &frag {
        Some(f) => Some(f@),
        None => None,
    };
    assert(split_hash(pp@) == (file@, gfrag));
    let url = wiki_url_exec(file.as_slice(), &frag);
    let display = wiki_display_exec(file.as_slice(), &frag, shown_t);
    let mut out: Vec<char> = Vec::new();
    out.push('[');
    push_all(&mut out, display.as_slice());
    out.push(']');
    out.push('(');
    push_all(&mut out, url.as_slice());
    out.push(')');
    Some(out)
}

/// Converts the wikilinks of one line.
pub fn wikilink_line(line: &str) -> (res: String)
    ensures
        res@ == spec_wikilink_line(line@),
{
    let sv = chars_of(line);
    let s = sv.as_slice();
    let mut out: Vec<char> = Vec::new();
    let mut p: usize = 0;
    loop
        invariant
            p <= s.len(),
            s@ == line@,
            spec_wikilink_line(s@) == out@ + wikilinks_from(s@, p as int),
        decreases s.len() - p,
    {
        match next_wiki_exec(s, p) {
            None => {
                assert(wikilinks_from(s@, p as int) == s@.subrange(p as int, s@.len() as int));
                push_all(&mut out, &s[p..s.len()]);
                return string_of(out.as_slice());
            },
            Some((st, bang, close)) => {
                let ghost w = links::wiki_link(st as int, bang, close as int);
                proof {
                    links::lemma_next_wiki(s@, p as int);
                }
                let ghost before = out@;
                push_all(&mut out, &s[p..st]);
                let inner_start: usize = if bang { st + 3 } else { st + 2 };
                let r = if bang { None } else { wiki_target_exec(&s[inner_start..close]) };
                match r {
                    Some(v) => {
                        push_all(&mut out, v.as_slice());
                    },
                    None => {
                        push_all(&mut out, &s[st..close + 2]);
                    },
                }
                assert(out@ =~= before + s@.subrange(p as int, st as int) + (if w.bang {
                    w.whole(s@)
                } else {
                    match wiki_target(w.inner(s@)) {
                        Some(r) => r,
                        None => w.whole(s@),
                    }
                }));
                p = close + 2;
            },
        }
    }
}

/// Converts wikilinks outside fenced code blocks.
pub fn convert_wikilinks(content: &str) -> (res: String)
    ensures
        res@ == spec_convert_wikilinks(content@),
{
    let cv = chars_of(content);
    let ls = split_lines_exec(cv.as_slice());
    let ghost gl = lines::split_lines(cv@);
    let ghost f = |l: Seq<char>| spec_wikilink_line(l);
    let ghost outl = lines::map_prose(gl, f);
    let mut out: Vec<char> = Vec::new();
    let mut st: Option<(char, usize)> = None;
    let mut i: usize = 0;
    assert(outl.take(0) =~= Seq::<Seq<char>>::empty());
    while i < ls.len()
        invariant
            i <= ls.len(),
            ls@.len() == gl.len(),
            gl == lines::split_lines(cv@),
            cv@ == content@,
            forall|j: int| 0 <= j < ls@.len() ==> #[trigger] ls@[j]@ == gl[j],
            f == (|l: Seq<char>| spec_wikilink_line(l)),
            outl == lines::map_prose(gl, f),
            lines::fence_view(st) == lines::fence_before(gl, i as int),
            out@ == lines::join_lines(outl.take(i as int)),
        decreases ls.len() - i,
    {
        let line = ls[i].as_slice();
        assert(line@ == gl[i as int]);
        let verb = fence_step(&mut st, line);
        proof {
            lines::lemma_join_take(outl, i as int);
        }
        assert(outl[i as int] == if lines::verbatim(gl, i as int) { gl[i as int] } else { spec_wikilink_line(gl[i as int]) });
        if verb {
            push_line(&mut out, i == 0, line);
        } else {
            let t = wikilink_line(string_of(line).as_str());
            let tc = chars_of(t.as_str());
            push_line(&mut out, i == 0, tc.as_slice());
        }
        i += 1;
    }
    assert(outl.take(ls.len() as int) =~= outl);
    string_of(out.as_slice())
}

proof fn lemma_no_wiki(s: Seq<char>, p: int)
    requires
        forall|k: int| !text::occurs_at(s, "[["@, k),
    ensures
        links::next_wiki(s, p) is None,
    decreases s.len() - p,
{
    reveal_strlit("[[");
    if 0 <= p < s.len() {
        if links::wiki_body(s, p) is Some {
            assert(s.subrange(p, p + 2) =~= "[["@);
            assert(text::occurs_at(s, "[["@, p));
        }
        if links::wiki_body(s, p + 1) is Some {
            assert(s.subrange(p + 1, p + 3) =~= "[["@);
            assert(text::occurs_at(s, "[["@, p + 1));
        }
        lemma_no_wiki(s, p + 1);
    }
}

/// A chapter without `[[` holds no wikilink: the conversion leaves it as it is.
pub proof fn law_chapter_without_wikilinks_unchanged(content: Seq<char>)
    requires
        !text::contains(content, "[["@),
    ensures
        spec_convert_wikilinks(content) == content,
{
    text::lemma_find_from_none(content, "[["@, 0);
    let ls = lines::split_lines(content);
    assert forall|i: int| 0 <= i < ls.len() implies spec_wikilink_line(#[trigger] ls[i]) == ls[i] by {
        let l = ls[i];
        assert forall|k: int| !text::occurs_at(l, "[["@, k) by {
            if text::occurs_at(l, "[["@, k) {
                text::lemma_split_piece_occurs(content, '\n', "[["@, i, k);
            }
        }
        lemma_no_wiki(l, 0);
        assert(l.subrange(0, l.len() as int) =~= l);
    }
    lines::law_rewrite_prose_identity(content, |l: Seq<char>| spec_wikilink_line(l));
}

} // verus!

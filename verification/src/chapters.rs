//! What the preprocessor decides about a chapter before its passes run:
//! whether a pass rewrites it, how deep it lies, and its inserted heading.
use vstd::prelude::*;
use crate::components::{self, components_exec};
use crate::paths;
use crate::text::{self, chars_of, push_str, starts_with_exec, str_lines_exec, string_of, trim_vec};

verus! {

/// A pass rewrites a chapter that has a page of its own which is not a
/// drawing's viewer page: its path is not empty and not under `_excalidraw/`.
pub open spec fn spec_is_rewritten(path: Option<Seq<char>>) -> bool {
    match path {
        Some(p) => p.len() > 0 && !text::starts_with(p, "_excalidraw/"@),
        None => false,
    }
}

/// Whether the optional passes rewrite a chapter with this path.
pub fn is_rewritten(path: &Option<String>) -> (b: bool)
    ensures
        b == spec_is_rewritten(crate::backlinks::opt_text(*path)),
{
    match path {
        Some(p) => {
            let pv = chars_of(p.as_str());
            let v = chars_of("_excalidraw/");
            pv.len() > 0 && !starts_with_exec(pv.as_slice(), v.as_slice())
        },
        None => false,
    }
}

/// How many directories deep a chapter's page lies: its path's components
/// but the last (0 for a chapter without a path).
pub open spec fn spec_chapter_depth(path: Option<Seq<char>>) -> int {
    match path {
        Some(p) => if components::components(p).len() > 0 {
            components::components(p).len() - 1
        } else {
            0
        },
        None => 0,
    }
}

/// How many directories deep a chapter's page lies.
pub fn chapter_depth(path: &Option<String>) -> (d: usize)
    ensures
        d as int == spec_chapter_depth(crate::backlinks::opt_text(*path)),
{
    match path {
        Some(p) => {
            let pv = chars_of(p.as_str());
            let cs = components_exec(pv.as_slice());
            if cs.len() > 0 {
                cs.len() - 1
            } else {
                0
            }
        },
        None => 0,
    }
}

/// The name an inserted heading gives a chapter: its file's stem (the file
/// name without its extension), else the chapter's own name.
pub open spec fn spec_heading_name(path: Option<Seq<char>>, name: Seq<char>) -> Seq<char> {
    match path {
        Some(p) => match paths::file_stem(p) {
            Some(s) => s,
            None => name,
        },
        None => name,
    }
}

/// The name an inserted heading gives a chapter with this path and name.
pub fn heading_name(path: &Option<String>, name: &str) -> (res: String)
    ensures
        res@ == spec_heading_name(crate::backlinks::opt_text(*path), name@),
{
    match path {
        Some(p) => {
            let pv = chars_of(p.as_str());
            match paths::file_stem_exec(pv.as_slice()) {
                Some(s) => string_of(s.as_slice()),
                None => string_of(chars_of(name).as_slice()),
            }
        },
        None => string_of(chars_of(name).as_slice()),
    }
}

/// The first of the lines that is not blank.
pub open spec fn first_text_line(ls: Seq<Seq<char>>) -> Option<Seq<char>>
    decreases ls.len(),
{
    if ls.len() == 0 {
        None
    } else if text::trim(ls[0]).len() > 0 {
        Some(ls[0])
    } else {
        first_text_line(ls.drop_first())
    }
}

/// The chapter with `# name` and a blank line put first, unless its first
/// non-blank line already is a `# ` heading.
pub open spec fn spec_insert_heading(content: Seq<char>, name: Seq<char>) -> Seq<char> {
    match first_text_line(text::str_lines(content)) {
        Some(l) if text::starts_with(l, "# "@) => content,
        _ => "# "@ + name + "\n\n"@ + content,
    }
}

/// Puts `# name` at the top of a chapter that does not start with a top-level heading.
pub fn insert_heading(content: &str, name: &str) -> (res: String)
    ensures
        res@ == spec_insert_heading(content@, name@),
{
    let cv = chars_of(content);
    let ls = str_lines_exec(cv.as_slice());
    let ghost gl = text::str_lines(content@);
    let mut i: usize = 0;
    assert(gl.skip(0) =~= gl);
    while i < ls.len() && trim_vec(ls[i].as_slice()).len() == 0
        invariant
            i <= ls@.len(),
            ls@.len() == gl.len(),
            forall|j: int| 0 <= j < ls@.len() ==> #[trigger] ls@[j]@ == gl[j],
            first_text_line(gl) == first_text_line(gl.skip(i as int)),
        decreases ls@.len() - i,
    {
        assert(gl.skip(i as int)[0] == gl[i as int]);
        assert(gl.skip(i as int).drop_first() =~= gl.skip(i + 1));
        i += 1;
    }
    let hp = chars_of("# ");
    if i < ls.len() {
        assert(gl.skip(i as int)[0] == gl[i as int]);
        assert(first_text_line(gl) == Some(gl[i as int]));
        if starts_with_exec(ls[i].as_slice(), hp.as_slice()) {
            return string_of(cv.as_slice());
        }
    }
    let mut out: Vec<char> = Vec::new();
    push_str(&mut out, "# ");
    push_str(&mut out, name);
    push_str(&mut out, "\n\n");
    crate::text::push_all(&mut out, cv.as_slice());
    string_of(out.as_slice())
}

/// After a heading has been put first, the chapter starts with it: inserting
/// the heading again leaves the chapter as it is.
pub proof fn law_insert_heading_idempotent(content: Seq<char>, name: Seq<char>)
    ensures
        spec_insert_heading(spec_insert_heading(content, name), name) == spec_insert_heading(content, name),
{
    let once = spec_insert_heading(content, name);
    if once != content {
        reveal_strlit("# ");
        reveal_strlit("\n\n");
        let t = "# "@ + name + "\n\n"@ + content;
        assert(once == t);
        assert(t[0] == '#' && t[1] == ' ');
        assert(t[name.len() as int + 2] == '\n');
        let j = text::lemma_split_first_piece(t, '\n');
        assert(j >= 2) by {
            if j < 2 {
                assert(t[j] == '\n');
            }
        }
        assert(j < t.len()) by {
            if j == t.len() {
                assert(t[name.len() as int + 2] != '\n');
            }
        }
        let ls = text::split_char(t, '\n');
        let l = text::strip_cr(ls[0]);
        assert(text::str_lines(t)[0] == l);
        assert(l.len() >= 2 && l[0] == '#' && l[1] == ' ');
        assert(l.subrange(0, 2) =~= "# "@);
        assert(text::trim_start(l) == l);
        text::lemma_trim_end_keeps_first(l);
        assert(first_text_line(text::str_lines(t)) == Some(l));
    }
}

} // verus!

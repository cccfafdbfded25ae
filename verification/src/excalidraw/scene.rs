//! The scene JSON of a drawing: taken out of an `.excalidraw.md` note
//! (plain or compressed), with the note's embedded images added to its
//! `files` object by text surgery rather than a JSON parse.
use vstd::prelude::*;
use crate::text::{self, chars_of, contains_exec, find_exec, find_from_exec, push_all, push_str, replace_char_exec, slice_vec, str_lines_exec, string_of, trim_vec};
use crate::trusted::{self, from_utf16, lz_decompress_base64};

verus! {

/// An embedded image of a drawing that exists in the book: its file id,
/// its path relative to the book's source directory, and its extension.
pub struct EmbeddedImage {
    pub id: String,
    pub src_rel_path: String,
    pub extension: Option<String>,
}

pub open spec fn section_heading() -> Seq<char> {
    "## Embedded Files"@
}

/// `(id, path)` of one `<id>: [[path]]` line of the embedded-files section.
pub open spec fn embedded_entry(line: Seq<char>) -> Option<(Seq<char>, Seq<char>)> {
    match text::find(line, ": [["@) {
        None => None,
        Some(k) => {
            let id = text::trim(line.take(k));
            let rest = line.skip(k + 4);
            if id.len() > 0 && text::ends_with(rest, "]]"@) {
                Some((id, rest.take(rest.len() - 2)))
            } else {
                None
            }
        },
    }
}

pub open spec fn embedded_entries(ls: Seq<Seq<char>>) -> Seq<(Seq<char>, Seq<char>)>
    decreases ls.len(),
{
    if ls.len() == 0 {
        Seq::empty()
    } else {
        embedded_entries(ls.drop_last()) + match embedded_entry(ls.last()) {
            Some(e) => seq![e],
            None => Seq::empty(),
        }
    }
}

/// The `(fileId, path)` pairs of the `## Embedded Files` section, which ends
/// at the next `## ` heading, at `%%`, or at the end.
pub open spec fn spec_parse_embedded_files(content: Seq<char>) -> Seq<(Seq<char>, Seq<char>)> {
    match text::find(content, section_heading()) {
        None => Seq::empty(),
        Some(h) => {
            let start = h + section_heading().len();
            let end = match text::find_from(content, "\n## "@, start) {
                Some(p) => p,
                None => match text::find_from(content, "\n%%"@, start) {
                    Some(p) => p,
                    None => content.len() as int,
                },
            };
            embedded_entries(text::str_lines(content.subrange(start, end)))
        },
    }
}

/// The MIME type of an image by its extension.
pub open spec fn mime_of(ext: Option<Seq<char>>) -> Seq<char> {
    match ext {
        Some(e) => if e == "jpg"@ || e == "jpeg"@ {
            "image/jpeg"@
        } else if e == "gif"@ {
            "image/gif"@
        } else if e == "svg"@ {
            "image/svg+xml"@
        } else if e == "webp"@ {
            "image/webp"@
        } else {
            "image/png"@
        },
        None => "image/png"@,
    }
}

/// The URL of an image as seen from a viewer page one level deep.
pub open spec fn image_url(src_rel_path: Seq<char>) -> Seq<char> {
    "../"@ + text::replace_char(src_rel_path, '\\', seq!['/'])
}

/// The `files` entry of an image.
pub open spec fn file_entry(id: Seq<char>, mime: Seq<char>, url: Seq<char>) -> Seq<char> {
    "\""@ + id + "\":{\"mimeType\":\""@ + mime + "\",\"id\":\""@ + id + "\",\"dataURL\":\""@ + url + "\",\"created\":0}"@
}

pub open spec fn image_view(img: EmbeddedImage) -> (Seq<char>, Seq<char>, Option<Seq<char>>) {
    (img.id@, img.src_rel_path@, match img.extension {
        Some(e) => Some(e@),
        None => None,
    })
}

/// The new entries, comma-separated: one per image whose id is not yet a
/// key of the JSON.
pub open spec fn new_entries(json: Seq<char>, imgs: Seq<(Seq<char>, Seq<char>, Option<Seq<char>>)>) -> Seq<char>
    decreases imgs.len(),
{
    if imgs.len() == 0 {
        Seq::empty()
    } else {
        let prev = new_entries(json, imgs.drop_last());
        let img = imgs.last();
        if text::contains(json, seq!['"'] + img.0 + seq!['"', ':']) {
            prev
        } else {
            prev + (if prev.len() > 0 { seq![','] } else { Seq::empty() }) + file_entry(img.0, mime_of(img.2), image_url(img.1))
        }
    }
}

pub open spec fn is_ascii_ws(c: char) -> bool {
    c == ' ' || c == '\t' || c == '\n' || c == '\u{0C}' || c == '\r'
}

pub open spec fn ascii_ws_run(s: Seq<char>) -> nat
    decreases s.len(),
{
    if s.len() > 0 && is_ascii_ws(s[0]) {
        1 + ascii_ws_run(s.drop_first())
    } else {
        0
    }
}

/// Scan for the brace that closes the one at the start: `depth` braces are
/// open, and the scan is inside a string literal / just after a backslash in one.
pub open spec fn brace_from(s: Seq<char>, i: int, depth: int, in_string: bool, escaped: bool) -> Option<int>
    decreases s.len() - i,
{
    if i < 0 || i >= s.len() {
        None
    } else if escaped {
        brace_from(s, i + 1, depth, in_string, false)
    } else if in_string {
        if s[i] == '\\' {
            brace_from(s, i + 1, depth, true, true)
        } else if s[i] == '"' {
            brace_from(s, i + 1, depth, false, false)
        } else {
            brace_from(s, i + 1, depth, true, false)
        }
    } else if s[i] == '"' {
        brace_from(s, i + 1, depth, true, false)
    } else if s[i] == '{' {
        brace_from(s, i + 1, depth + 1, false, false)
    } else if s[i] == '}' {
        if depth - 1 == 0 {
            Some(i)
        } else {
            brace_from(s, i + 1, depth - 1, false, false)
        }
    } else {
        brace_from(s, i + 1, depth, false, false)
    }
}

/// The index (in characters) of the `}` that closes the `{` at the start of
/// `s`, skipping braces inside string literals.
pub open spec fn spec_find_matching_close_brace(s: Seq<char>) -> Option<int> {
    brace_from(s, 0, 0, false, false)
}

pub open spec fn files_key() -> Seq<char> {
    "\"files\""@
}

/// `json` with `entries` added at the end of the object that is the value of
/// its first `"files"` key; `None` when that value is not an object or has
/// no closing brace.
pub open spec fn spec_inject_into_files_object(json: Seq<char>, entries: Seq<char>) -> Option<Seq<char>> {
    match text::find(json, files_key()) {
        None => None,
        Some(key_pos) => {
            let after_key = json.skip(key_pos + 7);
            match text::find(after_key, seq![':']) {
                None => None,
                Some(colon) => {
                    let ws = ascii_ws_run(after_key.skip(colon + 1));
                    let open = key_pos + 7 + colon + 1 + ws;
                    if open >= json.len() || json[open] != '{' {
                        None
                    } else {
                        match spec_find_matching_close_brace(json.skip(open)) {
                            None => None,
                            Some(close_rel) => {
                                let close = open + close_rel;
                                let inner = text::trim(json.subrange(open + 1, close));
                                Some(json.take(close) + (if inner.len() > 0 { seq![','] } else { Seq::empty() }) + entries + json.skip(close))
                            },
                        }
                    }
                },
            }
        },
    }
}

/// `json` with the images' entries added to its `files` object; unchanged
/// when there is nothing new or no `files` object to add to.
pub open spec fn spec_inject_embedded_files(json: Seq<char>, imgs: Seq<(Seq<char>, Seq<char>, Option<Seq<char>>)>) -> Seq<char> {
    let entries = new_entries(json, imgs);
    if entries.len() == 0 {
        json
    } else {
        match spec_inject_into_files_object(json, entries) {
            Some(r) => r,
            None => json,
        }
    }
}

/// The text between the first `marker` and the next line starting with three backticks.
pub open spec fn spec_extract_fenced_block(content: Seq<char>, marker: Seq<char>) -> Option<Seq<char>> {
    match text::find(content, marker) {
        None => None,
        Some(m) => {
            let rest = content.skip(m + marker.len());
            match text::find(rest, "\n```"@) {
                None => None,
                Some(e) => Some(rest.take(e)),
            }
        },
    }
}

/// The scene JSON of an `.excalidraw.md` note: its ```` ```json ```` block,
/// else its decompressed ```` ```compressed-json ```` block.
pub open spec fn spec_extract_json_from_excalidraw_md(content: Seq<char>) -> Option<Seq<char>> {
    match spec_extract_fenced_block(content, "```json\n"@) {
        Some(j) => Some(j),
        None => match spec_extract_fenced_block(content, "```compressed-json\n"@) {
            Some(c) => match trusted::lz_decompressed_base64(c) {
                Some(u) => trusted::utf16_decoded(u),
                None => None,
            },
            None => None,
        },
    }
}

/// The decompressor gets an input it can take: the note has a
/// ```` ```json ```` block (and then is not decompressed), or its
/// ```` ```compressed-json ```` block, when there is one, is shorter than
/// 2^32 characters.
pub open spec fn lz_input_fits(content: Seq<char>) -> bool {
    ||| spec_extract_fenced_block(content, "```json\n"@) is Some
    ||| match spec_extract_fenced_block(content, "```compressed-json\n"@) {
        Some(c) => c.len() < 0x1_0000_0000,
        None => true,
    }
}

/// Whether the note's compressed block, if it is read at all, is short
/// enough for the decompressor.
pub fn compressed_block_fits(content: &str) -> (b: bool)
    ensures
        b == lz_input_fits(content@),
{
    match extract_fenced_block(content, "```json\n") {
        Some(_) => true,
        None => match extract_fenced_block(content, "```compressed-json\n") {
            Some(c) => (chars_of(c.as_str()).len() as u64) < 0x1_0000_0000u64,
            None => true,
        },
    }
}

pub open spec fn compressed_message() -> Seq<char> {
    "Excalidraw file uses compressed format. Open it in Obsidian and run \"Decompress current Excalidraw file\" from the command palette, then rebuild the book."@
}

pub open spec fn no_json_message(path: Seq<char>) -> Seq<char> {
    "No ```json block found in "@ + path + ". The file may use an unsupported Excalidraw format."@
}

/// The scene JSON of an `.excalidraw.md` note with its images added, or the
/// message that says why there is none.
pub open spec fn spec_excalidraw_md_json(content: Seq<char>, path: Seq<char>, imgs: Seq<(Seq<char>, Seq<char>, Option<Seq<char>>)>) -> Result<Seq<char>, Seq<char>> {
    match spec_extract_json_from_excalidraw_md(content) {
        Some(j) => Ok(spec_inject_embedded_files(j, imgs)),
        None => Err(if text::contains(content, "```compressed-json"@) { compressed_message() } else { no_json_message(path) }),
    }
}

pub open spec fn pairs_view(v: Seq<(String, String)>) -> Seq<(Seq<char>, Seq<char>)> {
    v.map_values(|p: (String, String)| (p.0@, p.1@))
}

pub open spec fn images_view(v: Seq<EmbeddedImage>) -> Seq<(Seq<char>, Seq<char>, Option<Seq<char>>)> {
    v.map_values(|i: EmbeddedImage| image_view(i))
}

fn eq_lit(s: &[char], lit: &str) -> (b: bool)
    ensures
        b == (s@ == lit@),
{
    let lv = chars_of(lit);
    let l = lv.as_slice();
    if s.len() != l.len() {
        return false;
    }
    let r = text::occurs_at_exec(s, 0, l);
    assert(r ==> s@.subrange(0, l@.len() as int) =~= s@);
    assert(s@ == l@ ==> s@.subrange(0, l@.len() as int) =~= s@);
    r
}

fn embedded_entry_exec(line: &[char]) -> (r: Option<(String, String)>)
    ensures
        r is None <==> embedded_entry(line@) is None,
        r matches Some(p) ==> embedded_entry(line@) == Some((p.0@, p.1@)),
{
    let sep = chars_of(": [[");
    match find_exec(line, sep.as_slice()) {
        None => None,
        Some(k) => {
            proof {
                text::lemma_find_from_some(line@, sep@, 0);
            }
            assert(k + sep.len() <= line.len());
            let id = trim_vec(&line[0..k]);
            assert(line@.subrange(0, k as int) =~= line@.take(k as int));
            let rest = &line[k + sep.len()..line.len()];
            assert(sep@.len() == 4) by {
                reveal_strlit(": [[");
            }
            assert(rest@ =~= line@.skip(k + 4));
            let close = chars_of("]]");
            assert(close@.len() == 2) by {
                reveal_strlit("]]");
            }
            if id.len() > 0 && text::ends_with_exec(rest, close.as_slice()) {
                let path = &rest[0..rest.len() - 2];
                assert(path@ =~= rest@.take(rest@.len() - 2));
                Some((string_of(id.as_slice()), string_of(path)))
            } else {
                None
            }
        },
    }
}

/// The `(fileId, path)` pairs listed under `## Embedded Files`.
pub fn parse_embedded_files(content: &str) -> (res: Vec<(String, String)>)
    ensures
        pairs_view(res@) == spec_parse_embedded_files(content@),
{
    let cv = chars_of(content);
    let c = cv.as_slice();
    let head = chars_of("## Embedded Files");
    let start = match find_exec(c, head.as_slice()) {
        None => {
            let r: Vec<(String, String)> = Vec::new();
            assert(pairs_view(r@) =~= Seq::<(Seq<char>, Seq<char>)>::empty());
            return r;
        },
        Some(h) => {
            proof {
                text::lemma_find_from_some(c@, head@, 0);
            }
            assert(h + head@.len() <= c@.len());
            assert(h + head.len() <= c.len());
            h + head.len()
        },
    };
    let m1 = chars_of("\n## ");
    let m2 = chars_of("\n%%");
    let end = match find_from_exec(c, start, m1.as_slice()) {
        Some(p) => {
            proof {
                text::lemma_find_from_some(c@, m1@, start as int);
            }
            p
        },
        None => match find_from_exec(c, start, m2.as_slice()) {
            Some(p) => {
                proof {
                    text::lemma_find_from_some(c@, m2@, start as int);
                }
                p
            },
            None => c.len(),
        },
    };
    let ls = str_lines_exec(&c[start..end]);
    let ghost gl = text::str_lines(c@.subrange(start as int, end as int));
    let mut out: Vec<(String, String)> = Vec::new();
    let mut i: usize = 0;
    assert(gl.take(0) =~= Seq::<Seq<char>>::empty());
    while i < ls.len()
        invariant
            i <= ls@.len(),
            ls@.len() == gl.len(),
            forall|j: int| 0 <= j < ls@.len() ==> #[trigger] ls@[j]@ == gl[j],
            pairs_view(out@) == embedded_entries(gl.take(i as int)),
        decreases ls@.len() - i,
    {
        assert(gl.take(i + 1).drop_last() =~= gl.take(i as int));
        assert(gl.take(i + 1).last() == gl[i as int]);
        let ghost before = out@;
        match embedded_entry_exec(ls[i].as_slice()) {
            Some(p) => {
                out.push(p);
                assert(pairs_view(out@) =~= pairs_view(before) + seq![(p.0@, p.1@)]);
            },
            None => {
                assert(pairs_view(out@) =~= pairs_view(before) + Seq::<(Seq<char>, Seq<char>)>::empty());
            },
        }
        i += 1;
    }
    assert(gl.take(ls@.len() as int) =~= gl);
    out
}

/// The MIME type of an image by its extension.
pub fn mime_for_extension(ext: &Option<String>) -> (res: String)
    ensures
        res@ == mime_of(match ext {
            Some(e) => Some(e@),
            None => None,
        }),
{
    match ext {
        Some(e) => {
            let ev = chars_of(e.as_str());
            let es = ev.as_slice();
            if eq_lit(es, "jpg") || eq_lit(es, "jpeg") {
                "image/jpeg".to_owned()
            } else if eq_lit(es, "gif") {
                "image/gif".to_owned()
            } else if eq_lit(es, "svg") {
                "image/svg+xml".to_owned()
            } else if eq_lit(es, "webp") {
                "image/webp".to_owned()
            } else {
                "image/png".to_owned()
            }
        },
        None => "image/png".to_owned(),
    }
}

fn file_entry_exec(img: &EmbeddedImage) -> (res: Vec<char>)
    ensures
        res@ == file_entry(img.id@, mime_of(image_view(*img).2), image_url(img.src_rel_path@)),
{
    let mime = mime_for_extension(&img.extension);
    let pv = chars_of(img.src_rel_path.as_str());
    let slash: [char; 1] = ['/'];
    let ss = slash.as_slice();
    assert(ss@ =~= seq!['/']);
    let fixed = replace_char_exec(pv.as_slice(), '\\', ss);
    let mut out: Vec<char> = Vec::new();
    push_str(&mut out, "\"");
    push_str(&mut out, img.id.as_str());
    push_str(&mut out, "\":{\"mimeType\":\"");
    push_str(&mut out, mime.as_str());
    push_str(&mut out, "\",\"id\":\"");
    push_str(&mut out, img.id.as_str());
    push_str(&mut out, "\",\"dataURL\":\"");
    push_str(&mut out, "../");
    push_all(&mut out, fixed.as_slice());
    push_str(&mut out, "\",\"created\":0}");
    out
}

fn new_entries_exec(json: &[char], imgs: &[EmbeddedImage]) -> (res: Vec<char>)
    ensures
        res@ == new_entries(json@, images_view(imgs@)),
{
    let ghost iv = images_view(imgs@);
    let mut out: Vec<char> = Vec::new();
    let mut i: usize = 0;
    assert(iv.take(0) =~= Seq::<(Seq<char>, Seq<char>, Option<Seq<char>>)>::empty());
    while i < imgs.len()
        invariant
            i <= imgs@.len(),
            iv == images_view(imgs@),
            out@ == new_entries(json@, iv.take(i as int)),
        decreases imgs@.len() - i,
    {
        let img = &imgs[i];
        assert(iv.take(i + 1).drop_last() =~= iv.take(i as int));
        assert(iv.take(i + 1).last() == image_view(*img));
        let mut key: Vec<char> = Vec::new();
        key.push('"');
        push_str(&mut key, img.id.as_str());
        key.push('"');
        key.push(':');
        assert(key@ =~= seq!['"'] + img.id@ + seq!['"', ':']);
        if !contains_exec(json, key.as_slice()) {
            if out.len() > 0 {
                out.push(',');
            }
            let e = file_entry_exec(img);
            push_all(&mut out, e.as_slice());
        }
        i += 1;
    }
    assert(iv.take(imgs@.len() as int) =~= iv);
    out
}

/// How many bytes the UTF-8 encoding of `c` takes.
pub open spec fn char_utf8_len(c: char) -> nat {
    if c <= '\x7F' {
        1
    } else if '\u{800}' > c {
        2
    } else if '\u{10000}' > c {
        3
    } else {
        4
    }
}

/// How many bytes the UTF-8 encoding of `s` takes.
pub open spec fn utf8_len(s: Seq<char>) -> nat
    decreases s.len(),
{
    if s.len() == 0 {
        0
    } else {
        utf8_len(s.drop_last()) + char_utf8_len(s.last())
    }
}

proof fn lemma_utf8_len_prefix(s: Seq<char>, i: int)
    requires
        0 <= i <= s.len(),
    ensures
        utf8_len(s.take(i)) <= utf8_len(s),
    decreases s.len(),
{
    if i < s.len() {
        assert(s.take(i) =~= s.drop_last().take(i));
        lemma_utf8_len_prefix(s.drop_last(), i);
    } else {
        assert(s.take(i) =~= s);
    }
}

/// The byte offset (in the UTF-8 text) of the `}` that closes the first `{`
/// of `s`, braces inside JSON strings (and escaped characters in them) not
/// counting: the character position found by the scan, counted in bytes.
pub fn find_matching_close_brace(s: &str) -> (r: Option<usize>)
    requires
        utf8_len(s@) <= usize::MAX,
    ensures
        r is None <==> spec_find_matching_close_brace(s@) is None,
        r matches Some(b) ==> (spec_find_matching_close_brace(s@) matches Some(i) && b == utf8_len(s@.take(i))),
{
    let sv = chars_of(s);
    match close_brace(sv.as_slice()) {
        None => None,
        Some(k) => {
            let ghost g = sv@;
            let mut b: usize = 0;
            let mut i: usize = 0;
            assert(g.take(0) =~= Seq::<char>::empty());
            while i < k
                invariant
                    i <= k < g.len(),
                    g == sv@,
                    utf8_len(g) <= usize::MAX,
                    b == utf8_len(g.take(i as int)),
                decreases k - i,
            {
                let c = sv[i];
                let n: usize = if c <= '\x7F' {
                    1
                } else if '\u{800}' > c {
                    2
                } else if '\u{10000}' > c {
                    3
                } else {
                    4
                };
                assert(g.take(i + 1).drop_last() =~= g.take(i as int));
                assert(g.take(i + 1).last() == c);
                proof {
                    lemma_utf8_len_prefix(g, i + 1);
                }
                b = b + n;
                i += 1;
            }
            Some(b)
        },
    }
}

fn close_brace(s: &[char]) -> (r: Option<usize>)
    ensures
        r is None <==> spec_find_matching_close_brace(s@) is None,
        r matches Some(i) ==> spec_find_matching_close_brace(s@) == Some(i as int) && 0 < i < s.len(),
{
    let mut depth: i128 = 0;
    let mut in_string = false;
    let mut escaped = false;
    let mut i: usize = 0;
    while i < s.len()
        invariant
            i <= s.len(),
            -(i as int) <= depth <= i,
            spec_find_matching_close_brace(s@) == brace_from(s@, i as int, depth as int, in_string, escaped),
        decreases s.len() - i,
    {
        let b = s[i];
        if escaped {
            escaped = false;
        } else if in_string {
            if b == '\\' {
                escaped = true;
            } else if b == '"' {
                in_string = false;
            }
        } else if b == '"' {
            in_string = true;
        } else if b == '{' {
            depth += 1;
        } else if b == '}' {
            depth -= 1;
            if depth == 0 {
                return Some(i);
            }
        }
        i += 1;
    }
    None
}

fn ascii_ws_run_exec(s: &[char], i: usize) -> (n: usize)
    requires
        i <= s.len(),
    ensures
        n == ascii_ws_run(s@.skip(i as int)),
        i + n <= s.len(),
{
    let mut k: usize = i;
    while k < s.len() && (s[k] == ' ' || s[k] == '\t' || s[k] == '\n' || s[k] == '\u{0C}' || s[k] == '\r')
        invariant
            i <= k <= s.len(),
            ascii_ws_run(s@.skip(i as int)) == (k - i) + ascii_ws_run(s@.skip(k as int)),
        decreases s.len() - k,
    {
        assert(s@.skip(k as int).drop_first() =~= s@.skip(k + 1));
        k += 1;
    }
    k - i
}

fn inject_chars(j: &[char], e: &[char]) -> (r: Option<Vec<char>>)
    ensures
        r is None <==> spec_inject_into_files_object(j@, e@) is None,
        r matches Some(v) ==> spec_inject_into_files_object(j@, e@) == Some(v@),
{
    let key = chars_of("\"files\"");
    assert(key@.len() == 7) by {
        reveal_strlit("\"files\"");
    }
    let key_pos = match find_exec(j, key.as_slice()) {
        None => {
            return None;
        },
        Some(k) => k,
    };
    proof {
        text::lemma_find_from_some(j@, key@, 0);
    }
    assert(key_pos + 7 <= j.len());
    let after_key = &j[key_pos + 7..j.len()];
    assert(after_key@ =~= j@.skip(key_pos + 7));
    let colon = match crate::links::find_char_from(after_key, 0, ':') {
        None => {
            return None;
        },
        Some(c) => c,
    };
    proof {
        crate::links::lemma_find_char_bounds(after_key@, ':', 0);
    }
    let ws = ascii_ws_run_exec(j, key_pos + 7 + colon + 1);
    assert(j@.skip(key_pos + 7 + colon + 1) =~= after_key@.skip(colon + 1));
    let open = key_pos + 7 + colon + 1 + ws;
    if open >= j.len() || j[open] != '{' {
        return None;
    }
    let tail = &j[open..j.len()];
    assert(tail@ =~= j@.skip(open as int));
    let close_rel = match close_brace(tail) {
        None => {
            return None;
        },
        Some(c) => c,
    };
    let close = open + close_rel;
    let inner = trim_vec(&j[open + 1..close]);
    let mut out: Vec<char> = Vec::new();
    push_all(&mut out, &j[0..close]);
    if inner.len() > 0 {
        out.push(',');
    }
    push_all(&mut out, e);
    push_all(&mut out, &j[close..j.len()]);
    assert(j@.subrange(0, close as int) =~= j@.take(close as int));
    assert(j@.subrange(close as int, j@.len() as int) =~= j@.skip(close as int));
    Some(out)
}

/// Inserts `new_entries` (JSON members without braces) into the `"files"`
/// object of `json`, without parsing the JSON.
pub fn inject_into_files_object(json: &str, new_entries: &str) -> (r: Option<String>)
    ensures
        r is None <==> spec_inject_into_files_object(json@, new_entries@) is None,
        r matches Some(v) ==> spec_inject_into_files_object(json@, new_entries@) == Some(v@),
{
    let jv = chars_of(json);
    let ev = chars_of(new_entries);
    match inject_chars(jv.as_slice(), ev.as_slice()) {
        Some(v) => Some(string_of(v.as_slice())),
        None => None,
    }
}

/// Adds the images to the `files` object of the scene JSON; images whose id
/// is already a key are skipped.
pub fn inject_embedded_files(json: &str, images: &[EmbeddedImage]) -> (res: String)
    ensures
        res@ == spec_inject_embedded_files(json@, images_view(images@)),
{
    let jv = chars_of(json);
    let entries = new_entries_exec(jv.as_slice(), images);
    if entries.len() == 0 {
        return json.to_owned();
    }
    match inject_chars(jv.as_slice(), entries.as_slice()) {
        Some(v) => string_of(v.as_slice()),
        None => json.to_owned(),
    }
}

/// The text between `marker` and the next line that starts with three backticks.
pub fn extract_fenced_block(content: &str, marker: &str) -> (r: Option<String>)
    ensures
        r is None <==> spec_extract_fenced_block(content@, marker@) is None,
        r matches Some(v) ==> spec_extract_fenced_block(content@, marker@) == Some(v@),
        r matches Some(v) ==> v@.len() <= content@.len(),
{
    let cv = chars_of(content);
    let c = cv.as_slice();
    let mv = chars_of(marker);
    let m = match find_exec(c, mv.as_slice()) {
        None => {
            return None;
        },
        Some(m) => m,
    };
    proof {
        text::lemma_find_from_some(c@, mv@, 0);
    }
    assert(m + mv.len() <= c.len());
    let rest = &c[m + mv.len()..c.len()];
    assert(rest@ =~= c@.skip(m + mv@.len()));
    let close = chars_of("\n```");
    match find_exec(rest, close.as_slice()) {
        None => None,
        Some(e) => {
            proof {
                text::lemma_find_from_some(rest@, close@, 0);
            }
            assert(rest@.subrange(0, e as int) =~= rest@.take(e as int));
            Some(string_of(&rest[0..e]))
        },
    }
}

/// The scene JSON held by an `.excalidraw.md` note.
pub fn extract_json_from_excalidraw_md(content: &str) -> (r: Option<String>)
    requires
        lz_input_fits(content@),
    ensures
        r is None <==> spec_extract_json_from_excalidraw_md(content@) is None,
        r matches Some(v) ==> spec_extract_json_from_excalidraw_md(content@) == Some(v@),
{
    match extract_fenced_block(content, "```json\n") {
        Some(j) => Some(j),
        None => match extract_fenced_block(content, "```compressed-json\n") {
            Some(c) => match lz_decompress_base64(c.as_str()) {
                Some(u) => from_utf16(u.as_slice()),
                None => None,
            },
            None => None,
        },
    }
}

/// The scene JSON of an `.excalidraw.md` note with its images added, or a
/// message saying why the note holds none.
pub fn excalidraw_md_json(content: &str, path_display: &str, images: &[EmbeddedImage]) -> (r: Result<String, String>)
    requires
        lz_input_fits(content@),
    ensures
        match r {
            Ok(v) => spec_excalidraw_md_json(content@, path_display@, images_view(images@)) == Ok::<Seq<char>, Seq<char>>(v@),
            Err(m) => spec_excalidraw_md_json(content@, path_display@, images_view(images@)) == Err::<Seq<char>, Seq<char>>(m@),
        },
{
    match extract_json_from_excalidraw_md(content) {
        Some(j) => Ok(inject_embedded_files(j.as_str(), images)),
        None => {
            let cv = chars_of(content);
            let cj = chars_of("```compressed-json");
            if contains_exec(cv.as_slice(), cj.as_slice()) {
                Err("Excalidraw file uses compressed format. Open it in Obsidian and run \"Decompress current Excalidraw file\" from the command palette, then rebuild the book.".to_owned())
            } else {
                let mut m: Vec<char> = Vec::new();
                push_str(&mut m, "No ```json block found in ");
                push_str(&mut m, path_display);
                push_str(&mut m, ". The file may use an unsupported Excalidraw format.");
                Err(string_of(m.as_slice()))
            }
        },
    }
}

/// The files a drawing's scene is read from, in order: the path itself,
/// then, unless it already ends with `.md`, the path with `.md` added.
pub open spec fn spec_scene_file_candidates(file_path: Seq<char>) -> Seq<Seq<char>> {
    if text::ends_with(file_path, ".md"@) {
        seq![file_path]
    } else {
        seq![file_path, file_path + ".md"@]
    }
}

/// The files to read a drawing's scene from, in order.
pub fn scene_file_candidates(file_path: &str) -> (res: Vec<String>)
    ensures
        res@.map_values(|s: String| s@) == spec_scene_file_candidates(file_path@),
{
    let pv = chars_of(file_path);
    let md = chars_of(".md");
    let mut res: Vec<String> = Vec::new();
    res.push(string_of(pv.as_slice()));
    if !text::ends_with_exec(pv.as_slice(), md.as_slice()) {
        let mut with_md: Vec<char> = Vec::new();
        push_all(&mut with_md, pv.as_slice());
        push_all(&mut with_md, md.as_slice());
        res.push(string_of(with_md.as_slice()));
    }
    assert(res@.map_values(|s: String| s@) =~= spec_scene_file_candidates(file_path@));
    res
}

/// Whether a scene file is an `.excalidraw.md` note (else it is raw JSON).
pub fn is_excalidraw_md(path: &str) -> (b: bool)
    ensures
        b == text::ends_with(path@, ".excalidraw.md"@),
{
    let pv = chars_of(path);
    let e = chars_of(".excalidraw.md");
    text::ends_with_exec(pv.as_slice(), e.as_slice())
}

pub open spec fn not_found_message(path: Seq<char>) -> Seq<char> {
    "Excalidraw file not found: "@ + path
}

/// The message for a drawing none of whose scene files could be read.
pub fn scene_not_found_message(path_display: &str) -> (res: String)
    ensures
        res@ == not_found_message(path_display@),
{
    let mut m: Vec<char> = Vec::new();
    push_str(&mut m, "Excalidraw file not found: ");
    push_str(&mut m, path_display);
    string_of(m.as_slice())
}

proof fn lemma_brace_from_is_brace(s: Seq<char>, i: int, depth: int, in_string: bool, escaped: bool)
    ensures
        brace_from(s, i, depth, in_string, escaped) matches Some(k) ==> 0 <= k < s.len() && s[k] == '}',
    decreases s.len() - i,
{
    if 0 <= i < s.len() {
        lemma_brace_from_is_brace(s, i + 1, depth, in_string, false);
        lemma_brace_from_is_brace(s, i + 1, depth, true, true);
        lemma_brace_from_is_brace(s, i + 1, depth, false, false);
        lemma_brace_from_is_brace(s, i + 1, depth, true, false);
        lemma_brace_from_is_brace(s, i + 1, depth + 1, false, false);
        lemma_brace_from_is_brace(s, i + 1, depth - 1, false, false);
    }
}

/// The matching brace found is a `}` of the text.
pub proof fn law_matching_brace_is_a_brace(s: Seq<char>)
    ensures
        spec_find_matching_close_brace(s) matches Some(i) ==> 0 <= i < s.len() && s[i] == '}',
{
    lemma_brace_from_is_brace(s, 0, 0, false, false);
}

} // verus!

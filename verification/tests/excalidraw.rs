use mdbook_obsidian::excalidraw::scene::compressed_block_fits;
use mdbook_obsidian::excalidraw::{
    drawing_chapter_ref, excalidraw_href, excalidraw_md_json, excalidraw_slug, extract_fenced_block,
    extract_json_from_excalidraw_md, find_matching_close_brace, inject_embedded_files, inject_into_files_object,
    is_excalidraw_md, make_excalidraw_chapter, make_excalidraw_error_chapter, mime_for_extension,
    parse_embedded_files, process_excalidraw, refs_to_inject, replace_links, replace_wikilinks,
    scene_file_candidates, scene_not_found_message, EmbeddedImage, ExcalidrawRef,
};

const TEMPLATE: &str = "<html><script id=\"scene\" type=\"application/json\">{{SCENE_JSON}}</script></html>";

fn test_ref(slug: &str, name: &str) -> ExcalidrawRef {
    ExcalidrawRef {
        target: "fake.excalidraw".to_string(),
        slug: slug.to_string(),
        name: name.to_string(),
        from_wikilink: false,
    }
}

#[test]
fn slug_lowercases_and_hyphenates() {
    assert_eq!(excalidraw_slug("My Drawing"), "my-drawing");
}

#[test]
fn slug_strips_non_alphanumeric() {
    assert_eq!(excalidraw_slug("plan (v2)"), "plan-v2");
}

#[test]
fn replaces_excalidraw_wikilink() {
    let mut refs = vec![];
    let got = replace_wikilinks("![[My Drawing.excalidraw]]", 0, &mut refs);
    assert_eq!(got, "[My Drawing](_excalidraw/my-drawing.html)");
    assert_eq!(refs.len(), 1);
    assert_eq!(refs[0].slug, "my-drawing");
}

#[test]
fn respects_wikilink_alias() {
    let mut refs = vec![];
    let got = replace_wikilinks("[[plan.excalidraw|See the plan]]", 0, &mut refs);
    assert_eq!(got, "[See the plan](_excalidraw/plan.html)");
}

#[test]
fn adjusts_href_depth() {
    let mut refs = vec![];
    let got = replace_wikilinks("![[draw.excalidraw]]", 2, &mut refs);
    assert_eq!(got, "[draw](../../_excalidraw/draw.html)");
}

#[test]
fn replaces_excalidraw_markdown_link() {
    let mut refs = vec![];
    let got = replace_links("[diagram](my-diagram.excalidraw)", 0, &mut refs);
    assert_eq!(got, "[diagram](_excalidraw/my-diagram.html)");
    assert_eq!(refs[0].slug, "my-diagram");
}

#[test]
fn replaces_excalidraw_md_link() {
    let mut refs = vec![];
    let got = replace_links(
        "[Castle word puzzle.excalidraw](../Castle%20word%20puzzle.excalidraw.md)",
        2,
        &mut refs,
    );
    assert_eq!(
        got,
        "[Castle word puzzle.excalidraw](../../_excalidraw/castle-word-puzzle.html)"
    );
    assert_eq!(refs[0].slug, "castle-word-puzzle");
    assert_eq!(refs[0].name, "Castle word puzzle");
}

#[test]
fn extracts_json_from_excalidraw_md() {
    let content = "---\nexcalidraw-plugin: parsed\n---\n\n%%\n# Drawing\n```json\n{\"type\":\"excalidraw\"}\n```\n%%\n";
    let json = extract_json_from_excalidraw_md(content).unwrap();
    assert_eq!(json, r#"{"type":"excalidraw"}"#);
}

#[test]
fn decompresses_compressed_json_from_excalidraw_md() {
    let json = r#"{"type":"excalidraw","version":2,"elements":[]}"#;
    let utf16: Vec<u16> = json.encode_utf16().collect();
    let compressed_str = lz_str::compress_to_base64(&utf16);
    let content = format!(
        "---\nexcalidraw-plugin: parsed\n---\n\n# Drawing\n```compressed-json\n{compressed_str}\n```\n"
    );
    let result = extract_json_from_excalidraw_md(&content).unwrap();
    assert_eq!(result, json);
}

#[test]
fn json_escaping_prevents_script_injection() {
    let r = test_ref("test", "test");
    let json = r#"{"text":"</script><script>alert(1)</script>"}"#;
    let chapter = make_excalidraw_chapter(&r, json, TEMPLATE);
    assert!(!chapter.content.contains("</script><script>"));
}

#[test]
fn inject_into_empty_files_object() {
    let json = r#"{"type":"excalidraw","files":{}}"#;
    let entries = r#""abc":{"mimeType":"image/png","id":"abc","dataURL":"data:image/png;base64,AA==","created":0}"#;
    let result = inject_into_files_object(json, entries).unwrap();
    assert!(result.contains(r#""files":{"abc":"#));
}

#[test]
fn inject_into_non_empty_files_object() {
    let json = r#"{"type":"excalidraw","files":{"existing":{"id":"existing"}}}"#;
    let entries = r#""new":{"id":"new"}"#;
    let result = inject_into_files_object(json, entries).unwrap();
    assert!(result.contains(r#""existing":{"id":"existing"},"new":{"id":"new"}"#));
}

#[test]
fn find_brace_handles_nested_objects() {
    let s = r#"{"a":{"b":1},"c":2}"#;
    let close = find_matching_close_brace(s).unwrap();
    assert_eq!(&s[close..], "}");
    assert_eq!(close, s.len() - 1);
}

#[test]
fn find_brace_handles_braces_in_strings() {
    let s = r#"{"key":"val}ue"}"#;
    let close = find_matching_close_brace(s).unwrap();
    assert_eq!(close, s.len() - 1);
}

#[test]
fn find_brace_skips_escaped_quote() {
    let s = r#"{"k":"a\"}b"}"#;
    assert_eq!(find_matching_close_brace(s), Some(s.len() - 1));
    assert_eq!(find_matching_close_brace("{\"a\":1"), None);
}

#[test]
fn href_at_depth_zero_and_one() {
    assert_eq!(excalidraw_href("x", 0), "_excalidraw/x.html");
    assert_eq!(excalidraw_href("x", 1), "../_excalidraw/x.html");
}

#[test]
fn slug_trims_dashes() {
    assert_eq!(excalidraw_slug("  -A B- "), "a-b");
    assert_eq!(excalidraw_slug("Ünïcode Name"), "ünïcode-name");
}

#[test]
fn wikilink_alias_with_pipe_in_path_part() {
    // The whole inner text is a drawing path, so no alias is taken.
    let mut refs = vec![];
    let got = replace_wikilinks("[[a|b.excalidraw]]", 0, &mut refs);
    assert_eq!(got, "[a|b](_excalidraw/ab.html)");
    assert_eq!(refs[0].name, "a|b");
    assert!(refs[0].from_wikilink);
}

#[test]
fn wikilink_without_drawing_is_left() {
    let mut refs = vec![];
    let got = replace_wikilinks("[[Note]] and [[pic.png]]", 0, &mut refs);
    assert_eq!(got, "[[Note]] and [[pic.png]]");
    assert!(refs.is_empty());
}

#[test]
fn image_link_to_drawing_becomes_plain_link() {
    let mut refs = vec![];
    let got = replace_links("see ![d](dir/My%20D.excalidraw) now", 1, &mut refs);
    assert_eq!(got, "see [d](../_excalidraw/my-d.html) now");
    assert_eq!(refs[0].target, "dir/My D.excalidraw");
    assert!(!refs[0].from_wikilink);
}

#[test]
fn process_excalidraw_skips_fenced_code_and_keeps_newline() {
    let mut refs = vec![];
    let content = "a [[x.excalidraw]]\n```\n[[y.excalidraw]]\n```\n[z](z.excalidraw)\n";
    let got = process_excalidraw(content, 0, &mut refs);
    assert_eq!(
        got,
        "a [x](_excalidraw/x.html)\n```\n[[y.excalidraw]]\n```\n[z](_excalidraw/z.html)\n"
    );
    assert_eq!(refs.len(), 2);
    assert_eq!(refs[0].slug, "x");
    assert_eq!(refs[1].slug, "z");
}

#[test]
fn drawing_chapter_ref_strips_inner_extension() {
    let r = drawing_chapter_ref("notes/My Plan.excalidraw.md").unwrap();
    assert_eq!(r.name, "My Plan");
    assert_eq!(r.slug, "my-plan");
    assert_eq!(r.target, "notes/My Plan.excalidraw.md");
    assert!(drawing_chapter_ref("notes/plan.md").is_none());
}

#[test]
fn refs_to_inject_keeps_first_new_slug() {
    let refs = vec![test_ref("a", "A"), test_ref("b", "B"), test_ref("a", "A2"), test_ref("c", "C")];
    let handled = vec!["b".to_string()];
    assert_eq!(refs_to_inject(&handled, &refs), vec![0, 3]);
}

#[test]
fn parses_embedded_files_section() {
    let content = "# Text\n## Embedded Files\nabc123: [[img/a.png]]\n  def: [[b.jpg]]\nnot an entry\n: [[empty.png]]\n\n%%\nxyz: [[after.png]]\n";
    let got = parse_embedded_files(content);
    assert_eq!(
        got,
        vec![
            ("abc123".to_string(), "img/a.png".to_string()),
            ("def".to_string(), "b.jpg".to_string()),
        ]
    );
    assert!(parse_embedded_files("no section").is_empty());
}

#[test]
fn mime_types_by_extension() {
    assert_eq!(mime_for_extension(&Some("jpeg".to_string())), "image/jpeg");
    assert_eq!(mime_for_extension(&Some("svg".to_string())), "image/svg+xml");
    assert_eq!(mime_for_extension(&Some("bmp".to_string())), "image/png");
    assert_eq!(mime_for_extension(&None), "image/png");
}

#[test]
fn injects_embedded_images() {
    let json = r#"{"elements":[{"fileId":"abc"}],"files":{}}"#;
    let imgs = vec![
        EmbeddedImage { id: "abc".to_string(), src_rel_path: "img\\a.gif".to_string(), extension: Some("gif".to_string()) },
    ];
    let got = inject_embedded_files(json, &imgs);
    assert_eq!(
        got,
        r#"{"elements":[{"fileId":"abc"}],"files":{"abc":{"mimeType":"image/gif","id":"abc","dataURL":"../img/a.gif","created":0}}}"#
    );
    let present = r#"{"files":{"abc":{}}}"#;
    assert_eq!(inject_embedded_files(present, &imgs), present);
}

#[test]
fn scene_json_errors() {
    let compressed = "```compressed-json\nnot valid\n";
    assert_eq!(
        excalidraw_md_json(compressed, "d.excalidraw.md", &[]).unwrap_err(),
        "Excalidraw file uses compressed format. Open it in Obsidian and run \"Decompress current Excalidraw file\" from the command palette, then rebuild the book."
    );
    assert_eq!(
        excalidraw_md_json("nothing", "d.excalidraw.md", &[]).unwrap_err(),
        "No ```json block found in d.excalidraw.md. The file may use an unsupported Excalidraw format."
    );
    assert_eq!(excalidraw_md_json("```json\n{}\n```", "d", &[]).unwrap(), "{}");
}

#[test]
fn fenced_block_needs_closing_fence() {
    assert_eq!(extract_fenced_block("```json\n{}", "```json\n"), None);
    assert_eq!(extract_fenced_block("x```json\nab\n```", "```json\n"), Some("ab".to_string()));
}

#[test]
fn scene_files_and_messages() {
    assert_eq!(scene_file_candidates("a/d.excalidraw"), vec!["a/d.excalidraw".to_string(), "a/d.excalidraw.md".to_string()]);
    assert_eq!(scene_file_candidates("a/d.excalidraw.md"), vec!["a/d.excalidraw.md".to_string()]);
    assert!(is_excalidraw_md("a/d.excalidraw.md"));
    assert!(!is_excalidraw_md("a/d.excalidraw"));
    assert_eq!(scene_not_found_message("x"), "Excalidraw file not found: x");
}

#[test]
fn page_chapters() {
    let r = test_ref("my-d", "My D");
    let ch = make_excalidraw_chapter(&r, "{}", TEMPLATE);
    assert_eq!(ch.name, "My D");
    assert_eq!(ch.path, "_excalidraw/my-d.md");
    assert_eq!(ch.content, "<html><script id=\"scene\" type=\"application/json\">{}</script></html>");
    let e = make_excalidraw_error_chapter(&r, "boom");
    assert!(e.content.contains("<h2>Cannot display: My D</h2><p>boom</p>"));
    assert_eq!(e.path, "_excalidraw/my-d.md");
}

#[test]
fn small_notes_fit_the_decompressor() {
    assert!(compressed_block_fits("```json\n{}\n```"));
    assert!(compressed_block_fits("```compressed-json\nN4Ig\n```"));
    assert!(compressed_block_fits("no blocks"));
}

#[test]
fn find_brace_counts_bytes() {
    let s = "{\"é\":1}";
    assert_eq!(find_matching_close_brace(s), Some(7));
    assert_eq!(&s[7..], "}");
}

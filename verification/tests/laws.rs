use mdbook_obsidian::anchors::{normalize_link, process_content};
use mdbook_obsidian::backlinks::{extract_targets, normalize_path};
use mdbook_obsidian::breaks::patch_hard_line_breaks;
use mdbook_obsidian::excalidraw::{excalidraw_slug, find_matching_close_brace, make_excalidraw_chapter, process_excalidraw, ExcalidrawRef};
use mdbook_obsidian::frontmatter::{escape_html, extract_frontmatter};
use mdbook_obsidian::lightbox;
use mdbook_obsidian::obsidian_syntax;
use mdbook_obsidian::obsidian_syntax::convert_callouts;

#[test]
fn hard_breaks_twice_same_as_once() {
    let input = "one\ntwo\n\n```\na\nb\n```\nthree\nfour  \nfive\\\nsix\n";
    let once = patch_hard_line_breaks(input);
    assert_eq!(patch_hard_line_breaks(&once), once);
}

#[test]
fn escaped_scene_has_no_closing_tag() {
    let r = ExcalidrawRef { target: "d.excalidraw".into(), slug: "d".into(), name: "d".into(), from_wikilink: false };
    let json = r#"{"a":"</b></script></</"}"#;
    let page = make_excalidraw_chapter(&r, json, "{{SCENE_JSON}}");
    assert!(!page.content.contains("</"));
    assert_eq!(page.content, r#"{"a":"<\/b><\/script><\/<\/"}"#);
}

#[test]
fn slugs_are_url_safe() {
    for stem in ["--Déjà vu!--", "a/b c", "  ", "x---y"] {
        let s = excalidraw_slug(stem);
        assert!(s.chars().all(|c| c.is_alphanumeric() || c == '-'));
        assert!(!s.starts_with('-') && !s.ends_with('-'));
    }
    assert_eq!(excalidraw_slug("--Déjà vu!--"), "déjà-vu");
}

#[test]
fn matching_brace_is_a_closing_brace() {
    let s = r#"{"x":[{"y":"}"}],"z":{}}"#;
    let i = find_matching_close_brace(s).unwrap();
    assert_eq!(s.as_bytes()[i], b'}');
    assert_eq!(i, s.len() - 1);
}

#[test]
fn chapter_without_drawings_untouched() {
    let mut refs = vec![];
    let content = "[a](b.md) and [[c]]\n";
    assert_eq!(process_excalidraw(content, 3, &mut refs), content);
    assert!(refs.is_empty());
}

#[test]
fn chapter_without_links_untouched() {
    let content = "# Title\n\nPlain text, with `code` and #hash.\n";
    assert_eq!(process_content(content), content);
}

#[test]
fn plain_chapter_passes_obsidian_syntax() {
    let content = "# Title\n\n> a quote\n- item = value\n";
    assert_eq!(obsidian_syntax::process(content, false), content);
}

#[test]
fn lightbox_only_with_images() {
    assert_eq!(lightbox::process("no pictures"), "no pictures");
    let with = lightbox::process("see ![a](a.png)");
    assert!(with.starts_with("see ![a](a.png)"));
    assert!(with.len() > "see ![a](a.png)".len());
}

#[test]
fn escaped_html_is_inert() {
    let e = escape_html(r#"<a href="x">&</a>"#);
    assert!(!e.contains('<') && !e.contains('>') && !e.contains('"'));
    assert_eq!(e, "&lt;a href=&quot;x&quot;&gt;&amp;&lt;/a&gt;");
}

#[test]
fn normalizing_twice_is_once() {
    for p in ["a/./b/../../c/d.md", "/x/../y/", "../../z", "./a//b"] {
        let n = normalize_path(p);
        assert_eq!(normalize_path(&n), n);
    }
}

#[test]
fn only_fragments_change() {
    assert_eq!(normalize_link("My%20Note.md#Some%20Heading"), "My%20Note.md#some-heading");
    assert_eq!(normalize_link("https://example.com/#Top"), "https://example.com/#Top");
    assert_eq!(normalize_link("Note.md"), "Note.md");
}

#[test]
fn escaping_html_reads_back() {
    for s in ["a&b<c>\"d", "&amp; already", "plain", ""] {
        let e = escape_html(s);
        assert!(!e.contains('<') && !e.contains('>') && !e.contains('"'));
        let back = e.replace("&quot;", "\"").replace("&gt;", ">").replace("&lt;", "<").replace("&amp;", "&");
        assert_eq!(back, s);
    }
}

#[test]
fn frontmatter_split_loses_nothing() {
    let content = "---\ntags: [a]\n---\nbody";
    let (fm, rest) = extract_frontmatter(content).unwrap();
    assert_eq!(format!("---\n{fm}\n---\n{rest}"), content);
    let content = "---\r\nk: v\n---";
    let (fm, rest) = extract_frontmatter(content).unwrap();
    assert_eq!(rest, "");
    assert_eq!(format!("---\r\n{fm}\n---"), content);
}

#[test]
fn callout_flag_only_for_prose_headers() {
    let fenced = "text\n```\n> [!note] Hidden\n```";
    assert_eq!(convert_callouts(fenced), (fenced.to_string(), false));
    let (out, had) = convert_callouts("> [!note] Shown\n> body");
    assert!(had);
    assert!(out.contains("callout-note"));
}

#[test]
fn image_and_fenced_lines_give_no_targets() {
    let index: Vec<(String, String)> = vec![];
    let plain = extract_targets("[a](x.md)", "", &index);
    let noisy = extract_targets("[a](x.md)\n![i](y.md)\n```\n[b](z.md)\n```", "", &index);
    assert_eq!(plain, noisy);
    assert_eq!(plain, vec!["x.md".to_string()]);
}

#[test]
fn drawing_wikilink_lines_and_deleted_lines_give_no_targets() {
    let index: Vec<(String, String)> = vec![];
    let plain = extract_targets("[a](x.md)", "", &index);
    assert_eq!(extract_targets("[a](x.md)\n[[Sketch.excalidraw]]\n![[embed]]", "", &index), plain);
    assert_eq!(extract_targets("[a](x.md)\nno link here", "", &index), plain);
}

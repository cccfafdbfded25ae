use mdbook_obsidian::backlinks::{
    add_backlinks, backlink_sections, build_stem_index, extract_targets, is_excalidraw, normalize_path, relative_url,
    resolve_md_link, BookChapter,
};

fn chapter(name: &str, source: Option<&str>, content: &str) -> BookChapter {
    BookChapter {
        name: name.to_string(),
        source_path: source.map(|s| s.to_string()),
        content: content.to_string(),
    }
}

#[test]
fn recognizes_drawing_sources() {
    assert!(is_excalidraw("a/b.excalidraw.md"));
    assert!(is_excalidraw("b.excalidraw"));
    assert!(!is_excalidraw("b.md"));
}

#[test]
fn normalizes_paths() {
    assert_eq!(normalize_path("a/./b/../c.md"), "a/c.md");
    assert_eq!(normalize_path("../x.md"), "x.md");
    assert_eq!(normalize_path("/a/../b"), "/b");
    assert_eq!(normalize_path("a//b/"), "a/b");
}

#[test]
fn resolves_markdown_links() {
    assert_eq!(
        resolve_md_link("Other%20Note.md#sec \"title\"", "sub"),
        Some("sub/Other Note.md".to_string())
    );
    assert_eq!(resolve_md_link("../up.MD?x=1", "a/b"), Some("a/up.MD".to_string()));
    assert_eq!(resolve_md_link("https://example.com/x.md", ""), None);
    assert_eq!(resolve_md_link("//cdn/x.md", ""), None);
    assert_eq!(resolve_md_link("#anchor", ""), None);
    assert_eq!(resolve_md_link("pic.png", ""), None);
    assert_eq!(resolve_md_link("d.excalidraw.md", ""), None);
    assert_eq!(resolve_md_link("?q.md", ""), None);
}

#[test]
fn relative_urls() {
    assert_eq!(relative_url("a/b", "a/c/My Note.md"), "../c/My%20Note.md");
    assert_eq!(relative_url("", "x.md"), "x.md");
    assert_eq!(relative_url("a", "a"), ".");
}

#[test]
fn stem_index_keeps_first_chapter() {
    let chs = vec![
        chapter("One", Some("dir/Note.md"), ""),
        chapter("Two", Some("other/note.md"), ""),
        chapter("Draw", Some("pic.excalidraw.md"), ""),
        chapter("Draft", None, ""),
    ];
    let idx = build_stem_index(&chs);
    assert_eq!(idx, vec![("note".to_string(), "dir/Note.md".to_string())]);
}

#[test]
fn extracts_sorted_unique_targets() {
    let idx = vec![("beta".to_string(), "b/Beta.md".to_string())];
    let content = "[x](z.md) and [[Beta|shown]] and [y](./a.md)\n```\n[no](n.md)\n```\n![img](i.md) [[Beta#h]] [[d.excalidraw]] [z again](z.md)\n";
    let got = extract_targets(content, "sub", &idx);
    assert_eq!(got, vec!["b/Beta.md".to_string(), "sub/a.md".to_string(), "sub/z.md".to_string()]);
}

#[test]
fn path_order_compares_components() {
    let idx: Vec<(String, String)> = vec![];
    let got = extract_targets("[a](a-b.md) [b](a/b.md)", "", &idx);
    assert_eq!(got, vec!["a/b.md".to_string(), "a-b.md".to_string()]);
}

#[test]
fn backlink_sections_list_referrers_by_name() {
    let chs = vec![
        chapter("Target", Some("Target.md"), "self link [me](Target.md)"),
        chapter("zeta", Some("sub/z.md"), "see [t](../Target.md)"),
        chapter("Alpha", Some("a.md"), "see [[Target]]"),
        chapter("Nobody", Some("n.md"), "no links"),
        chapter("Draw", Some("d.excalidraw.md"), "[t](Target.md)"),
    ];
    let got = backlink_sections(&chs);
    assert_eq!(got.len(), 5);
    assert_eq!(
        got[0],
        Some("\n\n---\n\n## Backlinks\n\n- [Alpha](a.md)\n- [zeta](sub/z.md)\n".to_string())
    );
    assert_eq!(got[1], None);
    assert_eq!(got[3], None);
    assert_eq!(got[4], None);
}

#[test]
fn drawings_get_no_backlinks() {
    let chs = vec![
        chapter("Note", Some("note.md"), "[d](d.excalidraw.md) and [e](Draw.excalidraw)"),
        chapter("Draw", Some("d.excalidraw.md"), "[n](note.md)"),
        chapter("Other", Some("Draw.excalidraw"), "[n](note.md)"),
    ];
    let got = backlink_sections(&chs);
    assert_eq!(got, vec![None, None, None]);
}

#[test]
fn backlinks_pass_only_appends_sections() {
    let chs = vec![
        chapter("Target", Some("t.md"), "body"),
        chapter("Ref", Some("r.md"), "see [t](t.md)"),
    ];
    let out = add_backlinks(&chs);
    assert_eq!(out.len(), 2);
    assert_eq!(out[0].name, "Target");
    assert_eq!(out[0].source_path, Some("t.md".to_string()));
    assert_eq!(out[0].content, "body\n\n---\n\n## Backlinks\n\n- [Ref](r.md)\n");
    assert_eq!(out[1].content, "see [t](t.md)");
}

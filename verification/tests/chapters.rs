use mdbook_obsidian::chapters::{chapter_depth, heading_name, insert_heading, is_rewritten};

#[test]
fn passes_skip_drafts_and_viewer_pages() {
    assert!(!is_rewritten(&None));
    assert!(!is_rewritten(&Some(String::new())));
    assert!(!is_rewritten(&Some("_excalidraw/x.md".to_string())));
    assert!(is_rewritten(&Some("notes/a.md".to_string())));
}

#[test]
fn chapter_depths() {
    assert_eq!(chapter_depth(&Some("a/b/c.md".to_string())), 2);
    assert_eq!(chapter_depth(&Some("c.md".to_string())), 0);
    assert_eq!(chapter_depth(&None), 0);
}

#[test]
fn heading_inserted_when_missing() {
    assert_eq!(insert_heading("\n\nText", "Name"), "# Name\n\n\n\nText");
    assert_eq!(insert_heading("  \n# Title\nx", "N"), "  \n# Title\nx");
    assert_eq!(insert_heading("", "N"), "# N\n\n");
    assert_eq!(insert_heading("## Sub\n", "N"), "# N\n\n## Sub\n");
}

#[test]
fn heading_inserted_once() {
    for (content, name) in [("Text", "Name"), ("", "N"), ("## Sub\n", "Multi\nline"), ("# Kept\n", "N")] {
        let once = insert_heading(content, name);
        assert_eq!(insert_heading(&once, name), once);
    }
}

#[test]
fn heading_takes_the_file_name() {
    assert_eq!(heading_name(&Some("notes/My Note.md".to_string()), "Title"), "My Note");
    assert_eq!(heading_name(&None, "Title"), "Title");
}

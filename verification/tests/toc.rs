use mdbook_obsidian::toc::{
    build_items, fill_placeholder, next_section_number, placeholder_index, render_markdown, select_uncovered,
    TocEntry, TocSort, TOC_PLACEHOLDER,
};

fn strings(v: &[&str]) -> Vec<String> {
    v.iter().map(|s| s.to_string()).collect()
}

#[test]
fn fills_every_placeholder() {
    let content = format!("a {TOC_PLACEHOLDER} b {TOC_PLACEHOLDER}");
    assert_eq!(fill_placeholder(&content, "X"), "a X b X");
    assert_eq!(fill_placeholder("none here", "X"), "none here");
}

#[test]
fn placeholder_position_follows_listed_chapters() {
    let summary = format!("# Summary\n[A](a.md)\n[B](sub/b%20c.md)\n{TOC_PLACEHOLDER}\n[C](c.md)");
    let tops = vec![Some("a.md".to_string()), Some("sub/b c.md".to_string()), Some("c.md".to_string()), None];
    assert_eq!(placeholder_index(&summary, &tops), Some(2));
    assert_eq!(placeholder_index("# Summary\n[C](c.md)", &tops), None);
    let first = format!("{TOC_PLACEHOLDER}\n[A](a.md)");
    assert_eq!(placeholder_index(&first, &tops), Some(0));
}

#[test]
fn numbering_continues_after_numbered_chapters() {
    assert_eq!(next_section_number(&vec![3, 1]), 4);
    assert_eq!(next_section_number(&vec![]), 1);
}

#[test]
fn selects_and_sorts_uncovered_markdown() {
    let walked = strings(&["b.md", "a/x.md", "SUMMARY.md", "img.png", "a.md", "a-b.md", "c.md"]);
    let covered = strings(&["c.md"]);
    assert_eq!(
        select_uncovered(&walked, &covered, TocSort::Alpha, &vec![], &vec![]),
        strings(&["a/x.md", "a-b.md", "a.md", "b.md"])
    );
}

fn entry(e: &TocEntry) -> (usize, String, Vec<u32>, Option<String>, Vec<String>) {
    (e.depth, e.name.clone(), e.number.clone(), e.path.clone(), e.parent_names.clone())
}

#[test]
fn builds_sections_from_directories() {
    let files = strings(&["a.md", "dir_x/index.md", "dir_x/sub/z.excalidraw.md", "dir_x/y.md", "w/q.md"]);
    let existing = strings(&["dir_x/index.md"]);
    let items = build_items(&files, &existing, 3, false);
    let got: Vec<_> = items.iter().map(entry).collect();
    assert_eq!(
        got,
        vec![
            (0, "a".to_string(), vec![3], Some("a.md".to_string()), vec![]),
            (0, "dir x".to_string(), vec![4], Some("dir_x/index.md".to_string()), vec![]),
            (1, "y".to_string(), vec![4, 1], Some("dir_x/y.md".to_string()), strings(&["dir x"])),
            (1, "sub".to_string(), vec![4, 2], None, strings(&["dir x"])),
            (2, "z".to_string(), vec![4, 2, 1], Some("dir_x/sub/z.excalidraw.md".to_string()), strings(&["dir x", "sub"])),
            (0, "w".to_string(), vec![5], None, vec![]),
            (1, "q".to_string(), vec![5, 1], Some("w/q.md".to_string()), strings(&["w"])),
        ]
    );
    assert_eq!(
        render_markdown(&items),
        "- [a](a.html)\n- [dir x](dir_x/index.html)\n  - [y](dir_x/y.html)\n  - sub\n    - [z](_excalidraw/z.html)\n- w\n  - [q](w/q.html)\n"
    );
}

#[test]
fn render_encodes_path_components() {
    let items = vec![TocEntry {
        depth: 0,
        name: "My Note".to_string(),
        number: vec![1],
        path: Some("my dir/My Note.md".to_string()),
        parent_names: vec![],
    }];
    assert_eq!(render_markdown(&items), "- [My Note](my%20dir/My%20Note.html)\n");
}

#[test]
fn unsorted_selection_keeps_walk_order() {
    let walked = strings(&["b.md", "a/x.md", "SUMMARY.md", "a.md"]);
    assert_eq!(select_uncovered(&walked, &vec![], TocSort::Filesystem, &vec![], &vec![]), strings(&["b.md", "a/x.md", "a.md"]));
}

#[test]
fn modified_selection_is_oldest_first() {
    let walked = strings(&["SUMMARY.md", "a.md", "b.md"]);
    let mtimes = vec![1, 20, 10];
    assert_eq!(select_uncovered(&walked, &vec![], TocSort::Modified, &mtimes, &vec![]), strings(&["b.md", "a.md"]));
}

#[test]
fn modified_selection_orders_directories_by_their_own_time() {
    let walked = strings(&["old/x.md", "new/y.md", "mid.md", "new/a.md"]);
    let mtimes = vec![1, 2, 5, 9];
    let dirs = vec![("old".to_string(), 8), ("new".to_string(), 3)];
    assert_eq!(
        select_uncovered(&walked, &vec![], TocSort::Modified, &mtimes, &dirs),
        strings(&["new/y.md", "new/a.md", "mid.md", "old/x.md"])
    );
}

#[test]
fn sections_keep_first_occurrence_order_and_can_come_first() {
    let files = strings(&["z/q.md", "b.md", "a/r.md"]);
    let items = build_items(&files, &vec![], 1, false);
    let got: Vec<_> = items.iter().map(|e| (e.name.clone(), e.number.clone())).collect();
    assert_eq!(
        got,
        vec![
            ("b".to_string(), vec![1]),
            ("z".to_string(), vec![2]),
            ("q".to_string(), vec![2, 1]),
            ("a".to_string(), vec![3]),
            ("r".to_string(), vec![3, 1]),
        ]
    );
    let items = build_items(&files, &vec![], 1, true);
    let got: Vec<_> = items.iter().map(|e| (e.name.clone(), e.number.clone())).collect();
    assert_eq!(
        got,
        vec![
            ("z".to_string(), vec![1]),
            ("q".to_string(), vec![1, 1]),
            ("a".to_string(), vec![2]),
            ("r".to_string(), vec![2, 1]),
            ("b".to_string(), vec![3]),
        ]
    );
}

use mdbook_obsidian::breaks::patch_hard_line_breaks;

#[test]
fn hard_break_added_between_adjacent_lines() {
    let input = "line one\nline two\n";
    assert_eq!(patch_hard_line_breaks(input), "line one  \nline two\n");
}

#[test]
fn hard_break_not_added_across_blank_line() {
    let input = "paragraph one\n\nparagraph two\n";
    assert_eq!(patch_hard_line_breaks(input), input);
}

#[test]
fn hard_break_skips_existing_trailing_spaces() {
    let input = "already hard  \nnext\n";
    assert_eq!(patch_hard_line_breaks(input), input);
}

#[test]
fn hard_break_skips_code_block_contents() {
    let input = "text\n```\nline a\nline b\n```\nafter\n";
    assert_eq!(patch_hard_line_breaks(input), "text  \n```\nline a\nline b\n```\nafter\n");
}

#[test]
fn hard_break_skips_backslash_and_whitespace_only_lines() {
    assert_eq!(patch_hard_line_breaks("a\\\nb\n \t\nc"), "a\\\nb\n \t\nc");
    assert_eq!(patch_hard_line_breaks("a\nb\nc"), "a  \nb  \nc");
}

#[test]
fn hard_break_is_idempotent_on_example() {
    let once = patch_hard_line_breaks("x\ny\n```\nz\nw\n```\n");
    assert_eq!(patch_hard_line_breaks(&once), once);
}

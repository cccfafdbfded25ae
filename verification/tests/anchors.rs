use mdbook_obsidian::anchors::{normalize_link, process_content, process_text, strip_url_trailing_punct, transform_line};

fn replace_links(text: &str) -> String {
    process_text(text)
}

#[test]
fn skips_image_links_with_encoded_path() {
    let input = "![alt](Pasted%20Image%2020250424.png)";
    assert_eq!(replace_links(input), input);
}

#[test]
fn skips_image_links_with_subdir() {
    let input = "![screenshot](attachments/Pasted%20Image.png)";
    assert_eq!(replace_links(input), input);
}

#[test]
fn normalizes_same_page_anchor_with_encoding() {
    let input = "[Grade 1](#Grade%201%20-%20Color)";
    assert_eq!(replace_links(input), "[Grade 1](#grade-1---color)");
}

#[test]
fn already_normalized_same_page_anchor_unchanged() {
    assert_eq!(replace_links("[top](#top)"), "[top](#top)");
}

#[test]
fn strips_block_id_caret_from_fragment() {
    assert_eq!(replace_links("[ref](Note.md#^my-block)"), "[ref](Note.md#my-block)");
}

#[test]
fn strips_block_id_caret_from_same_page_fragment() {
    assert_eq!(replace_links("[ref](#^my-block)"), "[ref](#my-block)");
}

#[test]
fn file_path_left_unchanged() {
    let input = "[Link](A%20file-name%20with%20space.md)";
    assert_eq!(replace_links(input), input);
}

#[test]
fn normalizes_anchor_in_cross_page_link() {
    let input = "[Link](My%20Note.md#Grade%201%20-%20Color)";
    assert_eq!(replace_links(input), "[Link](My%20Note.md#grade-1---color)");
}

#[test]
fn skips_external_urls() {
    let input = "[Rust](https://www.rust-lang.org)";
    assert_eq!(replace_links(input), input);
}

#[test]
fn skips_fenced_code_blocks() {
    let input = "```\n[Link](#Grade%201)\n```";
    assert_eq!(process_content(input), input);
}

#[test]
fn skips_inline_code() {
    let input = "text `[Link](#Grade%201)` end";
    assert_eq!(transform_line(input), input);
}

#[test]
fn transforms_outside_inline_code() {
    let input = "[A](#Grade%201) and `code` and [B](#Math%20Class)";
    assert_eq!(transform_line(input), "[A](#grade-1) and `code` and [B](#math-class)");
}

#[test]
fn autolinks_bare_https_url() {
    let input = "Watch https://youtu.be/abc here.";
    assert_eq!(process_text(input), "Watch [https://youtu.be/abc](https://youtu.be/abc) here.");
}

#[test]
fn autolinks_strips_trailing_period() {
    let input = "See https://example.com.";
    assert_eq!(process_text(input), "See [https://example.com](https://example.com).");
}

#[test]
fn autolink_does_not_double_link_existing_link() {
    let input = "[text](https://youtu.be/abc)";
    assert_eq!(process_text(input), "[text](https://youtu.be/abc)");
}

#[test]
fn autolink_skips_url_in_link_text() {
    let input = "[https://youtu.be/abc](https://youtu.be/abc)";
    assert_eq!(process_text(input), "[https://youtu.be/abc](https://youtu.be/abc)");
}

#[test]
fn autolinks_bare_url_in_code_block_skipped() {
    let input = "```\nhttps://example.com\n```";
    assert_eq!(process_content(input), input);
}

#[test]
fn strip_trailing_punct_keeps_path() {
    assert_eq!(strip_url_trailing_punct("https://a.b/c.\"!?"), "https://a.b/c");
    assert_eq!(strip_url_trailing_punct("https://a.b/c"), "https://a.b/c");
}

#[test]
fn normalize_link_variants() {
    assert_eq!(normalize_link("mailto:x#Y Z"), "mailto:x#Y Z");
    assert_eq!(normalize_link("//host/p#A B"), "//host/p#A B");
    assert_eq!(normalize_link("page.md#A B"), "page.md#a-b");
    assert_eq!(normalize_link("page.md"), "page.md");
    assert_eq!(normalize_link("#%E2%82"), "#%e2%82");
}

#[test]
fn process_content_keeps_trailing_newline_and_tilde_fences() {
    let input = "~~~~\n[x](#A B)\n~~~\n~~~~\n[x](#A B)\n";
    assert_eq!(process_content(input), "~~~~\n[x](#A B)\n~~~\n~~~~\n[x](#a-b)\n");
}

#[test]
fn unclosed_backticks_are_prose() {
    assert_eq!(transform_line("`` [a](#B) ` x"), "`` [a](#b) ` x");
}

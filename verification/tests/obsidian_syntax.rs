use mdbook_obsidian::obsidian_syntax::process;


// --- comments ---

#[test]
fn removes_inline_comment() {
    assert_eq!(
        process("before %%hidden%% after", false),
        "before  after"
    );
}

#[test]
fn removes_multiline_comment() {
    let input = "start\n%%\nhidden\n%%\nend";
    assert_eq!(process(input, false), "start\n\n\n\nend");
}

#[test]
fn preserves_comment_in_code_block() {
    let input = "```\n%%not removed%%\n```";
    assert_eq!(process(input, false), input);
}

// --- highlights ---

#[test]
fn converts_highlight() {
    assert_eq!(process("==hello==", false), "<mark>hello</mark>");
}

#[test]
fn ignores_triple_equals() {
    let input = "===foo===";
    assert_eq!(process(input, false), input);
}

#[test]
fn preserves_highlight_in_code_span() {
    let input = "`==not highlighted==`";
    assert_eq!(process(input, false), input);
}

// --- callouts ---

#[test]
fn converts_basic_callout() {
    let input = "> [!note]\n> Body text";
    let out = process(input, false);
    assert!(out.contains("callout-note"));
    assert!(out.contains("Note"));
    assert!(out.contains("Body text"));
}

#[test]
fn callout_custom_title() {
    let input = "> [!tip] My Tip\n> Content";
    let out = process(input, false);
    assert!(out.contains("My Tip"));
    assert!(out.contains("callout-tip"));
}

#[test]
fn foldable_callout_uses_details() {
    let input = "> [!faq]- Collapsed\n> Content";
    let out = process(input, false);
    assert!(out.contains("<details"));
    assert!(!out.contains("open"));
}

#[test]
fn foldable_callout_expanded() {
    let input = "> [!faq]+ Expanded\n> Content";
    let out = process(input, false);
    assert!(out.contains("open"));
}

#[test]
fn callout_injects_css() {
    let input = "> [!note]\n> Body";
    let out = process(input, false);
    assert!(out.contains("<style>"));
}

#[test]
fn non_callout_blockquote_unchanged() {
    let input = "> This is a regular blockquote";
    let out = process(input, false);
    assert_eq!(out, input);
}

// --- block IDs ---

#[test]
fn block_id_inline_plain_paragraph() {
    assert_eq!(
        process("Some paragraph text ^my-block", false),
        "<span id=\"my-block\">Some paragraph text</span>"
    );
}

#[test]
fn block_id_standalone_line() {
    assert_eq!(
        process("^standalone-id", false),
        "<span id=\"standalone-id\"></span>"
    );
}

#[test]
fn block_id_in_fenced_code_unchanged() {
    let input = "```\ncode line ^not-an-id\n```";
    assert_eq!(process(input, false), input);
}

#[test]
fn block_id_not_converted_mid_line() {
    // `^id` with more text after it → not a block ID
    let input = "text ^id more text";
    assert_eq!(process(input, false), input);
}

#[test]
fn block_id_heading_appends_empty_span() {
    // Headings: keep the `##` outside so markdown syntax is preserved.
    assert_eq!(
        process("## Section ^sec-id", false),
        "## Section <span id=\"sec-id\"></span>"
    );
}

#[test]
fn block_id_list_item_appends_empty_span() {
    assert_eq!(
        process("- Item text ^item-id", false),
        "- Item text <span id=\"item-id\"></span>"
    );
}

// --- wikilinks with block IDs ---

#[test]
fn wikilink_to_block_id() {
    let out = process("[[My Note#^block-id]]", false);
    assert_eq!(out, "[My Note](My%20Note.md#block-id)");
}

#[test]
fn wikilink_same_page_block_id() {
    let out = process("[[#^block-id]]", false);
    assert_eq!(out, "[block-id](#block-id)");
}

#[test]
fn wikilink_same_page_block_id_with_display() {
    let out = process("[[#^block-id|See this]]", false);
    assert_eq!(out, "[See this](#block-id)");
}

#[test]
fn wikilink_cross_note_block_id_with_display() {
    let out = process("[[My Note#^block-id|See here]]", false);
    assert_eq!(out, "[See here](My%20Note.md#block-id)");
}

// --- wikilinks ---

#[test]
fn converts_plain_wikilink() {
    let out = process("[[My Note]]", false);
    assert_eq!(out, "[My Note](My%20Note.md)");
}

#[test]
fn converts_wikilink_with_display() {
    let out = process("[[My Note|See here]]", false);
    assert_eq!(out, "[See here](My%20Note.md)");
}

#[test]
fn converts_wikilink_with_heading() {
    let out = process("[[My Note#Section Title]]", false);
    assert_eq!(out, "[My Note](My%20Note.md#section-title)");
}

#[test]
fn preserves_embed_wikilink() {
    let input = "![[image.png]]";
    assert_eq!(process(input, false), input);
}

#[test]
fn preserves_excalidraw_wikilink() {
    let input = "[[Drawing.excalidraw]]";
    assert_eq!(process(input, false), input);
}

#[test]
fn preserves_wikilink_in_code_block() {
    let input = "```\n[[Not converted]]\n```";
    assert_eq!(process(input, false), input);
}

#[test]
fn callout_alias_and_unicode_free_title() {
    let out = process("> [!TLDR]\n> a\n>\n> b\nafter", false);
    assert!(out.contains("callout-abstract"));
    assert!(out.contains(">Abstract</div>"));
    assert!(out.contains("\n\na\n\nb\n\n</div>"));
    assert!(out.ends_with("</div>\n\nafter"));
}

#[test]
fn highlight_stops_at_code_span() {
    assert_eq!(process("==a `==b==` c==", false), "==a `==b==` c==");
    assert_eq!(process("x ==a== y ==b==", false), "x <mark>a</mark> y <mark>b</mark>");
}

#[test]
fn comment_opened_inside_fence_marker_line_is_kept() {
    assert_eq!(process("%%\n```\n%%\nx", false), "\n\n\nx");
}

#[test]
fn wikilink_with_extension_and_subfolder() {
    assert_eq!(process("[[docs/My File.pdf]]", false), "[My File](docs/My%20File.pdf)");
    assert_eq!(process("see [[a]] and [[b|B]]", false), "see [a](a.md) and [B](b.md)");
}

#[test]
fn block_id_ordered_list_and_trailing_space() {
    assert_eq!(process("1. item ^x1", false), "1. item <span id=\"x1\"></span>");
    assert_eq!(process("text ^id  ", false), "<span id=\"id\">text</span>");
}

#[test]
fn wikilink_targets_percent_encode_utf8() {
    assert_eq!(process("[[Café Notes]]", false), "[Café Notes](Caf%C3%A9%20Notes.md)");
}

use mdbook_obsidian::frontmatter::{escape_html, extract_frontmatter, js_str, normalize_tag, parse_inline_array, parse_list, process, unquote};


#[test]
fn strips_frontmatter_no_properties() {
    let input = "---\ntitle: My Note\ndate: 2024-01-01\n---\n\n# Content\n";
    assert_eq!(process(input), "# Content\n");
}

#[test]
fn extracts_inline_array_tags() {
    let input = "---\ntags: [rust, mdbook]\n---\n\nBody\n";
    let out = process(input);
    assert!(out.contains("ob-tag"));
    assert!(out.contains("rust"));
    assert!(out.contains("mdbook"));
    assert!(out.contains("Body"));
}

#[test]
fn extracts_block_list_tags() {
    let input = "---\ntags:\n  - rust\n  - mdbook\n---\n\nBody\n";
    let out = process(input);
    assert!(out.contains("rust"));
    assert!(out.contains("mdbook"));
}

#[test]
fn strips_hash_prefix_from_tags() {
    let input = "---\ntags: [#rust, #mdbook]\n---\n\nBody\n";
    let out = process(input);
    // Should show "rust" not "#rust" (# comes from CSS ::before)
    assert!(out.contains(">rust<"));
    assert!(!out.contains(">#rust<"));
}

#[test]
fn extracts_aliases() {
    let input = "---\naliases: [My Note, Note]\n---\n\nBody\n";
    let out = process(input);
    assert!(out.contains("ob-alias"));
    assert!(out.contains("My Note"));
}

#[test]
fn no_frontmatter_unchanged() {
    let input = "# Heading\n\nParagraph\n";
    assert_eq!(process(input), input);
}

#[test]
fn tag_onclick_calls_search() {
    let input = "---\ntags: [rust]\n---\n\nBody\n";
    let out = process(input);
    assert!(out.contains("obTagSearch"));
    assert!(out.contains("\"rust\""));
}

#[test]
fn tag_with_special_html_chars() {
    let input = "---\ntags: [\"a<b>\"]\n---\n\nBody\n";
    let out = process(input);
    assert!(out.contains("a&lt;b&gt;"));
}

#[test]
fn frontmatter_split_forms() {
    assert_eq!(extract_frontmatter("---\r\na: 1\n---\r\nbody"), Some(("a: 1".to_string(), "body".to_string())));
    assert_eq!(extract_frontmatter("---\na: 1\n---"), Some(("a: 1".to_string(), "".to_string())));
    assert_eq!(extract_frontmatter("--\na"), None);
    assert_eq!(extract_frontmatter("---\nno end"), None);
}

#[test]
fn list_forms() {
    assert_eq!(parse_list("tags: one", "tags"), vec!["one".to_string()]);
    assert_eq!(parse_list("x: 1\n  tags:\n\n  - 'a'\n  - #b\nother: 2\n  - c", "tags"), vec!["a".to_string(), "b".to_string()]);
    assert_eq!(parse_list("title: t", "tags"), Vec::<String>::new());
    assert_eq!(parse_inline_array("[a, , \"b c\" ,#d]"), vec!["a".to_string(), "b c".to_string(), "d".to_string()]);
    assert_eq!(parse_inline_array("[x"), vec!["[x".to_string()]);
}

#[test]
fn escaping() {
    assert_eq!(escape_html("a&<b>\"c\""), "a&amp;&lt;b&gt;&quot;c&quot;");
    assert_eq!(js_str("a\\b\"c\nd\re"), "\"a\\\\b\\\"c\\nde\"");
    assert_eq!(unquote("  'x'  "), "x");
    assert_eq!(unquote("\""), "\"");
    assert_eq!(normalize_tag("\"##t\""), "t");
}

#[test]
fn aliases_panel_before_tags() {
    let out = process("---\naliases: [A]\ntags: [t]\n---\nBody");
    let a = out.find("ob-alias\">A<").unwrap();
    let t = out.find(">t</button>").unwrap();
    assert!(a < t);
    assert!(out.ends_with("</div>\n</div>\n\nBody"));
}

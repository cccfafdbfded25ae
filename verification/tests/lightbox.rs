use mdbook_obsidian::lightbox::{has_images, process, LIGHTBOX_CSS, LIGHTBOX_JS};

#[test]
fn lightbox_added_for_markdown_image() {
    let input = "text ![alt](a.png)";
    assert_eq!(process(input), format!("{}{}{}", input, LIGHTBOX_CSS, LIGHTBOX_JS));
}

#[test]
fn lightbox_added_for_html_image() {
    assert!(has_images("<img src=x>"));
    assert!(process("<img src=x>").contains("lb-overlay"));
}

#[test]
fn lightbox_not_added_without_images() {
    let input = "no pictures [here](x.md)";
    assert_eq!(process(input), input);
    assert!(!has_images(input));
}

use mdbook_obsidian::embed::{check_embed_line, extract_youtube_id, has_youtube, make_embed, process};


#[test]
fn embeds_youtu_be_url() {
    let out = process("https://youtu.be/dQw4w9WgXcQ");
    assert!(out.contains("youtube.com/embed/dQw4w9WgXcQ"));
    assert!(out.contains("<iframe"));
    assert!(out.contains(".yt-embed"));
    // URL shown as clickable link above player
    assert!(out.contains("[https://youtu.be/dQw4w9WgXcQ](https://youtu.be/dQw4w9WgXcQ)"));
}

#[test]
fn embeds_youtube_watch_url() {
    let out = process("https://www.youtube.com/watch?v=dQw4w9WgXcQ");
    assert!(out.contains("youtube.com/embed/dQw4w9WgXcQ"));
    assert!(out.contains("[https://www.youtube.com/watch?v=dQw4w9WgXcQ]"));
}

#[test]
fn embeds_autolinked_form() {
    // After the autolink pass, bare URLs are wrapped as [url](url).
    let out = process("[https://youtu.be/abc123](https://youtu.be/abc123)");
    assert!(out.contains("youtube.com/embed/abc123"));
    assert!(out.contains("[https://youtu.be/abc123](https://youtu.be/abc123)"));
}

#[test]
fn embeds_image_embed_syntax() {
    // Obsidian-style image embed with a YouTube URL.
    let out = process("![](https://youtu.be/abc123)");
    assert!(out.contains("youtube.com/embed/abc123"));
    assert!(out.contains("[https://youtu.be/abc123](https://youtu.be/abc123)"));
}

#[test]
fn embeds_named_link() {
    // Named link: display text is discarded, raw URL is shown above player.
    let out = process("[Watch this video](https://youtu.be/abc123)");
    assert!(out.contains("youtube.com/embed/abc123"));
    assert!(out.contains("[https://youtu.be/abc123](https://youtu.be/abc123)"));
}

#[test]
fn does_not_embed_url_with_surrounding_text() {
    let out = process("Watch https://youtu.be/abc here");
    assert!(!out.contains("<iframe"));
}

#[test]
fn skips_youtube_in_fenced_code() {
    let input = "```\nhttps://youtu.be/abc\n```";
    let out = process(input);
    assert!(!out.contains("<iframe"));
}

#[test]
fn no_change_without_youtube() {
    let input = "Just some text\nwith no video links.";
    assert_eq!(process(input), input);
}

#[test]
fn youtube_id_forms() {
    assert_eq!(extract_youtube_id("https://youtu.be/abc?t=1"), Some("abc".to_string()));
    assert_eq!(extract_youtube_id("http://youtu.be/x#y"), Some("x".to_string()));
    assert_eq!(extract_youtube_id("https://youtu.be/"), None);
    assert_eq!(extract_youtube_id("https://m.youtube.com/watch?feature=a&v=Q1&t=2"), Some("Q1".to_string()));
    assert_eq!(extract_youtube_id("https://example.com/watch?v=Q1"), None);
}

#[test]
fn embed_html_exact() {
    assert_eq!(
        make_embed("ID"),
        "<div class=\"yt-embed\"><iframe src=\"https://www.youtube.com/embed/ID\" frameborder=\"0\" allow=\"accelerometer; autoplay; clipboard-write; encrypted-media; gyroscope; picture-in-picture\" allowfullscreen loading=\"lazy\"></iframe></div>"
    );
    assert!(has_youtube("see youtube.com/watch?v=1"));
    assert!(!has_youtube("see youtube.com/channel"));
}

#[test]
fn embed_layout_exact() {
    let out = process("a\n  https://youtu.be/Z  \nb");
    let expected_start = "a\n\n\n[https://youtu.be/Z](https://youtu.be/Z)\n\n<div class=\"yt-embed\">";
    assert!(out.starts_with(expected_start));
    assert!(out.contains("</iframe></div>\n\n\nb\n<style>"));
}

#[test]
fn youtube_mention_without_embed_is_unchanged() {
    let input = "text youtu.be/abc in prose";
    assert_eq!(process(input), input);
}

#[test]
fn bare_url_with_more_words_is_not_embedded() {
    assert_eq!(check_embed_line("https://youtu.be/abc more words"), None);
    assert_eq!(check_embed_line("https://www.youtube.com/watch?v=abc\tand more"), None);
    let input = "https://youtu.be/abc more words";
    assert_eq!(process(input), input);
    assert!(check_embed_line("https://youtu.be/abc").is_some());
}

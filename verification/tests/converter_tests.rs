use markdown_lab::markdown_converter::{
    convert_to_markdown, document_to_markdown, parse_html_to_document, Document, Heading, Link,
    List, MarkdownError,
};
use markdown_lab::optimized_converter::{
    convert_to_markdown_optimized, document_to_markdown_optimized, parse_html_optimized,
};

fn empty_document(title: &str, base: &str) -> Document {
    Document {
        title: title.to_string(),
        base_url: base.to_string(),
        headings: Vec::new(),
        paragraphs: Vec::new(),
        links: Vec::new(),
        images: Vec::new(),
        lists: Vec::new(),
        code_blocks: Vec::new(),
        blockquotes: Vec::new(),
    }
}

#[test]
fn test_convert_basic_html() {
    let html = "<html><head><title>Test Page</title></head><body><h1>Main Title</h1><p>This is a test paragraph.</p><ul><li>Item 1</li><li>Item 2</li></ul></body></html>";

    let base_url = "https://example.com";
    let markdown = convert_to_markdown(html, base_url).unwrap();

    assert!(markdown.contains("# Test Page"));
    assert!(markdown.contains("# Main Title"));
    assert!(markdown.contains("This is a test paragraph."));
    assert!(markdown.contains("- Item 1"));
    assert!(markdown.contains("- Item 2"));
}

#[test]
fn test_convert_links_and_images() {
    let html =
        "<div><a href=\"/test\">Test Link</a><img src=\"/image.jpg\" alt=\"Test Image\"></div>";

    let base_url = "https://example.com";
    let markdown = convert_to_markdown(html, base_url).unwrap();

    assert!(markdown.contains("[Test Link](https://example.com/test)"));
    assert!(markdown.contains("![Test Image](https://example.com/image.jpg)"));
}

#[test]
fn test_convert_code_blocks() {
    let html = "<pre><code class=\"language-rust\">fn main() { println!(\"Hello, world!\"); }</code></pre>";

    let base_url = "https://example.com";
    let markdown = convert_to_markdown(html, base_url).unwrap();

    assert!(markdown.contains("```rust"));
    assert!(markdown.contains("fn main()"));
    assert!(markdown.contains("```"));
}

#[test]
fn test_render_title_and_paragraph_exactly() {
    let mut d = empty_document("T", "https://example.com");
    d.paragraphs.push("Hello.".to_string());
    assert_eq!(document_to_markdown(&d), "# T\n\nHello.");
}

#[test]
fn test_render_ordered_list_numbering() {
    let mut d = empty_document("T", "https://example.com");
    d.lists.push(List { ordered: true, items: vec!["a".to_string(), "b".to_string()] });
    assert_eq!(document_to_markdown(&d), "# T\n\n1. a\n2. b");
}

#[test]
fn test_render_heading_levels() {
    let mut d = empty_document("T", "https://example.com");
    d.headings.push(Heading { level: 3, text: "Deep".to_string() });
    assert_eq!(document_to_markdown(&d), "# T\n\n### Deep");
}

#[test]
fn test_render_blockquote_lines() {
    let mut d = empty_document("T", "https://example.com");
    d.blockquotes.push("one\ntwo".to_string());
    assert_eq!(document_to_markdown(&d), "# T\n\n> one\n> two");
}

#[test]
fn test_optimized_render_skips_fallback_title() {
    let d = empty_document("No Title", "https://example.com");
    assert_eq!(document_to_markdown_optimized(&d), "");
}

#[test]
fn test_optimized_render_links_section() {
    let mut d = empty_document("T", "https://example.com");
    d.links.push(Link { text: "L".to_string(), url: "https://example.com/x".to_string() });
    assert_eq!(
        document_to_markdown_optimized(&d),
        "# T\n\n## Links\n\n- [L](https://example.com/x)\n\n"
    );
}

#[test]
fn test_parse_rejects_bad_base_url() {
    assert!(matches!(
        parse_html_to_document("<p>x</p>", "not a url"),
        Err(MarkdownError::UrlError(_))
    ));
    assert!(matches!(
        parse_html_optimized("<p>x</p>", "not a url"),
        Err(MarkdownError::UrlError(_))
    ));
    assert!(convert_to_markdown("<p>x</p>", "not a url").is_err());
    assert!(convert_to_markdown_optimized("<p>x</p>", "not a url").is_err());
}

#[test]
fn test_parse_extracts_document_fields() {
    let html = "<html><head><title> Spaced Title </title></head><body><h2>Sub</h2><p>Para.</p><blockquote>Quoted</blockquote></body></html>";
    let d = parse_html_to_document(html, "https://example.com").unwrap();
    assert_eq!(d.title, "Spaced Title");
    assert_eq!(d.base_url, "https://example.com");
    assert_eq!(d.headings.len(), 1);
    assert_eq!(d.headings[0].level, 2);
    assert_eq!(d.headings[0].text, "Sub");
    assert_eq!(d.paragraphs, vec!["Para.".to_string()]);
    assert_eq!(d.blockquotes, vec!["Quoted".to_string()]);
}

#[test]
fn test_optimized_convert_basic() {
    let html = "<html><head><title>Opt</title></head><body><p>Body.</p></body></html>";
    let markdown = convert_to_markdown_optimized(html, "https://example.com").unwrap();
    assert!(markdown.contains("# Opt"));
    assert!(markdown.contains("Body."));
}

use markdown_lab::html_parser::{
    clean_html, clean_html_advanced, extract_links, extract_main_content, resolve_url, ParserError,
};

#[test]
fn test_extract_main_content() {
    let html = "<html><head><title>Test</title></head><body><main><h1>Main Content</h1><p>Test paragraph</p></main><footer>Footer content</footer></body></html>";

    let result = extract_main_content(html).unwrap();
    let content = result.root_element().html();
    assert!(content.contains("Main Content"));
    assert!(content.contains("Test paragraph"));
    assert!(!content.contains("Footer content"));
}

#[test]
fn test_clean_html() {
    let html = "<div><script>alert('test');</script><p>Keep this content</p><style>.test{color:red;}</style><div class=\"ad\">Remove this ad</div></div>";

    let result = clean_html(html).unwrap();
    assert!(result.contains("Keep this content"));
    assert!(!result.contains("alert('test')"));
    assert!(!result.contains("Remove this ad"));
    assert!(!result.contains(".test{color:red;}"));
}

#[test]
fn test_extract_links() {
    let html = "<div><a href=\"https://example.com\">Example</a><a href=\"/relative/path\">Relative</a><a href=\"javascript:void(0)\">JS Link</a><a href=\"#section\">Hash Link</a></div>";

    let base_url = "https://test.com";
    let links = extract_links(html, base_url).unwrap();

    assert!(links.contains(&"https://example.com".to_string()));
    assert!(links.contains(&"https://test.com/relative/path".to_string()));
    assert_eq!(links.len(), 2); // Only valid URLs should be included
}

#[test]
fn test_extract_links_sorted_and_unique() {
    let html = "<a href=\"/b\">x</a><a href=\"/a\">y</a><a href=\"/b\">z</a>";
    let links = extract_links(html, "https://test.com").unwrap();
    assert_eq!(
        links,
        vec!["https://test.com/a".to_string(), "https://test.com/b".to_string()]
    );
}

#[test]
fn test_extract_links_rejects_bad_base() {
    assert!(matches!(
        extract_links("<a href=\"/x\">x</a>", "no scheme here"),
        Err(ParserError::UrlError(_))
    ));
}

#[test]
fn test_resolve_url_relative() {
    let abs = resolve_url("https://example.com/path/", "subpage.html").unwrap();
    assert_eq!(abs, "https://example.com/path/subpage.html");
}

#[test]
fn test_resolve_url_absolute_passthrough() {
    let abs = resolve_url("https://example.com", "https://other.com/page").unwrap();
    assert_eq!(abs, "https://other.com/page");
}

#[test]
fn test_resolve_url_bad_base() {
    assert!(matches!(
        resolve_url("not a url", "subpage.html"),
        Err(ParserError::UrlError(_))
    ));
}

#[test]
fn test_clean_html_advanced_keeps_content() {
    let html = "<html><body><script>bad()</script><main>Good Content</main></body></html>";
    let cleaned = clean_html_advanced(html).unwrap();
    assert!(cleaned.contains("Good Content"));
    assert!(!cleaned.contains("bad()"));
}

#[test]
fn test_extract_main_content_falls_back_to_body() {
    let html = "<html><body><p>Just a body</p></body></html>";
    let result = extract_main_content(html).unwrap();
    let content = result.root_element().html();
    assert!(content.contains("Just a body"));
}

#[test]
fn test_get_element_text_collapses_whitespace() {
    let html = scraper::Html::parse_fragment("<div>Hello   <b>world</b>!</div>");
    let selector = scraper::Selector::parse("div").unwrap();
    let element = html.select(&selector).next().unwrap();
    let text = markdown_lab::html_parser::get_element_text(&element);
    assert_eq!(text, "Hello world !");
}

use markdown_lab::cleanup::ResourceManager;
use markdown_lab::js_renderer::enhanced_html;
use markdown_lab::parallel_processor::{
    analyze_document, chunk_document, convert_document, convert_identified, ParallelConfig,
};

#[test]
fn test_enhanced_html() {
    let html = "<html><body>Test</body></html>";
    let result = enhanced_html(html);
    assert!(result.is_ok());
    assert!(result.unwrap().contains("Test"));
}

#[test]
fn test_resource_manager_lifecycle() {
    let mut rm = ResourceManager::new();
    assert!(!rm.is_shutting_down());
    rm.shutdown();
    assert!(rm.is_shutting_down());
    let rm2 = ResourceManager::default();
    assert!(!rm2.is_shutting_down());
}

#[test]
fn test_analyze_single_document() {
    let html = "<html><body>\
        <h1>Title</h1>\
        <p>Paragraph 1</p>\
        <p>Paragraph 2</p>\
        <a href=\"/link\">Link</a>\
        <img src=\"/image.jpg\">\
        </body></html>";
    let stats = analyze_document(html);
    assert_eq!(stats.total_size, html.len());
    assert_eq!(stats.heading_count, 1);
    assert_eq!(stats.paragraph_count, 2);
    assert_eq!(stats.link_count, 1);
    assert_eq!(stats.image_count, 1);
}

#[test]
fn test_chunk_document_falls_back_on_bad_config() {
    let text = "# A\n\nBody text";
    let chunks = chunk_document(text, 10, 10);
    assert_eq!(chunks, vec![text.to_string()]);
    let good = chunk_document(text, 100, 10);
    assert!(!good.is_empty());
    assert!(good[0].contains("# A"));
}

#[test]
fn test_convert_document_reports_error_message() {
    let err = convert_document("<p>x</p>", "not a url", true).unwrap_err();
    assert!(err.contains("URL parsing error"));
    let ok = convert_document(
        "<html><head><title>D</title></head><body><p>x</p></body></html>",
        "https://example.com",
        false,
    )
    .unwrap();
    assert!(ok.contains("# D"));
}

#[test]
fn test_convert_identified_keeps_identifier() {
    let r = convert_identified(
        "<p>x</p>",
        "https://example.com",
        "doc-1".to_string(),
        true,
    );
    assert_eq!(r.url, "doc-1");
    assert!(r.content.is_ok());
}

#[test]
fn test_parallel_config_default() {
    let c = ParallelConfig::default();
    assert!(c.max_threads.is_none());
    assert_eq!(c.chunk_size, 100);
    assert!(c.use_optimized);
}

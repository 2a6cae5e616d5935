//! Per-document cores of the batch pipeline. The fan-out across documents
//! runs outside the library; each worker calls one of these functions on
//! one document.

use vstd::prelude::*;

use crate::chunker::{chunk_trace, create_semantic_chunks};
use crate::dom::{count_of, html_count, parsed_url};
use crate::markdown_converter::{convert_to_markdown, doc_matches, markdown_of, Document};
use crate::optimized_converter::{convert_to_markdown_optimized, markdown_opt_of};
use vstd::string::StringSliceAdditionalSpecFns;

verus! {

/// Result of converting one document of a batch.
#[derive(Debug)]
pub struct BatchResult {
    pub url: String,
    pub content: Result<String, String>,
}

/// Configuration for batch processing.
#[derive(Clone)]
pub struct ParallelConfig {
    pub max_threads: Option<usize>,
    pub chunk_size: usize,
    pub use_optimized: bool,
}

impl Default for ParallelConfig {
    /// The default configuration: the pool's own thread count, batches of a
    /// hundred documents, the buffer-reusing conversion path.
    fn default() -> (r: Self)
        ensures
            r.max_threads is None,
            r.chunk_size == 100,
            r.use_optimized,
    {
        ParallelConfig { max_threads: None, chunk_size: 100, use_optimized: true }
    }
}

/// Element counts of one analyzed document.
#[derive(Debug, Clone)]
pub struct DocumentStats {
    pub total_size: usize,
    pub heading_count: usize,
    pub paragraph_count: usize,
    pub link_count: usize,
    pub image_count: usize,
}

/// Counts the headings, paragraphs, links and images of one document,
/// together with its size in bytes.
pub fn analyze_document(html: &str) -> (r: DocumentStats)
    ensures
        r.total_size == html.spec_bytes().len() as usize,
        r.heading_count as int == count_of(html@, "h1, h2, h3, h4, h5, h6"@),
        r.paragraph_count as int == count_of(html@, "p"@),
        r.link_count as int == count_of(html@, "a[href]"@),
        r.image_count as int == count_of(html@, "img[src]"@),
{
    DocumentStats {
        total_size: html.len(),
        heading_count: html_count(html, "h1, h2, h3, h4, h5, h6"),
        paragraph_count: html_count(html, "p"),
        link_count: html_count(html, "a[href]"),
        image_count: html_count(html, "img[src]"),
    }
}

/// Chunks one document, falling back to the whole text as a single chunk
/// when the configuration is rejected.
pub fn chunk_document(text: &str, chunk_size: usize, chunk_overlap: usize) -> (r: Vec<String>)
    ensures
        chunk_overlap < chunk_size ==> {
            let tr = chunk_trace(text@, chunk_size as int, chunk_overlap as int);
            r@.len() == tr.len() && forall|i: int|
                0 <= i < tr.len() ==> r@[i]@ == #[trigger] tr[i].content
        },
        chunk_overlap >= chunk_size ==> r@.len() == 1 && r@[0]@ == text@,
{
    match create_semantic_chunks(text, chunk_size, chunk_overlap) {
        Ok(chunks) => chunks,
        Err(_) => {
            let mut v: Vec<String> = Vec::new();
            v.push(String::from_str(text));
            v
        },
    }
}

/// Converts one document of a batch, reporting failure as the error's
/// rendered message.
pub fn convert_document(html: &str, base_url: &str, use_optimized: bool) -> (r: Result<
    String,
    String,
>)
    ensures
        r is Ok <==> (parsed_url(base_url@) is Some),
        r is Ok && use_optimized ==> exists|d: Document|
            #[trigger] doc_matches(d, html@, base_url@, true) && r->Ok_0@ == markdown_opt_of(d),
        r is Ok && !use_optimized ==> exists|d: Document|
            #[trigger] doc_matches(d, html@, base_url@, false) && r->Ok_0@ == markdown_of(d),
{
    if use_optimized {
        match convert_to_markdown_optimized(html, base_url) {
            Ok(md) => Ok(md),
            Err(e) => Err(e.message()),
        }
    } else {
        match convert_to_markdown(html, base_url) {
            Ok(md) => Ok(md),
            Err(e) => Err(e.message()),
        }
    }
}

/// Converts one identified document of a batch.
pub fn convert_identified(html: &str, base_url: &str, identifier: String, use_optimized: bool)
    -> (r: BatchResult)
    ensures
        r.content is Ok <==> (parsed_url(base_url@) is Some),
{
    let content = convert_document(html, base_url, use_optimized);
    BatchResult { url: identifier, content }
}

} // verus!

//! Semantic chunking of Markdown text for retrieval use, together with the
//! surrounding document pipeline: HTML extraction into a document model and
//! rendering of that model back to Markdown.

pub mod chunker;
pub mod cleanup;
pub mod dom;
pub mod html_parser;
pub mod js_renderer;
pub mod markdown_converter;
pub mod optimized_converter;
pub mod parallel_processor;
pub mod text;

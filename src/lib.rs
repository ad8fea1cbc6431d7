//! Visitor-style passes over a rich-text document tree: an image reference
//! collector, an image reference rewriter and a bounded description writer.
pub mod ast;
pub mod description_writer;
pub mod image_url_collector;
pub mod converter;

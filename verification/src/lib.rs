//! Page-level operations on PDF documents held as object graphs.
//!
//! A document is a map from object identifiers to values that may refer to
//! one another by identifier. The operations offered here select the part of
//! such a graph that a set of pages reaches, copy it into another document
//! under new identifiers, redirect every copied reference, and rebuild the
//! page tree around the result.

pub mod closure;
pub mod deep_copy;
pub mod document;
pub mod error;
pub mod extractor;
pub mod laws;
pub mod merger;
pub mod names;
pub mod object;
pub mod page_tree;
pub mod parser;
pub mod pages;
pub mod refs;
pub mod remover;
pub mod rewrite;
pub mod rotator;
pub mod splitter;
pub mod text;
pub mod transplant;
pub mod tree_laws;

pub use deep_copy::manual_deep_copy;
pub use extractor::extract_pdf_page;
pub use merger::merge_pdfs;
pub use parser::{decode_pdf_string, decode_pdfdoc_encoding, parse_pdf};
pub use refs::find_references_recursive;
pub use remover::delete_pages;
pub use rewrite::update_references_recursive;
pub use rotator::rotate_pdf;
pub use splitter::split_pdf;

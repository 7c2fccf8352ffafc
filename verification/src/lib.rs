//! Converts a static HTML site tree into original pages (with optional
//! inlined stylesheets and an AMP discovery link) and AMP-compliant
//! variants (scripts stripped, images rewritten, boilerplate injected,
//! CSS aggregated into a single `style amp-custom` block).
//!
//! The document model is a flat token stream: each HTML file is split
//! into tags, text and other markup, the rewrite passes transform the
//! token sequence, and serialization concatenates the tokens' bytes.

pub mod amp;
pub mod laws;
pub mod minify;
pub mod original;
pub mod resolve;
pub mod tok;
pub mod tokenizer;
pub mod urls;

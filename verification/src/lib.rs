//! A best-effort lexical scanner for markup text.
//!
//! The scanner walks a document, locates every `<...>` span, classifies it as
//! an opening, closing or self-closing tag, and decomposes the interior into a
//! tag name and an attribute mapping.  It never builds a tree and never stops
//! on a malformed span: unparsable spans are counted and carried in the report.

pub mod text;
pub mod attrs;
pub mod tag;
pub mod scanner;

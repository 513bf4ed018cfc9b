//! A verified HTTP/1.1 request parser.
//!
//! The parser decomposes a fully-read request buffer into method, path,
//! version, headers and an optional body.  Every parsed field is a view
//! (a byte range) into the original buffer; nothing is copied.

pub mod scan;
pub mod parser;
pub mod laws;

//! A lexical scanner for a Rust-like source language.
//!
//! The scanner turns raw source text into a flat stream of classified
//! tokens that exactly covers the text, validates the delimiter structure
//! of raw string literals, and decodes the escape sequences inside quoted
//! literals into the values they represent.  Every routine carries a
//! contract equating it with a functional model of the scan, and the laws
//! of the model (coverage, raw-delimiter bounds, round trips) are proved
//! alongside it.
//!
//! Token lengths and all reported offsets are byte offsets into the UTF-8
//! form of the input, while the scan itself walks characters; the `text`
//! module ties the two views together.

pub mod char_cursor;
pub mod core_str;
pub mod cursor;
pub mod errors;
pub mod literal_kind;
pub mod simple;
pub mod text;
pub mod token;
pub mod token_kind;
pub mod tokenize;
pub mod unescape;
pub mod unicode;

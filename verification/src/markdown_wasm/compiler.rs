//! A second, finer-grained markdown front end: a line classifier, an inline
//! parser for bold, italic, strike-through, code, links and images, and the
//! block-level syntax tree they feed.
pub mod block_parser;
pub mod common;
pub mod inline_parser;
pub mod line_scanner;
pub mod md2html;

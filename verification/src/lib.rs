//! A library to parse and translate context diff files.
//!
//! It provides a parser for context diff files, a segmenter to split context diff hunks into
//! segments of changes and of context lines, and a translator of context diffs into unified
//! diffs.
pub mod parser;
pub mod specification;
pub mod text;
pub mod translator;

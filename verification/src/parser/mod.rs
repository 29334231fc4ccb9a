//! Parser to parse context diffs.
//! Includes a `segmenter` module to split context diff hunks into segments,
//! with each segment being either a pair of changes or context lines.
pub mod error;
pub mod iterator;

pub use self::error::ParserError;
pub use self::error::ParserErrorKind;
pub use self::error::Result;
pub use self::iterator::LineIterator;
#[allow(clippy::module_inception)]
pub mod parser;
pub mod segmenter;

pub use self::parser::parse_checked;
pub use self::parser::parse_from_str;

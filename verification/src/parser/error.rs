//! The errors of the parser, and what contracts say of them.
use vstd::prelude::*;

use crate::specification::{TimestampFailure, TimestampParseError};

verus! {

/// An error during parsing, at the given line and column.
#[derive(Debug)]
pub struct ParserError {
    pub kind: ParserErrorKind,
    pub line: u64,
    pub column: u64,
}

/// The errors that could occur during parsing.
#[derive(Debug)]
pub enum ParserErrorKind {
    UnexpectedEOF,
    UnexpectedEOL,
    ExpectedFileHeaderPrefix,
    ExpectedTabInFileHeaderPrefix,
    EmptyFileNameInHeader,
    ExpectedHunkSeparator,
    ExpectedHunkPrefix,
    ExpectedHunkSuffix,
    InvalidHunkLineNumber(std::num::ParseIntError),
    HunkStartLineAfterEndLine,
    HunkHeaderAndLinesMismatch { expected: u64, found: u64 },
    InvalidLineIndicator(char),
    ExpectedSpaceAfterIndicator,
    TimestampParseError(TimestampParseError),
}

pub type Result<T> = core::result::Result<T, ParserError>;

/// The kind of a parse failure, without the reports of std and chrono. `Abort` stands for
/// no error value: it marks the inputs on which the computation stops with a panic.
pub enum FailureKind {
    UnexpectedEOF,
    UnexpectedEOL,
    ExpectedFileHeaderPrefix,
    ExpectedTabInFileHeaderPrefix,
    EmptyFileNameInHeader,
    ExpectedHunkSeparator,
    ExpectedHunkPrefix,
    ExpectedHunkSuffix,
    InvalidHunkLineNumber,
    HunkStartLineAfterEndLine,
    HunkHeaderAndLinesMismatch { expected: u64, found: u64 },
    InvalidLineIndicator(char),
    ExpectedSpaceAfterIndicator,
    TimestampParseError(TimestampFailure),
    Abort,
}

/// A parse failure: its kind and where it happened.
pub struct Failure {
    pub kind: FailureKind,
    pub line: u64,
    pub column: u64,
}

impl View for ParserErrorKind {
    type V = FailureKind;

    open spec fn view(&self) -> FailureKind {
        match self {
            ParserErrorKind::UnexpectedEOF => FailureKind::UnexpectedEOF,
            ParserErrorKind::UnexpectedEOL => FailureKind::UnexpectedEOL,
            ParserErrorKind::ExpectedFileHeaderPrefix => FailureKind::ExpectedFileHeaderPrefix,
            ParserErrorKind::ExpectedTabInFileHeaderPrefix => FailureKind::ExpectedTabInFileHeaderPrefix,
            ParserErrorKind::EmptyFileNameInHeader => FailureKind::EmptyFileNameInHeader,
            ParserErrorKind::ExpectedHunkSeparator => FailureKind::ExpectedHunkSeparator,
            ParserErrorKind::ExpectedHunkPrefix => FailureKind::ExpectedHunkPrefix,
            ParserErrorKind::ExpectedHunkSuffix => FailureKind::ExpectedHunkSuffix,
            ParserErrorKind::InvalidHunkLineNumber(_) => FailureKind::InvalidHunkLineNumber,
            ParserErrorKind::HunkStartLineAfterEndLine => FailureKind::HunkStartLineAfterEndLine,
            ParserErrorKind::HunkHeaderAndLinesMismatch { expected, found } => {
                FailureKind::HunkHeaderAndLinesMismatch { expected: *expected, found: *found }
            },
            ParserErrorKind::InvalidLineIndicator(c) => FailureKind::InvalidLineIndicator(*c),
            ParserErrorKind::ExpectedSpaceAfterIndicator => FailureKind::ExpectedSpaceAfterIndicator,
            ParserErrorKind::TimestampParseError(e) => FailureKind::TimestampParseError(e@),
        }
    }
}

impl View for ParserError {
    type V = Failure;

    open spec fn view(&self) -> Failure {
        Failure { kind: self.kind@, line: self.line, column: self.column }
    }
}

impl ParserError {
    /// Creates a new `ParserError`.
    pub fn new(line: u64, column: u64, kind: ParserErrorKind) -> (r: ParserError)
        ensures
            r == (ParserError { kind, line, column }),
    {
        ParserError { kind, line, column }
    }

    /// Creates a new `ParserError::UnexpectedEOF`.
    pub fn unexpected_eof(line: u64) -> (r: ParserError)
        ensures
            r == (ParserError { kind: ParserErrorKind::UnexpectedEOF, line, column: 0 }),
    {
        ParserError { kind: ParserErrorKind::UnexpectedEOF, line, column: 0 }
    }
}


impl From<TimestampParseError> for ParserErrorKind {
    fn from(e: TimestampParseError) -> (r: ParserErrorKind) {
        ParserErrorKind::TimestampParseError(e)
    }
}

impl vstd::std_specs::convert::FromSpecImpl<TimestampParseError> for ParserErrorKind {
    open spec fn obeys_from_spec() -> bool {
        true
    }

    open spec fn from_spec(e: TimestampParseError) -> ParserErrorKind {
        ParserErrorKind::TimestampParseError(e)
    }
}

} // verus!

//! Errors raised while reading the text formats.

use vstd::prelude::*;

verus! {

/// Why a file could not be read as a graph. Errors of the underlying file
/// access are reported by the caller that reads the file.
#[derive(Debug)]
pub enum ParseError {
    /// A line that does not have the expected shape (the line as read).
    BadLine(String),
    /// The file holds nothing but blank and comment lines.
    EmptyBody,
    /// The file ended before the announced number of entries.
    TooShort { expected: usize, got: usize },
    /// A line that refers to something the file does not define.
    Inconsistent { reason: String, line: String },
}

/// The mathematical content of a `ParseError`, with its texts as characters.
pub enum SpecParseError {
    BadLine(Seq<char>),
    EmptyBody,
    TooShort { expected: usize, got: usize },
    Inconsistent { reason: Seq<char>, line: Seq<char> },
}

impl View for ParseError {
    type V = SpecParseError;

    open spec fn view(&self) -> SpecParseError {
        match self {
            ParseError::BadLine(l) => SpecParseError::BadLine(l@),
            ParseError::EmptyBody => SpecParseError::EmptyBody,
            ParseError::TooShort { expected, got } => SpecParseError::TooShort {
                expected: *expected,
                got: *got,
            },
            ParseError::Inconsistent { reason, line } => SpecParseError::Inconsistent {
                reason: reason@,
                line: line@,
            },
        }
    }
}

} // verus!

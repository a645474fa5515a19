//! Matrix Market reading for graph construction: the size line and the list
//! of entries.

use vstd::prelude::*;
use vstd::utf8::*;

use crate::parser::{lemma_mtx_never_inconsistent, read_mtx, spec_parse_mtx, MtxData, SpecParseError};

verus! {

/// The three numbers of a Matrix Market size line.
#[derive(Debug, Clone, Copy)]
pub struct MtxMetadata {
    pub nrows: usize,
    pub ncols: usize,
    pub nnz: usize,
}

impl MtxMetadata {
    pub fn new(nrows: usize, ncols: usize, nnz: usize) -> (r: Self)
        ensures
            r.nrows == nrows,
            r.ncols == ncols,
            r.nnz == nnz,
    {
        Self { nrows, ncols, nnz }
    }
}

/// Why a Matrix Market text could not be read. Errors of the underlying
/// file access are reported by the caller that reads the file.
#[derive(Debug)]
pub enum ParseError {
    BadLine(String),
    EmptyBody,
    TooShort { expected: usize, got: usize },
}

impl View for ParseError {
    type V = SpecParseError;

    open spec fn view(&self) -> SpecParseError {
        match self {
            ParseError::BadLine(l) => SpecParseError::BadLine(l@),
            ParseError::EmptyBody => SpecParseError::EmptyBody,
            ParseError::TooShort { expected, got } => SpecParseError::TooShort {
                expected: *expected,
                got: *got,
            },
        }
    }
}

/// The pair that `Parser::parse_mtx` gives for what a text describes.
pub open spec fn mtx_pair_view(m: MtxMetadata, edges: Seq<(usize, usize)>) -> MtxData {
    MtxData { edges, nrows: m.nrows, ncols: m.ncols, nnz: m.nnz }
}

pub struct Parser;

impl Parser {
    /// Reads a Matrix Market text; `None` when an entry names index 0.
    pub fn try_parse_mtx(content: &str) -> (r: Option<Result<(MtxMetadata, Vec<(usize, usize)>), ParseError>>)
        ensures
            match r {
                None => spec_parse_mtx(encode_utf8(content@), false) is None,
                Some(Ok((m, edges))) => spec_parse_mtx(encode_utf8(content@), false) == Some(
                    Ok::<MtxData, SpecParseError>(mtx_pair_view(m, edges@)),
                ),
                Some(Err(x)) => spec_parse_mtx(encode_utf8(content@), false) == Some(
                    Err::<MtxData, SpecParseError>(x@),
                ),
            },
    {
        match read_mtx(content, false) {
            None => None,
            Some(Ok(g)) => Some(Ok((MtxMetadata::new(g.nrows, g.ncols, g.nnz), g.edges))),
            Some(Err(crate::parser::ParseError::BadLine(l))) => Some(Err(ParseError::BadLine(l))),
            Some(Err(crate::parser::ParseError::EmptyBody)) => Some(Err(ParseError::EmptyBody)),
            Some(Err(crate::parser::ParseError::TooShort { expected, got })) => Some(
                Err(ParseError::TooShort { expected, got }),
            ),
            Some(Err(crate::parser::ParseError::Inconsistent { .. })) => {
                proof {
                    lemma_mtx_never_inconsistent(encode_utf8(content@), false);
                }
                None
            },
        }
    }

    /// Reads a Matrix Market text: the `%` header, the size line, then
    /// `nnz` lines `src dst` of 1-based indices, turned 0-based.
    pub fn parse_mtx(content: &str) -> (r: Result<(MtxMetadata, Vec<(usize, usize)>), ParseError>)
        requires
            spec_parse_mtx(encode_utf8(content@), false) is Some,
        ensures
            match r {
                Ok((m, edges)) => spec_parse_mtx(encode_utf8(content@), false) == Some(
                    Ok::<MtxData, SpecParseError>(mtx_pair_view(m, edges@)),
                ),
                Err(x) => spec_parse_mtx(encode_utf8(content@), false) == Some(
                    Err::<MtxData, SpecParseError>(x@),
                ),
            },
    {
        match Parser::try_parse_mtx(content) {
            Some(r) => r,
            None => Err(ParseError::EmptyBody),
        }
    }
}

} // verus!

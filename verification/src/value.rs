//! The values that properties take, the context they are parsed in, and
//! the failures that parsing reports.

use vstd::prelude::*;
use crate::keyword::KeywordValue;
use crate::number::Decimal;

verus! {

/// The surroundings in which style text is parsed. The parsers of this
/// library consult nothing of it: it is handed through, so that every
/// parser has the same shape.
#[derive(Clone, Copy, Debug, PartialEq, Eq, Structural, Default)]
pub struct ParserContext {}

/// The shape of value that a parser asked for.
#[derive(Clone, Copy, Debug, PartialEq, Eq, Structural)]
pub enum Expected {
    Keyword,
    Number,
    Integer,
}

/// A parse failure as a mathematical value.
pub enum ParseFailure {
    EndOfInput(Expected),
    UnexpectedToken(Expected),
    UnknownKeyword(Seq<char>),
    RangeViolation,
}

/// Why a value could not be parsed. The caller recovers from it.
#[derive(Debug, PartialEq, Eq)]
pub enum ParseError {
    /// The input ended where a value of this shape was expected.
    EndOfInput(Expected),
    /// A token of another kind stood where this shape was expected.
    UnexpectedToken(Expected),
    /// An identifier that is no keyword of the property; it is named.
    UnknownKeyword(String),
    /// A number outside the range that the parser admits.
    RangeViolation,
}

impl View for ParseError {
    type V = ParseFailure;

    open spec fn view(&self) -> ParseFailure {
        match self {
            ParseError::EndOfInput(e) => ParseFailure::EndOfInput(*e),
            ParseError::UnexpectedToken(e) => ParseFailure::UnexpectedToken(*e),
            ParseError::UnknownKeyword(s) => ParseFailure::UnknownKeyword(s@),
            ParseError::RangeViolation => ParseFailure::RangeViolation,
        }
    }
}

/// The value of a property as it was declared in style text.
#[derive(Clone, Copy, Debug, PartialEq, Eq, Structural)]
pub enum SpecifiedValue {
    Keyword(KeywordValue),
    Number(Decimal),
    Integer(i32),
}

/// The outcome `r` of a parser is the outcome `m` that its specification gives.
pub open spec fn agrees<T>(r: Result<T, ParseError>, m: Result<T, ParseFailure>) -> bool {
    match r {
        Ok(v) => m == Result::<T, ParseFailure>::Ok(v),
        Err(e) => m == Result::<T, ParseFailure>::Err(e@),
    }
}

} // verus!

//! The error taxonomy of a parse, with byte offsets for diagnostics.

use vstd::prelude::*;

verus! {

/// A structured parse failure.
///
/// Every variant that points at the input carries the byte offset of the
/// offending character, so callers can surface precise diagnostics. Overflow
/// and underflow at the numeric extremes are not errors: they saturate.
#[derive(Debug, Clone, PartialEq, Eq)]
pub enum ParseError {
    /// The input was empty.
    EmptyInput,
    /// The digit, decimal point or exponent grammar was violated at `offset`.
    InvalidNumber { offset: usize },
    /// The bytes `text` following the number at `offset` matched no entry of
    /// the unit table.
    UnknownUnit { offset: usize, text: Vec<u8> },
    /// Bytes followed a complete number at `offset`, but the unit table is
    /// empty so no suffix was expected.
    TrailingCharacters { offset: usize },
    /// The literal began with a minus sign at `offset`: durations are
    /// non-negative.
    NegativeValue { offset: usize },
}

/// The mathematical shape of a [`ParseError`], with unbounded offsets and the
/// offending suffix as a byte sequence.
pub enum ParseErrorView {
    EmptyInput,
    InvalidNumber { offset: int },
    UnknownUnit { offset: int, text: Seq<u8> },
    TrailingCharacters { offset: int },
    NegativeValue { offset: int },
}

impl View for ParseError {
    type V = ParseErrorView;

    open spec fn view(&self) -> ParseErrorView {
        match self {
            ParseError::EmptyInput => ParseErrorView::EmptyInput,
            ParseError::InvalidNumber { offset } => ParseErrorView::InvalidNumber {
                offset: *offset as int,
            },
            ParseError::UnknownUnit { offset, text } => ParseErrorView::UnknownUnit {
                offset: *offset as int,
                text: text@,
            },
            ParseError::TrailingCharacters { offset } => ParseErrorView::TrailingCharacters {
                offset: *offset as int,
            },
            ParseError::NegativeValue { offset } => ParseErrorView::NegativeValue {
                offset: *offset as int,
            },
        }
    }
}

} // verus!

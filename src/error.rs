//! Errors of the parser.

use vstd::prelude::*;

verus! {

/// What the parser looked for where it failed.
#[derive(Debug, Clone, Copy, PartialEq, Eq, Structural)]
pub enum Expected {
    OpenBrace,
    CloseBrace,
    CloseBracket,
    Equals,
    Value,
    Digit,
}

#[derive(Debug, Clone, Copy, PartialEq, Eq, Structural)]
pub enum ParseErrorKind {
    /// A delimiter, keyword or lexeme was missing.
    Syntax(Expected),
    /// A number literal outside the range of 64-bit integers, or of 64-bit
    /// floats.
    NumberFormat,
    /// A string or a comment is opened and never closed.
    UnterminatedLiteral,
    /// Arrays and objects nest deeper than the parse allows.
    TooDeep,
}

/// A parse failure, with the character position where it was found.
#[derive(Debug, Clone, Copy, PartialEq, Eq, Structural)]
pub struct ParseError {
    pub kind: ParseErrorKind,
    pub position: usize,
}

pub open spec fn syntax_error(i: int, what: Expected) -> ParseError {
    ParseError { kind: ParseErrorKind::Syntax(what), position: i as usize }
}

pub open spec fn unterminated(i: int) -> ParseError {
    ParseError { kind: ParseErrorKind::UnterminatedLiteral, position: i as usize }
}

pub open spec fn too_deep(i: int) -> ParseError {
    ParseError { kind: ParseErrorKind::TooDeep, position: i as usize }
}

pub open spec fn number_format(i: int) -> ParseError {
    ParseError { kind: ParseErrorKind::NumberFormat, position: i as usize }
}

pub open spec fn pos_result(r: Result<usize, ParseError>) -> Result<int, ParseError> {
    match r {
        Ok(j) => Ok(j as int),
        Err(e) => Err(e),
    }
}

} // verus!

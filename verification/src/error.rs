//! The failures of parsing.
use vstd::prelude::*;

verus! {

/// Why a text is not a JSON document, as a mathematical value.
pub ghost enum Failure {
    MalformedValue(Seq<char>),
    MalformedObject(Seq<char>),
    MalformedArray(int, Box<Failure>),
    UnterminatedString,
    UnterminatedContainer,
    RootNotObject,
    NestingTooDeep,
}

/// Why a text is not a JSON document.
#[derive(Debug, PartialEq, Eq)]
pub enum ParseError {
    /// The span is no literal, string, number, object or array.
    MalformedValue(String),
    /// The member of an object has no colon outside strings and brackets, no
    /// string for its key, or nothing for its value.
    MalformedObject(String),
    /// The element at this position of an array failed for the given cause.
    MalformedArray(usize, Box<ParseError>),
    /// A string literal is still open where the span ends.
    UnterminatedString,
    /// A bracket is still open where the span ends.
    UnterminatedContainer,
    /// The document is not an object where one was asked for.
    RootNotObject,
    /// Objects and arrays are nested more deeply than the limit allows.
    NestingTooDeep,
}

impl View for ParseError {
    type V = Failure;

    open spec fn view(&self) -> Failure
        decreases self,
    {
        match self {
            ParseError::MalformedValue(s) => Failure::MalformedValue(s@),
            ParseError::MalformedObject(s) => Failure::MalformedObject(s@),
            ParseError::MalformedArray(i, cause) => Failure::MalformedArray(
                *i as int,
                Box::new((**cause).view()),
            ),
            ParseError::UnterminatedString => Failure::UnterminatedString,
            ParseError::UnterminatedContainer => Failure::UnterminatedContainer,
            ParseError::RootNotObject => Failure::RootNotObject,
            ParseError::NestingTooDeep => Failure::NestingTooDeep,
        }
    }
}

} // verus!

//! A parser for JSON documents, verified with Verus.
//!
//! A text is read into a tree of values by dispatching on the form of each
//! span and splitting objects and arrays at the separators that stand
//! outside strings and brackets. `grammar` says what every text means,
//! `dispatch` computes it, and `laws` holds what follows for every text.
use vstd::prelude::*;

pub mod compose;
pub mod dispatch;
pub mod error;
pub mod grammar;
pub mod laws;
pub mod number;
pub mod scan;
pub mod strings;
pub mod structure;
pub mod text;
pub mod value;

pub use crate::error::ParseError;
pub use crate::value::{JsonNumber, JsonObject, JsonValue};

use crate::dispatch::{json_get_value, object_outcome, outcome};
use crate::grammar::{document_of, object_document_of};
use crate::text::chars_of;

verus! {

/// How deeply objects and arrays may be nested where no other limit is given.
pub const DEFAULT_MAX_DEPTH: usize = 128;

/// The value that `text` writes, with objects and arrays nested at most
/// `max_depth` deep. Whitespace around the document does not count.
pub fn parse_with_max_depth(text: &str, max_depth: usize) -> (r: Result<JsonValue, ParseError>)
    ensures
        outcome(r) == document_of(text@, max_depth as nat),
{
    let chars = chars_of(text);
    json_get_value(chars.as_slice(), max_depth)
}

/// The value that `text` writes, with objects and arrays nested at most
/// `DEFAULT_MAX_DEPTH` deep.
pub fn parse(text: &str) -> (r: Result<JsonValue, ParseError>)
    ensures
        outcome(r) == document_of(text@, DEFAULT_MAX_DEPTH as nat),
{
    parse_with_max_depth(text, DEFAULT_MAX_DEPTH)
}

/// The members of the object that `text` writes. A text that writes another
/// kind of value is rejected with `RootNotObject`.
pub fn parse_as_object(text: &str) -> (r: Result<JsonObject, ParseError>)
    ensures
        object_outcome(r) == object_document_of(text@, DEFAULT_MAX_DEPTH as nat),
{
    match parse(text) {
        Ok(JsonValue::Object(object)) => Ok(object),
        Ok(_) => Err(ParseError::RootNotObject),
        Err(e) => Err(e),
    }
}

/// The members of the object that `text` writes, as `parse_as_object` gives
/// them.
pub fn json_scan(text: &str) -> (r: Result<JsonObject, ParseError>)
    ensures
        object_outcome(r) == object_document_of(text@, DEFAULT_MAX_DEPTH as nat),
{
    parse_as_object(text)
}

} // verus!

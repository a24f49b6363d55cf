//! What every text means: the value that it writes, or the failure. These
//! definitions are what the functions of `dispatch` are proved against.
use vstd::prelude::*;
use crate::error::Failure;
use crate::number::is_number;
use crate::scan::{end_state, first_split, split_top};
use crate::strings::string_value;
use crate::text::trimmed;
use crate::value::Json;

verus! {

/// The literal `null`.
pub open spec fn word_null() -> Seq<char> {
    seq!['n', 'u', 'l', 'l']
}

/// The literal `true`.
pub open spec fn word_true() -> Seq<char> {
    seq!['t', 'r', 'u', 'e']
}

/// The literal `false`.
pub open spec fn word_false() -> Seq<char> {
    seq!['f', 'a', 'l', 's', 'e']
}

/// Whether `span` opens with `open` and closes with `close`.
pub open spec fn enclosed(span: Seq<char>, open: char, close: char) -> bool {
    span.len() >= 2 && span.first() == open && span.last() == close
}

/// What stands between the first and the last character of `span`.
pub open spec fn inner(span: Seq<char>) -> Seq<char> {
    span.subrange(1, span.len() - 1)
}

/// Why a span that has none of the forms of a value is rejected: a string
/// literal or a bracket that is still open where the span ends is reported
/// as such, the string first; any other span is reported with its text.
pub open spec fn failure_of(span: Seq<char>) -> Failure {
    let end = end_state(span);
    if end.in_string {
        Failure::UnterminatedString
    } else if end.depth > 0 {
        Failure::UnterminatedContainer
    } else {
        Failure::MalformedValue(span)
    }
}

/// The forms that a span can have.
pub ghost enum Form {
    Null,
    True,
    False,
    Text,
    Object,
    Array,
    Number,
    Malformed,
}

/// The form of a span: the first that fits, tried in the order of the
/// variants. A string is a string whatever its text looks like, and a span
/// in brackets is an object or an array whatever stands between them.
pub open spec fn form_of(span: Seq<char>) -> Form {
    if span == word_null() {
        Form::Null
    } else if span == word_true() {
        Form::True
    } else if span == word_false() {
        Form::False
    } else if string_value(span) is Some {
        Form::Text
    } else if enclosed(span, '{', '}') {
        Form::Object
    } else if enclosed(span, '[', ']') {
        Form::Array
    } else if is_number(span) {
        Form::Number
    } else {
        Form::Malformed
    }
}

/// The value that a span without whitespace around it writes, or why it
/// writes none. `budget` is the number of levels of objects and arrays that
/// the span may still open: with none left, an object or an array fails for
/// the limit, whatever it holds.
pub open spec fn value_of(span: Seq<char>, budget: nat) -> Result<Json, Failure>
    decreases budget, 0nat, 0nat,
{
    match form_of(span) {
        Form::Null => Ok(Json::Null),
        Form::True => Ok(Json::Bool(true)),
        Form::False => Ok(Json::Bool(false)),
        Form::Text => Ok(Json::String(string_value(span)->0)),
        Form::Object => if budget == 0 {
            Err(Failure::NestingTooDeep)
        } else {
            object_of(inner(span), (budget - 1) as nat)
        },
        Form::Array => if budget == 0 {
            Err(Failure::NestingTooDeep)
        } else {
            array_of(inner(span), (budget - 1) as nat)
        },
        Form::Number => Ok(Json::Number(span)),
        Form::Malformed => Err(failure_of(span)),
    }
}

/// The key and the value that one member of an object writes. The member is
/// split at its first colon outside strings and brackets; whitespace around
/// either part does not count. The member is malformed where it has no such
/// colon, where the key is no string, and where nothing stands for the
/// value; a value that fails gives its own failure.
pub open spec fn member_of(part: Seq<char>, budget: nat) -> Result<(Seq<char>, Json), Failure>
    decreases budget, 1nat, 0nat,
{
    match first_split(part, ':') {
        None => Err(Failure::MalformedObject(trimmed(part))),
        Some(colon) => {
            let key = string_value(trimmed(part.subrange(0, colon)));
            let value_text = trimmed(part.subrange(colon + 1, part.len() as int));
            if key is None || value_text.len() == 0 {
                Err(Failure::MalformedObject(trimmed(part)))
            } else {
                match value_of(value_text, budget) {
                    Ok(v) => Ok((key->0, v)),
                    Err(e) => Err(e),
                }
            }
        },
    }
}

/// The map that the first `n` members make, read from left to right: a
/// later member replaces an earlier one with the same key, and the first
/// member that fails decides the failure.
pub open spec fn members_of(parts: Seq<Seq<char>>, n: nat, budget: nat) -> Result<
    Map<Seq<char>, Json>,
    Failure,
>
    decreases budget, 2nat, n,
{
    if n == 0 || n > parts.len() {
        Ok(Map::empty())
    } else {
        match members_of(parts, (n - 1) as nat, budget) {
            Err(e) => Err(e),
            Ok(m) => match member_of(parts[n - 1], budget) {
                Ok((k, v)) => Ok(m.insert(k, v)),
                Err(e) => Err(e),
            },
        }
    }
}

/// The values that the first `n` elements write, in order. The first element
/// that fails decides the failure, which names its position.
pub open spec fn items_of(parts: Seq<Seq<char>>, n: nat, budget: nat) -> Result<
    Seq<Json>,
    Failure,
>
    decreases budget, 2nat, n,
{
    if n == 0 || n > parts.len() {
        Ok(Seq::empty())
    } else {
        match items_of(parts, (n - 1) as nat, budget) {
            Err(e) => Err(e),
            Ok(items) => match value_of(trimmed(parts[n - 1]), budget) {
                Ok(v) => Ok(items.push(v)),
                Err(e) => Err(Failure::MalformedArray(n - 1, Box::new(e))),
            },
        }
    }
}

/// The object that is written between a pair of braces: nothing but
/// whitespace writes the empty object, anything else is split into members
/// at the commas outside strings and brackets.
pub open spec fn object_of(inner: Seq<char>, budget: nat) -> Result<Json, Failure>
    decreases budget, 3nat, 0nat,
{
    if trimmed(inner).len() == 0 {
        Ok(Json::Object(Map::empty()))
    } else {
        let parts = split_top(inner, ',');
        match members_of(parts, parts.len(), budget) {
            Ok(m) => Ok(Json::Object(m)),
            Err(e) => Err(e),
        }
    }
}

/// The array that is written between a pair of square brackets: nothing but
/// whitespace writes the empty array, anything else is split into elements
/// at the commas outside strings and brackets.
pub open spec fn array_of(inner: Seq<char>, budget: nat) -> Result<Json, Failure>
    decreases budget, 3nat, 0nat,
{
    if trimmed(inner).len() == 0 {
        Ok(Json::Array(Seq::empty()))
    } else {
        let parts = split_top(inner, ',');
        match items_of(parts, parts.len(), budget) {
            Ok(items) => Ok(Json::Array(items)),
            Err(e) => Err(e),
        }
    }
}

/// The value that a text writes, whitespace around it not counting, with
/// objects and arrays nested at most `max_depth` deep.
pub open spec fn document_of(text: Seq<char>, max_depth: nat) -> Result<Json, Failure> {
    value_of(trimmed(text), max_depth)
}

/// The members of the object that a text writes. A text that writes another
/// kind of value is rejected.
pub open spec fn object_document_of(text: Seq<char>, max_depth: nat) -> Result<
    Map<Seq<char>, Json>,
    Failure,
> {
    match document_of(text, max_depth) {
        Ok(Json::Object(m)) => Ok(m),
        Ok(_) => Err(Failure::RootNotObject),
        Err(e) => Err(e),
    }
}

/// Once a member has failed, the failure stays whatever follows.
pub(crate) proof fn lemma_members_failure_stays(parts: Seq<Seq<char>>, n: nat, m: nat, budget: nat)
    requires
        n <= m <= parts.len(),
        members_of(parts, n, budget) is Err,
    ensures
        members_of(parts, m, budget) == members_of(parts, n, budget),
    decreases m,
{
    if n < m {
        lemma_members_failure_stays(parts, n, (m - 1) as nat, budget);
    }
}

/// Once an element has failed, the failure stays whatever follows.
pub(crate) proof fn lemma_items_failure_stays(parts: Seq<Seq<char>>, n: nat, m: nat, budget: nat)
    requires
        n <= m <= parts.len(),
        items_of(parts, n, budget) is Err,
    ensures
        items_of(parts, m, budget) == items_of(parts, n, budget),
    decreases m,
{
    if n < m {
        lemma_items_failure_stays(parts, n, (m - 1) as nat, budget);
    }
}

} // verus!

//! The value dispatcher and the two decomposers: the functions that compute
//! what `grammar` defines.
use vstd::prelude::*;
use crate::error::{Failure, ParseError};
use crate::grammar::{
    array_of, enclosed, failure_of, items_of, lemma_items_failure_stays,
    lemma_members_failure_stays, member_of, members_of, object_of, value_of, word_false,
    word_null, word_true,
};
use crate::scan::{find_split, scan, spans, split_top, split_top_level};
use crate::strings::read_string;
use crate::text::{text_of, trim, trimmed, trimmed_is_idempotent};
use crate::value::{views_of, Json, JsonNumber, JsonObject, JsonValue};

verus! {

/// What a result stands for: the value of the document, or the failure.
pub open spec fn outcome(r: Result<JsonValue, ParseError>) -> Result<Json, Failure> {
    match r {
        Ok(v) => Ok(v@),
        Err(e) => Err(e@),
    }
}

/// What the result for one member stands for.
pub open spec fn member_outcome(r: Result<(String, JsonValue), ParseError>) -> Result<
    (Seq<char>, Json),
    Failure,
> {
    match r {
        Ok((k, v)) => Ok((k@, v@)),
        Err(e) => Err(e@),
    }
}

/// What a result that holds the members of an object stands for.
pub open spec fn object_outcome(r: Result<JsonObject, ParseError>) -> Result<
    Map<Seq<char>, Json>,
    Failure,
> {
    match r {
        Ok(o) => Ok(o@),
        Err(e) => Err(e@),
    }
}

fn is_word_null(span: &[char]) -> (r: bool)
    ensures
        r == (span@ == word_null()),
{
    let r = span.len() == 4 && span[0] == 'n' && span[1] == 'u' && span[2] == 'l' && span[3]
        == 'l';
    proof {
        if r {
            assert(span@ =~= word_null());
        }
    }
    r
}

fn is_word_true(span: &[char]) -> (r: bool)
    ensures
        r == (span@ == word_true()),
{
    let r = span.len() == 4 && span[0] == 't' && span[1] == 'r' && span[2] == 'u' && span[3]
        == 'e';
    proof {
        if r {
            assert(span@ =~= word_true());
        }
    }
    r
}

fn is_word_false(span: &[char]) -> (r: bool)
    ensures
        r == (span@ == word_false()),
{
    let r = span.len() == 5 && span[0] == 'f' && span[1] == 'a' && span[2] == 'l' && span[3]
        == 's' && span[4] == 'e';
    proof {
        if r {
            assert(span@ =~= word_false());
        }
    }
    r
}

fn is_enclosed(span: &[char], open: char, close: char) -> (r: bool)
    ensures
        r == enclosed(span@, open, close),
{
    let n = span.len();
    n >= 2 && span[0] == open && span[n - 1] == close
}

/// Why a span that has none of the forms of a value is rejected.
pub fn classify_failure(span: &[char]) -> (r: ParseError)
    ensures
        r@ == failure_of(span@),
{
    let end = scan(span);
    if end.in_string {
        ParseError::UnterminatedString
    } else if end.depth > 0 {
        ParseError::UnterminatedContainer
    } else {
        ParseError::MalformedValue(text_of(span))
    }
}

/// The value that a span writes, whitespace around it not counting: a
/// literal, a string, an object, an array or a number, tried in this order.
/// `budget` is the number of levels of objects and arrays that the span may
/// open.
pub fn json_get_value(text: &[char], budget: usize) -> (r: Result<JsonValue, ParseError>)
    ensures
        outcome(r) == value_of(trimmed(text@), budget as nat),
    decreases budget, 0nat,
{
    let span = trim(text);
    if is_word_null(span) {
        return Ok(JsonValue::Null);
    }
    if is_word_true(span) {
        return Ok(JsonValue::Bool(true));
    }
    if is_word_false(span) {
        return Ok(JsonValue::Bool(false));
    }
    if let Some(text) = read_string(span) {
        return Ok(JsonValue::String(text));
    }
    if is_enclosed(span, '{', '}') {
        if budget == 0 {
            return Err(ParseError::NestingTooDeep);
        }
        let content = vstd::slice::slice_subrange(span, 1, span.len() - 1);
        return parse_object(content, budget - 1);
    }
    if is_enclosed(span, '[', ']') {
        if budget == 0 {
            return Err(ParseError::NestingTooDeep);
        }
        let content = vstd::slice::slice_subrange(span, 1, span.len() - 1);
        return parse_array(content, budget - 1);
    }
    if let Some(number) = JsonNumber::from_chars(span) {
        return Ok(JsonValue::Number(number));
    }
    Err(classify_failure(span))
}

/// The key and the value that one member of an object writes.
pub fn parse_member(part: &[char], budget: usize) -> (r: Result<(String, JsonValue), ParseError>)
    ensures
        member_outcome(r) == member_of(part@, budget as nat),
    decreases budget, 1nat,
{
    let n = part.len();
    let colon = match find_split(part, ':') {
        Some(i) => i,
        None => {
            return Err(ParseError::MalformedObject(text_of(trim(part))));
        },
    };
    let key_text = trim(vstd::slice::slice_subrange(part, 0, colon));
    let value_text = trim(vstd::slice::slice_subrange(part, colon + 1, n));
    let key = match read_string(key_text) {
        Some(k) => k,
        None => {
            return Err(ParseError::MalformedObject(text_of(trim(part))));
        },
    };
    if value_text.len() == 0 {
        return Err(ParseError::MalformedObject(text_of(trim(part))));
    }
    proof {
        trimmed_is_idempotent(part@.subrange(colon + 1, n as int));
    }
    match json_get_value(value_text, budget) {
        Ok(v) => Ok((key, v)),
        Err(e) => Err(e),
    }
}

/// The object that is written between a pair of braces.
pub fn parse_object(content: &[char], budget: usize) -> (r: Result<JsonValue, ParseError>)
    ensures
        outcome(r) == object_of(content@, budget as nat),
    decreases budget, 2nat,
{
    let mut object = JsonObject::new();
    if trim(content).len() == 0 {
        return Ok(JsonValue::Object(object));
    }
    let parts = split_top_level(content, ',');
    let ghost texts = spans(parts@);
    let mut i: usize = 0;
    while i < parts.len()
        invariant
            i <= parts@.len(),
            texts == spans(parts@),
            texts == split_top(content@, ','),
            trimmed(content@).len() != 0,
            members_of(texts, i as nat, budget as nat) == Ok::<Map<Seq<char>, Json>, Failure>(
                object@,
            ),
        decreases parts@.len() - i,
    {
        match parse_member(parts[i], budget) {
            Ok((key, value)) => {
                object.insert(key, value);
            },
            Err(e) => {
                proof {
                    lemma_members_failure_stays(
                        texts,
                        (i + 1) as nat,
                        texts.len(),
                        budget as nat,
                    );
                }
                return Err(e);
            },
        }
        i += 1;
    }
    Ok(JsonValue::Object(object))
}

/// The array that is written between a pair of square brackets.
pub fn parse_array(content: &[char], budget: usize) -> (r: Result<JsonValue, ParseError>)
    ensures
        outcome(r) == array_of(content@, budget as nat),
    decreases budget, 2nat,
{
    let mut items: Vec<JsonValue> = Vec::new();
    if trim(content).len() == 0 {
        assert(views_of(items@) =~= Seq::<Json>::empty());
        return Ok(JsonValue::Array(items));
    }
    let parts = split_top_level(content, ',');
    let ghost texts = spans(parts@);
    let mut i: usize = 0;
    assert(views_of(items@) =~= Seq::<Json>::empty());
    while i < parts.len()
        invariant
            i <= parts@.len(),
            texts == spans(parts@),
            texts == split_top(content@, ','),
            trimmed(content@).len() != 0,
            items_of(texts, i as nat, budget as nat) == Ok::<Seq<Json>, Failure>(
                views_of(items@),
            ),
        decreases parts@.len() - i,
    {
        match json_get_value(parts[i], budget) {
            Ok(value) => {
                proof {
                    assert(views_of(items@.push(value)) =~= views_of(items@).push(value@));
                }
                items.push(value);
            },
            Err(e) => {
                proof {
                    lemma_items_failure_stays(texts, (i + 1) as nat, texts.len(), budget as nat);
                }
                return Err(ParseError::MalformedArray(i, Box::new(e)));
            },
        }
        i += 1;
    }
    Ok(JsonValue::Array(items))
}

} // verus!

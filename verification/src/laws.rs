//! What holds of every document: the general facts about the meaning of
//! texts, each proved from the definitions in `grammar`.
use vstd::prelude::*;
use crate::error::{Failure, ParseError};
use crate::grammar::{
    array_of, document_of, form_of, inner, items_of, member_of, members_of, object_of, value_of,
    word_false, word_null, word_true, Form,
};
use crate::dispatch::outcome;
use crate::compose::{
    array_of_joined_elements, member_of_key_and_value, object_of_joined_members, values_of,
};
use crate::structure::join;
use crate::scan::{first_split, lemma_no_split, split_top, splits_at, state_after};
use crate::strings::{lemma_string_token_scan, string_value};
use crate::text::{all_space, trim_front_keeps_back, trimmed, trimmed_skips_padding};
use crate::value::{Json, JsonValue};

verus! {

/// What the dispatcher returns is a function of the span and the budget
/// alone: two results that are both right for the same span and the same
/// budget stand for the same value, or for the same failure.
pub proof fn classification_is_a_function(
    span: Seq<char>,
    budget: nat,
    first: Result<JsonValue, ParseError>,
    second: Result<JsonValue, ParseError>,
)
    requires
        outcome(first) == value_of(trimmed(span), budget),
        outcome(second) == value_of(trimmed(span), budget),
    ensures
        first is Ok <==> second is Ok,
        first is Ok ==> first->Ok_0@ == second->Ok_0@,
        first is Err ==> first->Err_0@ == second->Err_0@,
{
}

/// Whitespace around a document does not change its value, nor its failure.
/// The same holds of every span that the dispatcher is given, whose result
/// is that of a document with the span's budget.
pub proof fn document_ignores_padding(
    before: Seq<char>,
    text: Seq<char>,
    after: Seq<char>,
    max_depth: nat,
)
    requires
        all_space(before),
        all_space(after),
    ensures
        document_of(before + text + after, max_depth) == document_of(text, max_depth),
{
    trimmed_skips_padding(before, text, after);
}

/// Whitespace around the elements of an array does not change the array:
/// elements that are the same once trimmed give the same values, and the
/// same failure.
pub proof fn elements_ignore_padding(
    parts: Seq<Seq<char>>,
    padded: Seq<Seq<char>>,
    n: nat,
    budget: nat,
)
    requires
        n <= parts.len() == padded.len(),
        forall|i: int| 0 <= i < n ==> trimmed(#[trigger] padded[i]) == trimmed(parts[i]),
    ensures
        items_of(padded, n, budget) == items_of(parts, n, budget),
    decreases n,
{
    if n > 0 {
        elements_ignore_padding(parts, padded, (n - 1) as nat, budget);
    }
}

/// Whitespace around the key, around the colon and around the value of a
/// member does not change what the member writes, where the key is a string
/// literal and something stands for the value.
pub proof fn member_ignores_padding(
    key: Seq<char>,
    value: Seq<char>,
    pads: (Seq<char>, Seq<char>, Seq<char>, Seq<char>),
    budget: nat,
)
    requires
        string_value(key) is Some,
        trimmed(value).len() > 0,
        all_space(pads.0),
        all_space(pads.1),
        all_space(pads.2),
        all_space(pads.3),
    ensures
        member_of(pads.0 + key + pads.1 + seq![':'] + (pads.2 + value + pads.3), budget)
            == member_of(key + seq![':'] + value, budget),
{
    trimmed_skips_padding(pads.0, key, pads.1);
    trimmed_skips_padding(pads.2, value, pads.3);
    lemma_string_token_value(key, ',', budget);
    member_of_key_and_value(pads.0 + key + pads.1, pads.2 + value + pads.3, budget);
    member_of_key_and_value(key, value, budget);
}

/// Members that write the same give the same object, and the same failure.
pub proof fn equal_members_equal_objects(
    first: Seq<Seq<char>>,
    second: Seq<Seq<char>>,
    n: nat,
    budget: nat,
)
    requires
        n <= first.len() == second.len(),
        forall|i: int|
            0 <= i < n ==> member_of(#[trigger] second[i], budget) == member_of(first[i], budget),
    ensures
        members_of(second, n, budget) == members_of(first, n, budget),
    decreases n,
{
    if n > 0 {
        equal_members_equal_objects(first, second, (n - 1) as nat, budget);
        assert(member_of(second[n - 1], budget) == member_of(first[n - 1], budget));
    }
}

/// Whitespace around the elements of an array does not change what the
/// text between the brackets writes, where every element has a value.
pub proof fn array_ignores_padding(
    elements: Seq<Seq<char>>,
    padded: Seq<Seq<char>>,
    budget: nat,
)
    requires
        1 <= elements.len() == padded.len(),
        forall|i: int|
            0 <= i < elements.len() ==> trimmed(#[trigger] padded[i]) == trimmed(elements[i]),
        forall|i: int|
            0 <= i < elements.len() ==> value_of(trimmed(#[trigger] elements[i]), budget) is Ok,
    ensures
        array_of(join(padded, ','), budget) == array_of(join(elements, ','), budget),
{
    assert forall|i: int| 0 <= i < padded.len() implies value_of(
        trimmed(#[trigger] padded[i]),
        budget,
    ) is Ok by {
        assert(value_of(trimmed(elements[i]), budget) is Ok);
    }
    array_of_joined_elements(elements, budget);
    array_of_joined_elements(padded, budget);
    assert(values_of(padded, budget) =~= values_of(elements, budget));
}

/// Members that are written differently but write the same leave the
/// object the same: with `member_ignores_padding`, whitespace around the
/// members, their keys, colons and values does not change what the text
/// between the braces writes, where every member is well formed.
pub proof fn object_ignores_padding(
    members: Seq<Seq<char>>,
    padded: Seq<Seq<char>>,
    budget: nat,
)
    requires
        1 <= members.len() == padded.len(),
        forall|i: int|
            0 <= i < members.len() ==> member_of(#[trigger] padded[i], budget) == member_of(
                members[i],
                budget,
            ),
        forall|i: int| 0 <= i < members.len() ==> (#[trigger] member_of(members[i], budget)) is Ok,
    ensures
        object_of(join(padded, ','), budget) == object_of(join(members, ','), budget),
{
    assert forall|i: int| 0 <= i < padded.len() implies (#[trigger] member_of(
        padded[i],
        budget,
    )) is Ok by {
        assert(member_of(members[i], budget) is Ok);
    }
    object_of_joined_members(members, budget);
    object_of_joined_members(padded, budget);
    equal_members_equal_objects(members, padded, members.len(), budget);
}

/// A span in braces writes the object of what stands between them, as far
/// as the budget allows another level.
pub proof fn braces_enclose_an_object(content: Seq<char>, budget: nat)
    ensures
        value_of(seq!['{'] + content + seq!['}'], budget) == (if budget == 0 {
            Err::<Json, Failure>(Failure::NestingTooDeep)
        } else {
            object_of(content, (budget - 1) as nat)
        }),
{
    let span = seq!['{'] + content + seq!['}'];
    lemma_not_a_scalar(span);
    assert(inner(span) == content);
}

/// A span in square brackets writes the array of what stands between them,
/// as far as the budget allows another level.
pub proof fn brackets_enclose_an_array(content: Seq<char>, budget: nat)
    ensures
        value_of(seq!['['] + content + seq![']'], budget) == (if budget == 0 {
            Err::<Json, Failure>(Failure::NestingTooDeep)
        } else {
            array_of(content, (budget - 1) as nat)
        }),
{
    let span = seq!['['] + content + seq![']'];
    lemma_not_a_scalar(span);
    assert(inner(span) == content);
}

/// Nothing but whitespace between the brackets writes the empty object and
/// the empty array.
pub proof fn blank_content_is_empty(content: Seq<char>, budget: nat)
    requires
        all_space(content),
    ensures
        object_of(content, budget) == Ok::<Json, Failure>(Json::Object(Map::empty())),
        array_of(content, budget) == Ok::<Json, Failure>(Json::Array(Seq::empty())),
{
    trim_front_keeps_back(content, Seq::empty());
}

/// Inside a string literal nothing is a separator and no bracket changes the
/// depth.
pub proof fn strings_hide_structure(s: Seq<char>, i: int, sep: char)
    requires
        0 <= i < s.len(),
        state_after(s, i).in_string,
    ensures
        !splits_at(s, i, sep),
        state_after(s, i + 1).depth == state_after(s, i).depth,
{
}

/// Separators inside string literals are text: an object written as one key
/// and one string value, joined by a colon, has that one member, whatever
/// commas, colons, brackets and escaped quotes the two literals hold.
pub proof fn string_member_hides_separators(key: Seq<char>, value: Seq<char>, budget: nat)
    requires
        string_value(key) is Some,
        string_value(value) is Some,
    ensures
        object_of(key + seq![':'] + value, budget) == Ok::<Json, Failure>(
            Json::Object(
                Map::<Seq<char>, Json>::empty().insert(
                    string_value(key)->0,
                    Json::String(string_value(value)->0),
                ),
            ),
        ),
{
    let member = key + seq![':'] + value;
    lemma_string_token_value(key, ',', budget);
    lemma_string_token_value(value, ',', budget);
    member_of_key_and_value(key, value, budget);
    let members = seq![member];
    assert(members[0] == member);
    assert(members_of(members, 0, budget) == Ok::<Map<Seq<char>, Json>, Failure>(Map::empty()));
    object_of_joined_members(members, budget);
}

/// An array written as one string literal has that one element, whatever
/// commas, brackets and escaped quotes the literal holds.
pub proof fn string_element_hides_separators(value: Seq<char>, budget: nat)
    requires
        string_value(value) is Some,
    ensures
        array_of(value, budget) == Ok::<Json, Failure>(
            Json::Array(seq![Json::String(string_value(value)->0)]),
        ),
{
    lemma_string_token_value(value, ',', budget);
    let elements = seq![value];
    assert(elements[0] == value);
    array_of_joined_elements(elements, budget);
}

/// An array keeps its elements in the order in which they are written: the
/// element at each position is the value of the part at that position.
pub proof fn array_keeps_order(parts: Seq<Seq<char>>, n: nat, budget: nat)
    requires
        n <= parts.len(),
        items_of(parts, n, budget) is Ok,
    ensures
        items_of(parts, n, budget)->Ok_0.len() == n,
        forall|i: int|
            0 <= i < n ==> value_of(trimmed(#[trigger] parts[i]), budget) == Ok::<Json, Failure>(
                items_of(parts, n, budget)->Ok_0[i],
            ),
    decreases n,
{
    if n > 0 {
        array_keeps_order(parts, (n - 1) as nat, budget);
    }
}

/// The failure of an array names the first element that fails, and gives
/// that element's own failure as the cause.
pub proof fn array_failure_names_first(parts: Seq<Seq<char>>, n: nat, budget: nat)
    requires
        n <= parts.len(),
        items_of(parts, n, budget) is Err,
    ensures
        items_of(parts, n, budget)->Err_0 matches Failure::MalformedArray(i, cause) && 0 <= i < n
            && value_of(trimmed(parts[i]), budget) == Err::<Json, Failure>(*cause) && forall|j: int|
            0 <= j < i ==> value_of(trimmed(#[trigger] parts[j]), budget) is Ok,
    decreases n,
{
    if n > 0 {
        if items_of(parts, (n - 1) as nat, budget) is Err {
            array_failure_names_first(parts, (n - 1) as nat, budget);
        } else {
            array_keeps_order(parts, (n - 1) as nat, budget);
        }
    }
}

/// Of the members with the same key the last one decides the value: where
/// member `j` has key `k` and no member after it has, the object maps `k`
/// to the value of member `j`.
pub proof fn last_member_wins(
    parts: Seq<Seq<char>>,
    n: nat,
    budget: nat,
    j: int,
    k: Seq<char>,
    v: Json,
)
    requires
        n <= parts.len(),
        members_of(parts, n, budget) is Ok,
        0 <= j < n,
        member_of(parts[j], budget) == Ok::<(Seq<char>, Json), Failure>((k, v)),
        forall|i: int| j < i < n ==> (#[trigger] member_of(parts[i], budget))->Ok_0.0 != k,
    ensures
        members_of(parts, n, budget)->Ok_0.contains_key(k),
        members_of(parts, n, budget)->Ok_0[k] == v,
    decreases n,
{
    if j < n - 1 {
        assert(member_of(parts[n - 1], budget)->Ok_0.0 != k);
        last_member_wins(parts, (n - 1) as nat, budget, j, k, v);
    }
}

/// The keys of an object are the keys of its members, no more.
pub proof fn object_keys_are_member_keys(
    parts: Seq<Seq<char>>,
    n: nat,
    budget: nat,
    k: Seq<char>,
)
    requires
        n <= parts.len(),
        members_of(parts, n, budget) is Ok,
    ensures
        members_of(parts, n, budget)->Ok_0.contains_key(k) <==> exists|i: int|
            0 <= i < n && (#[trigger] member_of(parts[i], budget))->Ok_0.0 == k,
        forall|i: int| 0 <= i < n ==> (#[trigger] member_of(parts[i], budget)) is Ok,
    decreases n,
{
    if n > 0 {
        object_keys_are_member_keys(parts, (n - 1) as nat, budget, k);
        let last = member_of(parts[n - 1], budget);
        if members_of(parts, n, budget)->Ok_0.contains_key(k) {
            if last->Ok_0.0 == k {
                assert(member_of(parts[n - 1], budget)->Ok_0.0 == k);
            } else {
                let i = choose|i: int|
                    0 <= i < n - 1 && (#[trigger] member_of(parts[i], budget))->Ok_0.0 == k;
                assert(0 <= i < n && member_of(parts[i], budget)->Ok_0.0 == k);
            }
        }
    }
}

/// Whether a failure is due to the limit on nesting: the limit itself, or an
/// element of an array that failed for it.
pub open spec fn hits_limit(f: Failure) -> bool
    decreases f,
{
    match f {
        Failure::NestingTooDeep => true,
        Failure::MalformedArray(_, cause) => hits_limit(*cause),
        _ => false,
    }
}

/// Whether a result is a failure that is due to the limit on nesting.
pub open spec fn limited<T>(r: Result<T, Failure>) -> bool {
    r matches Err(e) && hits_limit(e)
}

/// The limit on nesting adds failures and changes nothing else: a result
/// that is no failure for the limit stays the same under every larger limit.
pub proof fn larger_limit_keeps_results(text: Seq<char>, small: nat, large: nat)
    requires
        small <= large,
        !limited(document_of(text, small)),
    ensures
        document_of(text, large) == document_of(text, small),
{
    lemma_budget_value(trimmed(text), small, large);
}

/// A span that opens with a bracket is no literal and no string.
proof fn lemma_not_a_scalar(span: Seq<char>)
    requires
        span.len() > 0,
        span[0] == '{' || span[0] == '[',
    ensures
        form_of(span) is Object || form_of(span) is Array || form_of(span) is Number || form_of(
            span,
        ) is Malformed,
{
    assert(word_null()[0] == 'n');
    assert(word_true()[0] == 't');
    assert(word_false()[0] == 'f');
}

/// A string literal is its own trimmed text, is all one piece, and writes a
/// string whatever the budget.
proof fn lemma_string_token_value(s: Seq<char>, sep: char, budget: nat)
    requires
        string_value(s) is Some,
        sep != '"',
    ensures
        trimmed(s) == s,
        s.len() > 0,
        first_split(s, sep) is None,
        split_top(s, sep) == seq![s],
        value_of(s, budget) == Ok::<Json, Failure>(Json::String(string_value(s)->0)),
{
    lemma_string_token_scan(s);
    assert forall|i: int| 0 <= i < s.len() implies !splits_at(s, i, sep) by {
        if i > 0 {
            assert(state_after(s, i).in_string);
        }
    }
    lemma_no_split(s, sep);
}

proof fn lemma_budget_value(span: Seq<char>, small: nat, large: nat)
    requires
        small <= large,
        !limited(value_of(span, small)),
    ensures
        value_of(span, large) == value_of(span, small),
    decreases small, 0nat, 0nat,
{
    match form_of(span) {
        Form::Object => {
            lemma_budget_object(inner(span), (small - 1) as nat, (large - 1) as nat);
        },
        Form::Array => {
            lemma_budget_array(inner(span), (small - 1) as nat, (large - 1) as nat);
        },
        _ => {},
    }
}

proof fn lemma_budget_member(part: Seq<char>, small: nat, large: nat)
    requires
        small <= large,
        !limited(member_of(part, small)),
    ensures
        member_of(part, large) == member_of(part, small),
    decreases small, 1nat, 0nat,
{
    if let Some(colon) = first_split(part, ':') {
        let value_text = trimmed(part.subrange(colon + 1, part.len() as int));
        if string_value(trimmed(part.subrange(0, colon))) is Some && value_text.len() > 0 {
            lemma_budget_value(value_text, small, large);
        }
    }
}

proof fn lemma_budget_members(parts: Seq<Seq<char>>, n: nat, small: nat, large: nat)
    requires
        small <= large,
        !limited(members_of(parts, n, small)),
    ensures
        members_of(parts, n, large) == members_of(parts, n, small),
    decreases small, 2nat, n,
{
    if 0 < n <= parts.len() {
        lemma_budget_members(parts, (n - 1) as nat, small, large);
        if members_of(parts, (n - 1) as nat, small) is Ok {
            lemma_budget_member(parts[n - 1], small, large);
        }
    }
}

proof fn lemma_budget_items(parts: Seq<Seq<char>>, n: nat, small: nat, large: nat)
    requires
        small <= large,
        !limited(items_of(parts, n, small)),
    ensures
        items_of(parts, n, large) == items_of(parts, n, small),
    decreases small, 2nat, n,
{
    if 0 < n <= parts.len() {
        lemma_budget_items(parts, (n - 1) as nat, small, large);
        if items_of(parts, (n - 1) as nat, small) is Ok {
            lemma_budget_value(trimmed(parts[n - 1]), small, large);
        }
    }
}

proof fn lemma_budget_object(content: Seq<char>, small: nat, large: nat)
    requires
        small <= large,
        !limited(object_of(content, small)),
    ensures
        object_of(content, large) == object_of(content, small),
    decreases small, 3nat, 0nat,
{
    let parts = split_top(content, ',');
    if trimmed(content).len() != 0 {
        lemma_budget_members(parts, parts.len(), small, large);
    }
}

proof fn lemma_budget_array(content: Seq<char>, small: nat, large: nat)
    requires
        small <= large,
        !limited(array_of(content, small)),
    ensures
        array_of(content, large) == array_of(content, small),
    decreases small, 3nat, 0nat,
{
    let parts = split_top(content, ',');
    if trimmed(content).len() != 0 {
        lemma_budget_items(parts, parts.len(), small, large);
    }
}

} // verus!

//! How the meaning of a text is made of the meanings of its parts: every
//! value is closed in itself, and an object or an array whose content is
//! made by joining parts has those parts, and no others.
use vstd::prelude::*;
use crate::error::Failure;
use crate::grammar::{
    array_of, form_of, inner, items_of, member_of, members_of, object_of, value_of, Form,
};
use crate::number::{is_digit, lemma_number_chars};
use crate::scan::{
    first_split, lemma_first_split_from, lemma_first_split_is, lemma_state_of_prefix, split_top,
    splits_at, state_after,
};
use crate::strings::{lemma_string_token_scan, string_value};
use crate::structure::{
    balanced, is_mark, join, join_undoes_split, lemma_balanced_concat,
    lemma_comma_colon_balanced, lemma_enclosed_self_contained, lemma_joined_balanced,
    lemma_padded_balanced, lemma_padded_self_contained, lemma_plain_self_contained,
    lemma_sealed_concat, lemma_space_plain, lemma_trim_parts, sealed, self_contained,
    split_undoes_join,
};
use crate::text::{all_space, is_space, trimmed, trimmed_has_no_padding};
use crate::value::Json;

verus! {

/// Every text that writes a value is closed in itself: it closes what it
/// opens, and no comma or colon of it stands outside its brackets and
/// strings. No value is written by the empty text.
pub proof fn values_are_self_contained(span: Seq<char>, budget: nat)
    requires
        value_of(span, budget) is Ok,
    ensures
        self_contained(span),
        span.len() > 0,
    decreases budget, 0nat, 0nat,
{
    match form_of(span) {
        Form::Null | Form::True | Form::False => {
            lemma_plain_self_contained(span);
        },
        Form::Text => {
            lemma_string_self_contained(span);
        },
        Form::Object => {
            lemma_object_balanced(inner(span), (budget - 1) as nat);
            lemma_enclosed_self_contained('{', inner(span), '}');
            assert(span == seq!['{'] + inner(span) + seq!['}']);
        },
        Form::Array => {
            lemma_array_balanced(inner(span), (budget - 1) as nat);
            lemma_enclosed_self_contained('[', inner(span), ']');
            assert(span == seq!['['] + inner(span) + seq![']']);
        },
        Form::Number => {
            lemma_number_chars(span);
            assert forall|i: int| 0 <= i < span.len() implies !is_mark(#[trigger] span[i]) by {
                assert(is_digit(span[i]) || span[i] == '-' || span[i] == '+' || span[i] == '.'
                    || span[i] == 'e' || span[i] == 'E');
            }
            lemma_plain_self_contained(span);
        },
        Form::Malformed => {},
    }
}

/// A string literal is closed in itself.
pub(crate) proof fn lemma_string_self_contained(s: Seq<char>)
    requires
        string_value(s) is Some,
    ensures
        self_contained(s),
        s.len() > 0,
{
    lemma_string_token_scan(s);
    assert forall|i: int, c: char| 0 <= i < s.len() && c != '"' implies !#[trigger] splits_at(
        s,
        i,
        c,
    ) by {
        if i > 0 {
            assert(state_after(s, i).in_string);
        }
    }
}

/// A text that trims to nothing is whitespace.
pub(crate) proof fn lemma_blank(s: Seq<char>)
    ensures
        trimmed(s).len() == 0 <==> all_space(s),
{
    let pads = lemma_trim_parts(s);
    if trimmed(s).len() == 0 {
        assert forall|i: int| 0 <= i < s.len() implies is_space(#[trigger] s[i]) by {
            if i < pads.0.len() {
                assert(is_space(pads.0[i]));
            } else {
                assert(is_space(pads.1[i - pads.0.len()]));
            }
        }
    } else {
        trimmed_has_no_padding(s);
        assert(s[pads.0.len() as int] == trimmed(s)[0]);
    }
}

proof fn lemma_member_balanced(part: Seq<char>, budget: nat)
    requires
        member_of(part, budget) is Ok,
    ensures
        balanced(part),
        sealed(part, ','),
        !all_space(part),
    decreases budget, 1nat, 0nat,
{
    lemma_first_split_from(part, ':', 0);
    let colon = first_split(part, ':')->0;
    let left = part.subrange(0, colon);
    let right = part.subrange(colon + 1, part.len() as int);
    lemma_string_self_contained(trimmed(left));
    lemma_padded_self_contained(left);
    values_are_self_contained(trimmed(right), budget);
    lemma_padded_self_contained(right);
    lemma_comma_colon_balanced();
    lemma_balanced_concat(left, seq![':']);
    lemma_balanced_concat(left + seq![':'], right);
    lemma_sealed_concat(left, seq![':'], ',');
    lemma_sealed_concat(left + seq![':'], right, ',');
    assert(part == left + seq![':'] + right);
}

proof fn lemma_members_balanced(parts: Seq<Seq<char>>, n: nat, budget: nat)
    requires
        n <= parts.len(),
        members_of(parts, n, budget) is Ok,
    ensures
        forall|i: int| 0 <= i < n ==> balanced(#[trigger] parts[i]),
    decreases budget, 2nat, n,
{
    if n > 0 {
        lemma_members_balanced(parts, (n - 1) as nat, budget);
        lemma_member_balanced(parts[n - 1], budget);
    }
}

proof fn lemma_items_balanced(parts: Seq<Seq<char>>, n: nat, budget: nat)
    requires
        n <= parts.len(),
        items_of(parts, n, budget) is Ok,
    ensures
        forall|i: int| 0 <= i < n ==> balanced(#[trigger] parts[i]),
    decreases budget, 2nat, n,
{
    if n > 0 {
        lemma_items_balanced(parts, (n - 1) as nat, budget);
        values_are_self_contained(trimmed(parts[n - 1]), budget);
        lemma_padded_balanced(parts[n - 1]);
    }
}

proof fn lemma_object_balanced(content: Seq<char>, budget: nat)
    requires
        object_of(content, budget) is Ok,
    ensures
        balanced(content),
    decreases budget, 3nat, 0nat,
{
    if trimmed(content).len() == 0 {
        lemma_blank(content);
        lemma_space_plain(content);
        lemma_plain_self_contained(content);
    } else {
        let parts = split_top(content, ',');
        lemma_members_balanced(parts, parts.len(), budget);
        lemma_joined_balanced(parts);
        join_undoes_split(content, ',');
    }
}

proof fn lemma_array_balanced(content: Seq<char>, budget: nat)
    requires
        array_of(content, budget) is Ok,
    ensures
        balanced(content),
    decreases budget, 3nat, 0nat,
{
    if trimmed(content).len() == 0 {
        lemma_blank(content);
        lemma_space_plain(content);
        lemma_plain_self_contained(content);
    } else {
        let parts = split_top(content, ',');
        lemma_items_balanced(parts, parts.len(), budget);
        lemma_joined_balanced(parts);
        join_undoes_split(content, ',');
    }
}

/// A joined text begins with its first piece.
proof fn lemma_join_begins(parts: Seq<Seq<char>>, sep: char, i: int)
    requires
        parts.len() >= 1,
        0 <= i < parts[0].len(),
    ensures
        i < join(parts, sep).len(),
        join(parts, sep)[i] == parts[0][i],
{
}

/// The values that the elements write, each for itself.
pub open spec fn values_of(elements: Seq<Seq<char>>, budget: nat) -> Seq<Json> {
    Seq::new(elements.len(), |i: int| value_of(trimmed(elements[i]), budget)->Ok_0)
}

/// Elements that all have a value give the list of their values.
proof fn lemma_items_all_ok(parts: Seq<Seq<char>>, n: nat, budget: nat)
    requires
        n <= parts.len(),
        forall|i: int| 0 <= i < n ==> value_of(trimmed(#[trigger] parts[i]), budget) is Ok,
    ensures
        items_of(parts, n, budget) == Ok::<Seq<Json>, Failure>(
            values_of(parts, budget).take(n as int),
        ),
    decreases n,
{
    if n > 0 {
        lemma_items_all_ok(parts, (n - 1) as nat, budget);
        assert(values_of(parts, budget).take(n - 1).push(
            value_of(trimmed(parts[n - 1]), budget)->Ok_0,
        ) == values_of(parts, budget).take(n as int));
    } else {
        assert(values_of(parts, budget).take(0) == Seq::<Json>::empty());
    }
}

/// Members that are all well formed give a map.
proof fn lemma_members_all_ok(parts: Seq<Seq<char>>, n: nat, budget: nat)
    requires
        n <= parts.len(),
        forall|i: int| 0 <= i < n ==> (#[trigger] member_of(parts[i], budget)) is Ok,
    ensures
        members_of(parts, n, budget) is Ok,
    decreases n,
{
    if n > 0 {
        lemma_members_all_ok(parts, (n - 1) as nat, budget);
        assert(member_of(parts[n - 1], budget) is Ok);
    }
}

/// A member made of a key text, a colon and a value text has the key that
/// the key text writes and the value that the value text writes, where the
/// key text is a string literal with or without whitespace around it and
/// the value text is not blank: no colon inside the key is taken for the
/// one that separates the two.
pub proof fn member_of_key_and_value(key: Seq<char>, value: Seq<char>, budget: nat)
    requires
        string_value(trimmed(key)) is Some,
        trimmed(value).len() > 0,
    ensures
        member_of(key + seq![':'] + value, budget) == (match value_of(trimmed(value), budget) {
            Ok(v) => Ok::<(Seq<char>, Json), Failure>((string_value(trimmed(key))->0, v)),
            Err(e) => Err(e),
        }),
{
    let member = key + seq![':'] + value;
    let n = key.len() as int;
    lemma_string_self_contained(trimmed(key));
    lemma_padded_self_contained(key);
    assert forall|i: int| 0 <= i < n implies !splits_at(member, i, ':') by {
        lemma_state_of_prefix(member, key, i);
        assert(!splits_at(key, i, ':'));
    }
    assert(splits_at(member, n, ':')) by {
        lemma_state_of_prefix(member, key, n);
    }
    lemma_first_split_is(member, ':', n);
    assert(member.subrange(0, n) == key);
    assert(member.subrange(n + 1, member.len() as int) == value);
}

/// An array whose content is made of element texts with commas between them
/// has the values of these elements, in their order: whatever an element
/// holds inside its own brackets and strings, it stays one element.
pub proof fn array_of_joined_elements(elements: Seq<Seq<char>>, budget: nat)
    requires
        elements.len() >= 1,
        forall|i: int|
            0 <= i < elements.len() ==> value_of(trimmed(#[trigger] elements[i]), budget) is Ok,
    ensures
        array_of(join(elements, ','), budget) == Ok::<Json, Failure>(
            Json::Array(values_of(elements, budget)),
        ),
{
    assert forall|i: int| 0 <= i < elements.len() implies balanced(#[trigger] elements[i])
        && sealed(elements[i], ',') by {
        values_are_self_contained(trimmed(elements[i]), budget);
        lemma_padded_self_contained(elements[i]);
    }
    split_undoes_join(elements, ',');
    lemma_items_all_ok(elements, elements.len(), budget);
    assert(values_of(elements, budget).take(elements.len() as int) == values_of(elements, budget));
    let first = elements[0];
    values_are_self_contained(trimmed(first), budget);
    lemma_blank(first);
    let i = choose|i: int| 0 <= i < first.len() && !is_space(#[trigger] first[i]);
    lemma_join_begins(elements, ',', i);
    lemma_blank(join(elements, ','));
}

/// An object whose content is made of well-formed members with commas
/// between them has these members, read from left to right.
pub proof fn object_of_joined_members(members: Seq<Seq<char>>, budget: nat)
    requires
        members.len() >= 1,
        forall|i: int| 0 <= i < members.len() ==> (#[trigger] member_of(members[i], budget)) is Ok,
    ensures
        members_of(members, members.len(), budget) is Ok,
        object_of(join(members, ','), budget) == Ok::<Json, Failure>(
            Json::Object(members_of(members, members.len(), budget)->Ok_0),
        ),
{
    assert forall|i: int| 0 <= i < members.len() implies balanced(#[trigger] members[i])
        && sealed(members[i], ',') by {
        lemma_member_balanced(members[i], budget);
    }
    split_undoes_join(members, ',');
    lemma_members_all_ok(members, members.len(), budget);
    let first = members[0];
    assert(member_of(members[0], budget) is Ok);
    lemma_member_balanced(first, budget);
    let i = choose|i: int| 0 <= i < first.len() && !is_space(#[trigger] first[i]);
    lemma_join_begins(members, ',', i);
    lemma_blank(join(members, ','));
}

} // verus!

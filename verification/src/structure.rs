//! How texts nest: when a text is closed in itself, so that it can stand as
//! a piece among others, and how splitting undoes joining.
use vstd::prelude::*;
use crate::scan::{
    end_state, first_split, lemma_first_split_from, lemma_first_split_is, lemma_no_split,
    lemma_state_of_prefix, lemma_state_restarts, split_top, splits_at, state_after, ScanState,
};
use crate::text::{all_space, is_space, trim_back, trim_front, trimmed};

verus! {

/// The character `c` stands nowhere in `s` outside brackets and strings.
pub open spec fn sealed(s: Seq<char>, c: char) -> bool {
    forall|i: int| 0 <= i < s.len() ==> !#[trigger] splits_at(s, i, c)
}

/// Every string and bracket that `s` opens it also closes, and it closes
/// nothing that it did not open.
pub open spec fn balanced(s: Seq<char>) -> bool {
    &&& end_state(s) == ScanState::start()
    &&& sealed(s, '}')
    &&& sealed(s, ']')
}

/// A text that can stand as a piece: balanced, and with every comma and
/// colon inside its own brackets and strings.
pub open spec fn self_contained(s: Seq<char>) -> bool {
    &&& balanced(s)
    &&& sealed(s, ',')
    &&& sealed(s, ':')
}

/// The characters that steer the scan or separate pieces.
pub open spec fn is_mark(c: char) -> bool {
    c == '"' || c == '{' || c == '[' || c == '}' || c == ']' || c == ',' || c == ':'
}

/// No character of `s` steers the scan or separates pieces.
pub open spec fn plain(s: Seq<char>) -> bool {
    forall|i: int| 0 <= i < s.len() ==> !is_mark(#[trigger] s[i])
}

/// The text that the pieces make with `sep` between each two of them.
pub open spec fn join(parts: Seq<Seq<char>>, sep: char) -> Seq<char>
    decreases parts.len(),
{
    if parts.len() == 0 {
        Seq::empty()
    } else if parts.len() == 1 {
        parts[0]
    } else {
        parts[0] + seq![sep] + join(parts.drop_first(), sep)
    }
}

/// The state with one more bracket open.
pub open spec fn deeper(st: ScanState) -> ScanState {
    ScanState { depth: st.depth + 1, ..st }
}

/// A plain text leaves the scan where it began.
pub(crate) proof fn lemma_plain_scan(s: Seq<char>, n: int)
    requires
        plain(s),
        0 <= n <= s.len(),
    ensures
        state_after(s, n) == ScanState::start(),
    decreases n,
{
    if n > 0 {
        lemma_plain_scan(s, n - 1);
    }
}

/// A plain text is self-contained.
pub(crate) proof fn lemma_plain_self_contained(s: Seq<char>)
    requires
        plain(s),
    ensures
        self_contained(s),
{
    lemma_plain_scan(s, s.len() as int);
    assert forall|i: int, c: char| 0 <= i < s.len() && is_mark(c) implies !#[trigger] splits_at(
        s,
        i,
        c,
    ) by {
        assert(!is_mark(s[i]));
    }
}

/// Whitespace is plain.
pub(crate) proof fn lemma_space_plain(s: Seq<char>)
    requires
        all_space(s),
    ensures
        plain(s),
{
    assert forall|i: int| 0 <= i < s.len() implies !is_mark(#[trigger] s[i]) by {
        assert(is_space(s[i]));
    }
}

/// After a text that ends where the scan began, what follows is scanned as
/// if it stood alone.
pub(crate) proof fn lemma_sealed_concat(a: Seq<char>, b: Seq<char>, c: char)
    requires
        end_state(a) == ScanState::start(),
        sealed(a, c),
        sealed(b, c),
    ensures
        sealed(a + b, c),
        end_state(a + b) == end_state(b),
{
    lemma_state_restarts(a, b, b.len() as int);
    assert forall|i: int| 0 <= i < (a + b).len() implies !#[trigger] splits_at(a + b, i, c) by {
        if i < a.len() {
            lemma_state_of_prefix(a + b, a, i);
            assert(!splits_at(a, i, c));
        } else {
            lemma_state_restarts(a, b, i - a.len());
            assert(!splits_at(b, i - a.len(), c));
        }
    }
}

/// Two balanced texts, one after the other, are balanced.
pub(crate) proof fn lemma_balanced_concat(a: Seq<char>, b: Seq<char>)
    requires
        balanced(a),
        balanced(b),
    ensures
        balanced(a + b),
{
    lemma_sealed_concat(a, b, '}');
    lemma_sealed_concat(a, b, ']');
}

/// Two self-contained texts, one after the other, are self-contained.
pub(crate) proof fn lemma_self_contained_concat(a: Seq<char>, b: Seq<char>)
    requires
        self_contained(a),
        self_contained(b),
    ensures
        self_contained(a + b),
{
    lemma_balanced_concat(a, b);
    lemma_sealed_concat(a, b, ',');
    lemma_sealed_concat(a, b, ':');
}

/// A text is its trimmed part with whitespace before and after it.
pub(crate) proof fn lemma_trim_parts(s: Seq<char>) -> (pads: (Seq<char>, Seq<char>))
    ensures
        all_space(pads.0),
        all_space(pads.1),
        s == pads.0 + trimmed(s) + pads.1,
{
    let front = lemma_trim_front_parts(s);
    let back = lemma_trim_back_parts(trim_front(s));
    assert(s == front + trimmed(s) + back);
    (front, back)
}

proof fn lemma_trim_front_parts(s: Seq<char>) -> (pad: Seq<char>)
    ensures
        all_space(pad),
        s == pad + trim_front(s),
    decreases s.len(),
{
    if s.len() > 0 && is_space(s.first()) {
        let rest = lemma_trim_front_parts(s.drop_first());
        let pad = seq![s.first()] + rest;
        assert(s == pad + trim_front(s)) by {
            assert(s == seq![s.first()] + s.drop_first());
        }
        pad
    } else {
        Seq::empty()
    }
}

proof fn lemma_trim_back_parts(s: Seq<char>) -> (pad: Seq<char>)
    ensures
        all_space(pad),
        s == trim_back(s) + pad,
    decreases s.len(),
{
    if s.len() > 0 && is_space(s.last()) {
        let rest = lemma_trim_back_parts(s.drop_last());
        let pad = rest + seq![s.last()];
        assert(s == trim_back(s) + pad) by {
            assert(s == s.drop_last() + seq![s.last()]);
        }
        pad
    } else {
        Seq::empty()
    }
}

/// A text whose trimmed part is balanced is balanced.
pub(crate) proof fn lemma_padded_balanced(s: Seq<char>)
    requires
        balanced(trimmed(s)),
    ensures
        balanced(s),
{
    let pads = lemma_trim_parts(s);
    lemma_space_plain(pads.0);
    lemma_space_plain(pads.1);
    lemma_plain_self_contained(pads.0);
    lemma_plain_self_contained(pads.1);
    lemma_balanced_concat(pads.0, trimmed(s));
    lemma_balanced_concat(pads.0 + trimmed(s), pads.1);
}

/// A text whose trimmed part is self-contained is self-contained.
pub(crate) proof fn lemma_padded_self_contained(s: Seq<char>)
    requires
        self_contained(trimmed(s)),
    ensures
        self_contained(s),
{
    let pads = lemma_trim_parts(s);
    lemma_space_plain(pads.0);
    lemma_space_plain(pads.1);
    lemma_plain_self_contained(pads.0);
    lemma_plain_self_contained(pads.1);
    lemma_self_contained_concat(pads.0, trimmed(s));
    lemma_self_contained_concat(pads.0 + trimmed(s), pads.1);
}

/// Behind an opening bracket a balanced text is scanned one level deeper.
proof fn lemma_deeper(open: char, content: Seq<char>, n: int)
    requires
        open == '{' || open == '[',
        sealed(content, '}'),
        sealed(content, ']'),
        0 <= n <= content.len(),
    ensures
        state_after(seq![open] + content, 1 + n) == deeper(state_after(content, n)),
    decreases n,
{
    let s = seq![open] + content;
    if n == 0 {
        assert(state_after(s, 0) == ScanState::start());
    } else {
        lemma_deeper(open, content, n - 1);
        assert(!splits_at(content, n - 1, '}'));
        assert(!splits_at(content, n - 1, ']'));
    }
}

/// A balanced text between a pair of brackets is self-contained.
pub(crate) proof fn lemma_enclosed_self_contained(open: char, content: Seq<char>, close: char)
    requires
        open == '{' || open == '[',
        close == '}' || close == ']',
        balanced(content),
    ensures
        self_contained(seq![open] + content + seq![close]),
{
    let head = seq![open] + content;
    let s = head + seq![close];
    let n = content.len() as int;
    assert forall|i: int| 1 <= i <= n + 1 implies (#[trigger] state_after(s, i)).depth >= 1 by {
        lemma_deeper(open, content, i - 1);
        lemma_state_of_prefix(s, head, i);
    }
    assert(state_after(s, n + 1) == deeper(ScanState::start())) by {
        lemma_deeper(open, content, n);
        lemma_state_of_prefix(s, head, n + 1);
    }
    assert forall|i: int, c: char| 0 <= i < s.len() && c != open implies !#[trigger] splits_at(
        s,
        i,
        c,
    ) by {
        if i > 0 {
            assert(state_after(s, i).depth >= 1);
        }
    }
}

/// Splitting has at least one piece.
pub(crate) proof fn lemma_split_nonempty(s: Seq<char>, sep: char)
    ensures
        split_top(s, sep).len() >= 1,
        first_split(s, sep) is Some ==> split_top(s, sep).len() >= 2,
    decreases s.len(),
{
    lemma_first_split_from(s, sep, 0);
    if let Some(i) = first_split(s, sep) {
        lemma_split_nonempty(s.subrange(i + 1, s.len() as int), sep);
    }
}

/// Joining the pieces of a text gives the text again: splitting loses
/// nothing.
pub proof fn join_undoes_split(s: Seq<char>, sep: char)
    ensures
        join(split_top(s, sep), sep) == s,
    decreases s.len(),
{
    lemma_first_split_from(s, sep, 0);
    if let Some(i) = first_split(s, sep) {
        let piece = s.subrange(0, i);
        let rest = s.subrange(i + 1, s.len() as int);
        join_undoes_split(rest, sep);
        lemma_split_nonempty(rest, sep);
        let parts = split_top(s, sep);
        assert(parts[0] == piece);
        assert(parts.drop_first() == split_top(rest, sep));
    }
}

/// Splitting the joined pieces gives the pieces again, where each piece is
/// balanced and holds the separator only inside its brackets and strings.
pub proof fn split_undoes_join(parts: Seq<Seq<char>>, sep: char)
    requires
        parts.len() >= 1,
        forall|i: int|
            0 <= i < parts.len() ==> balanced(#[trigger] parts[i]) && sealed(parts[i], sep),
    ensures
        split_top(join(parts, sep), sep) == parts,
    decreases parts.len(),
{
    let first = parts[0];
    if parts.len() == 1 {
        lemma_no_split(first, sep);
    } else {
        let others = parts.drop_first();
        let tail = join(others, sep);
        let s = first + seq![sep] + tail;
        let n = first.len() as int;
        assert forall|i: int| 0 <= i < others.len() implies balanced(#[trigger] others[i])
            && sealed(others[i], sep) by {
            assert(others[i] == parts[i + 1]);
        }
        split_undoes_join(others, sep);
        assert forall|i: int| 0 <= i < n implies !splits_at(s, i, sep) by {
            lemma_state_of_prefix(s, first, i);
            assert(!splits_at(first, i, sep));
        }
        assert(splits_at(s, n, sep)) by {
            lemma_state_of_prefix(s, first, n);
        }
        lemma_first_split_is(s, sep, n);
        assert(s.subrange(0, n) == first);
        assert(s.subrange(n + 1, s.len() as int) == tail);
    }
}

/// Balanced pieces, joined by commas, make a balanced text.
pub(crate) proof fn lemma_joined_balanced(parts: Seq<Seq<char>>)
    requires
        forall|i: int| 0 <= i < parts.len() ==> balanced(#[trigger] parts[i]),
    ensures
        balanced(join(parts, ',')),
    decreases parts.len(),
{
    if parts.len() == 0 {
        lemma_plain_self_contained(Seq::empty());
    } else if parts.len() > 1 {
        let others = parts.drop_first();
        assert forall|i: int| 0 <= i < others.len() implies balanced(#[trigger] others[i]) by {
            assert(others[i] == parts[i + 1]);
        }
        lemma_joined_balanced(others);
        lemma_comma_colon_balanced();
        lemma_balanced_concat(parts[0], seq![',']);
        lemma_balanced_concat(parts[0] + seq![','], join(others, ','));
    }
}

/// A comma alone and a colon alone are balanced.
pub(crate) proof fn lemma_comma_colon_balanced()
    ensures
        balanced(seq![',']),
        balanced(seq![':']),
        sealed(seq![':'], ','),
{
    let comma = seq![','];
    let colon = seq![':'];
    assert(state_after(comma, 0) == ScanState::start());
    assert(state_after(colon, 0) == ScanState::start());
}

} // verus!

//! Characters and whitespace: texts as sequences of characters, and what
//! trimming leaves of them.
use vstd::prelude::*;

verus! {

/// `String::push` of the standard library: appends one character to the end
/// of the string and leaves the characters before it as they were.
pub assume_specification[ std::string::String::push ](s: &mut std::string::String, ch: char)
    ensures
        final(s)@ == old(s)@.push(ch),
;

/// Whether `c` is whitespace: the characters with the Unicode property
/// `White_Space`.
pub open spec fn is_space(c: char) -> bool {
    ||| '\u{9}' <= c <= '\u{d}'
    ||| c == ' '
    ||| c == '\u{85}'
    ||| c == '\u{a0}'
    ||| c == '\u{1680}'
    ||| '\u{2000}' <= c <= '\u{200a}'
    ||| c == '\u{2028}'
    ||| c == '\u{2029}'
    ||| c == '\u{202f}'
    ||| c == '\u{205f}'
    ||| c == '\u{3000}'
}

/// `s` without the whitespace at its front.
pub open spec fn trim_front(s: Seq<char>) -> Seq<char>
    decreases s.len(),
{
    if s.len() > 0 && is_space(s.first()) {
        trim_front(s.drop_first())
    } else {
        s
    }
}

/// `s` without the whitespace at its back.
pub open spec fn trim_back(s: Seq<char>) -> Seq<char>
    decreases s.len(),
{
    if s.len() > 0 && is_space(s.last()) {
        trim_back(s.drop_last())
    } else {
        s
    }
}

/// `s` without the whitespace at either end.
pub open spec fn trimmed(s: Seq<char>) -> Seq<char> {
    trim_back(trim_front(s))
}

/// Whether every character of `s` is whitespace.
pub open spec fn all_space(s: Seq<char>) -> bool {
    forall|i: int| 0 <= i < s.len() ==> is_space(#[trigger] s[i])
}

proof fn lemma_trim_front_first(s: Seq<char>)
    ensures
        trim_front(s).len() > 0 ==> !is_space(trim_front(s).first()),
    decreases s.len(),
{
    if s.len() > 0 && is_space(s.first()) {
        lemma_trim_front_first(s.drop_first());
    }
}

proof fn lemma_trim_back_prefix(s: Seq<char>)
    ensures
        trim_back(s).len() <= s.len(),
        trim_back(s) == s.subrange(0, trim_back(s).len() as int),
        trim_back(s).len() > 0 ==> !is_space(trim_back(s).last()),
    decreases s.len(),
{
    if s.len() > 0 && is_space(s.last()) {
        lemma_trim_back_prefix(s.drop_last());
    } else {
        assert(s.subrange(0, s.len() as int) == s);
    }
}

/// Whitespace at the front of a span does not change what is left when the
/// front is trimmed.
pub proof fn trim_front_skips_padding(pad: Seq<char>, s: Seq<char>)
    requires
        all_space(pad),
    ensures
        trim_front(pad + s) == trim_front(s),
    decreases pad.len(),
{
    if pad.len() == 0 {
        assert(pad + s == s);
    } else {
        assert((pad + s).drop_first() == pad.drop_first() + s);
        assert forall|i: int| 0 <= i < pad.drop_first().len() implies is_space(
            #[trigger] pad.drop_first()[i],
        ) by {
            assert(is_space(pad[i + 1]));
        }
        trim_front_skips_padding(pad.drop_first(), s);
    }
}

/// Whitespace at the back of a span does not change what is left when the
/// back is trimmed.
pub proof fn trim_back_skips_padding(s: Seq<char>, pad: Seq<char>)
    requires
        all_space(pad),
    ensures
        trim_back(s + pad) == trim_back(s),
    decreases pad.len(),
{
    if pad.len() == 0 {
        assert(s + pad == s);
    } else {
        assert((s + pad).drop_last() == s + pad.drop_last());
        assert forall|i: int| 0 <= i < pad.drop_last().len() implies is_space(
            #[trigger] pad.drop_last()[i],
        ) by {
            assert(is_space(pad[i]));
        }
        trim_back_skips_padding(s, pad.drop_last());
    }
}

/// Trimming the front of a span that ends in whitespace: a span of
/// whitespace alone leaves nothing, any other span keeps the whitespace at
/// its end.
pub proof fn trim_front_keeps_back(s: Seq<char>, pad: Seq<char>)
    requires
        all_space(pad),
    ensures
        all_space(s) ==> trim_front(s + pad).len() == 0 && trim_front(s).len() == 0,
        !all_space(s) ==> trim_front(s + pad) == trim_front(s) + pad,
    decreases s.len(),
{
    if s.len() == 0 {
        trim_front_skips_padding(pad, s);
    } else if is_space(s[0]) {
        assert((s + pad).drop_first() == s.drop_first() + pad);
        trim_front_keeps_back(s.drop_first(), pad);
        if all_space(s) {
            assert forall|i: int| 0 <= i < s.drop_first().len() implies is_space(
                #[trigger] s.drop_first()[i],
            ) by {
                assert(is_space(s[i + 1]));
            }
        } else {
            let bad = choose|i: int| 0 <= i < s.len() && !is_space(#[trigger] s[i]);
            assert(!is_space(s.drop_first()[bad - 1]));
        }
    } else {
        assert((s + pad)[0] == s[0]);
    }
}

/// What is left of a trimmed span begins and ends with a character that is
/// no whitespace, unless nothing is left.
pub proof fn trimmed_has_no_padding(s: Seq<char>)
    ensures
        trimmed(s).len() > 0 ==> !is_space(trimmed(s).first()) && !is_space(trimmed(s).last()),
{
    lemma_trim_front_first(s);
    lemma_trim_back_prefix(trim_front(s));
}

/// Trimming a span that is trimmed changes nothing.
pub proof fn trimmed_is_idempotent(s: Seq<char>)
    ensures
        trimmed(trimmed(s)) == trimmed(s),
{
    trimmed_has_no_padding(s);
}

/// Whitespace around a span does not change what is left when it is trimmed.
pub proof fn trimmed_skips_padding(before: Seq<char>, s: Seq<char>, after: Seq<char>)
    requires
        all_space(before),
        all_space(after),
    ensures
        trimmed(before + s + after) == trimmed(s),
{
    assert(before + s + after == before + (s + after));
    trim_front_skips_padding(before, s + after);
    trim_front_keeps_back(s, after);
    if !all_space(s) {
        trim_back_skips_padding(trim_front(s), after);
    } else {
        assert(trim_front(s + after) == trim_front(s));
    }
}

/// Whether `c` is whitespace.
pub fn is_space_char(c: char) -> (r: bool)
    ensures
        r == is_space(c),
{
    ('\u{9}' <= c && c <= '\u{d}') || c == ' ' || c == '\u{85}' || c == '\u{a0}' || c == '\u{1680}'
        || ('\u{2000}' <= c && c <= '\u{200a}') || c == '\u{2028}' || c == '\u{2029}' || c
        == '\u{202f}' || c == '\u{205f}' || c == '\u{3000}'
}

/// The characters of `text`, in order.
pub fn chars_of(text: &str) -> (r: Vec<char>)
    ensures
        r@ == text@,
{
    let mut out: Vec<char> = Vec::new();
    for c in it: text.chars()
        invariant
            out@ == it.seq().take(it.index() as int),
            it.seq() == text@,
    {
        out.push(c);
    }
    out
}

/// A string made of the characters of `span`, in order.
pub fn text_of(span: &[char]) -> (r: String)
    ensures
        r@ == span@,
{
    let mut out = String::new();
    let mut i: usize = 0;
    while i < span.len()
        invariant
            i <= span.len(),
            out@ == span@.take(i as int),
        decreases span.len() - i,
    {
        out.push(span[i]);
        i += 1;
    }
    out
}

/// The part of `span` between its leading and its trailing whitespace.
pub fn trim(span: &[char]) -> (r: &[char])
    ensures
        r@ == trimmed(span@),
{
    let n = span.len();
    let mut lo: usize = 0;
    assert(span@.subrange(0, n as int) == span@);
    while lo < n && is_space_char(span[lo])
        invariant
            lo <= n == span@.len(),
            trim_front(span@) == trim_front(span@.subrange(lo as int, n as int)),
        decreases n - lo,
    {
        assert(span@.subrange(lo as int, n as int).drop_first() == span@.subrange(
            lo as int + 1,
            n as int,
        ));
        lo += 1;
    }
    let mut hi: usize = n;
    while hi > lo && is_space_char(span[hi - 1])
        invariant
            lo <= hi <= n == span@.len(),
            trim_front(span@) == span@.subrange(lo as int, n as int),
            trimmed(span@) == trim_back(span@.subrange(lo as int, hi as int)),
            lo < n ==> !is_space(span@[lo as int]),
        decreases hi - lo,
    {
        assert(span@.subrange(lo as int, hi as int).drop_last() == span@.subrange(
            lo as int,
            hi as int - 1,
        ));
        hi -= 1;
    }
    vstd::slice::slice_subrange(span, lo, hi)
}

} // verus!

//! Numbers in decimal notation.
use vstd::prelude::*;

verus! {

/// Whether `c` is one of the ten decimal digits.
pub open spec fn is_digit(c: char) -> bool {
    '0' <= c <= '9'
}

/// How many digits follow each other in `s` from position `i` on.
pub open spec fn digit_run(s: Seq<char>, i: int) -> nat
    decreases s.len() - i,
{
    if 0 <= i < s.len() && is_digit(s[i]) {
        1 + digit_run(s, i + 1)
    } else {
        0
    }
}

/// Where the integer part of a number at the front of `s` ends: an optional
/// minus sign, then either a single `0` or a digit from 1 to 9 followed by
/// any digits. `None` where `s` does not begin with such a part.
pub open spec fn integer_end(s: Seq<char>) -> Option<int> {
    let start: int = if s.len() > 0 && s[0] == '-' {
        1
    } else {
        0
    };
    let run = digit_run(s, start);
    if run == 0 || (s[start] == '0' && run > 1) {
        None
    } else {
        Some(start + run)
    }
}

/// Where a fraction that may begin at position `i` ends: a point and at
/// least one digit, or nothing at all. `None` for a point without a digit.
pub open spec fn fraction_end(s: Seq<char>, i: int) -> Option<int> {
    if 0 <= i < s.len() && s[i] == '.' {
        let run = digit_run(s, i + 1);
        if run == 0 {
            None
        } else {
            Some(i + 1 + run)
        }
    } else {
        Some(i)
    }
}

/// Where an exponent that may begin at position `i` ends: `e` or `E`, an
/// optional sign and at least one digit, or nothing at all. `None` for an
/// exponent mark without a digit.
pub open spec fn exponent_end(s: Seq<char>, i: int) -> Option<int> {
    if 0 <= i < s.len() && (s[i] == 'e' || s[i] == 'E') {
        let digits: int = if i + 1 < s.len() && (s[i + 1] == '+' || s[i + 1] == '-') {
            i + 2
        } else {
            i + 1
        };
        let run = digit_run(s, digits);
        if run == 0 {
            None
        } else {
            Some(digits + run)
        }
    } else {
        Some(i)
    }
}

/// Whether `s` is a number in decimal notation: an integer part, then an
/// optional fraction, then an optional exponent, and nothing else.
pub open spec fn is_number(s: Seq<char>) -> bool {
    match integer_end(s) {
        None => false,
        Some(a) => match fraction_end(s, a) {
            None => false,
            Some(b) => exponent_end(s, b) == Some(s.len() as int),
        },
    }
}

/// Every position of a run of digits holds a digit.
proof fn lemma_digit_run(s: Seq<char>, i: int, j: int)
    requires
        0 <= i <= j < i + digit_run(s, i),
    ensures
        j < s.len(),
        is_digit(s[j]),
    decreases j - i,
{
    if j > i {
        lemma_digit_run(s, i + 1, j);
    }
}

/// A number is not empty and holds digits, signs, a point and an exponent
/// mark, nothing else.
pub(crate) proof fn lemma_number_chars(s: Seq<char>)
    requires
        is_number(s),
    ensures
        s.len() > 0,
        forall|i: int|
            0 <= i < s.len() ==> is_digit(#[trigger] s[i]) || s[i] == '-' || s[i] == '+' || s[i]
                == '.' || s[i] == 'e' || s[i] == 'E',
{
    let start: int = if s.len() > 0 && s[0] == '-' {
        1
    } else {
        0
    };
    let a = integer_end(s)->0;
    let b = fraction_end(s, a)->0;
    lemma_digit_run(s, start, start);
    assert forall|i: int| 0 <= i < s.len() implies is_digit(#[trigger] s[i]) || s[i] == '-'
        || s[i] == '+' || s[i] == '.' || s[i] == 'e' || s[i] == 'E' by {
        if start <= i < a {
            lemma_digit_run(s, start, i);
        } else if a < i < b {
            lemma_digit_run(s, a + 1, i);
        } else if b < i {
            let digits: int = if b + 1 < s.len() && (s[b + 1] == '+' || s[b + 1] == '-') {
                b + 2
            } else {
                b + 1
            };
            if digits <= i {
                lemma_digit_run(s, digits, i);
            }
        }
    }
}

/// Whether `c` is one of the ten decimal digits.
pub fn is_digit_char(c: char) -> (r: bool)
    ensures
        r == is_digit(c),
{
    '0' <= c && c <= '9'
}

/// The position after the digits that begin at `from`.
pub fn skip_digits(span: &[char], from: usize) -> (r: usize)
    ensures
        r == from + digit_run(span@, from as int),
        from <= span@.len() ==> r <= span@.len(),
{
    let mut i: usize = from;
    while i < span.len() && is_digit_char(span[i])
        invariant
            from <= i,
            from <= span@.len() ==> i <= span@.len(),
            from + digit_run(span@, from as int) == i + digit_run(span@, i as int),
        decreases span@.len() - i,
    {
        i += 1;
    }
    i
}

/// Whether `span` is a number in decimal notation.
pub fn is_number_text(span: &[char]) -> (r: bool)
    ensures
        r == is_number(span@),
{
    let n = span.len();
    let start: usize = if n > 0 && span[0] == '-' {
        1
    } else {
        0
    };
    let int_end = skip_digits(span, start);
    if int_end == start {
        return false;
    }
    if span[start] == '0' && int_end - start > 1 {
        return false;
    }
    let mut pos: usize = int_end;
    if pos < n && span[pos] == '.' {
        let end = skip_digits(span, pos + 1);
        if end == pos + 1 {
            return false;
        }
        pos = end;
    }
    if pos < n && (span[pos] == 'e' || span[pos] == 'E') {
        let mut digits: usize = pos + 1;
        if digits < n && (span[digits] == '+' || span[digits] == '-') {
            digits += 1;
        }
        let end = skip_digits(span, digits);
        if end == digits {
            return false;
        }
        pos = end;
    }
    pos == n
}

} // verus!

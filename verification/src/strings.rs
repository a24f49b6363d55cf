//! String literals: which spans are one, and the text that they stand for
//! once their escapes are decoded.
use vstd::prelude::*;
use crate::scan::{state_after, ScanState, Scanner};
use crate::scan::lemma_state_bounds;

verus! {

/// `char::from_u32` of the standard library: the character with the given
/// code where there is one, that is for every number up to 0x10FFFF outside
/// the surrogate range 0xD800 to 0xDFFF, and `None` for any other number.
pub assume_specification[ char::from_u32 ](i: u32) -> (r: Option<char>)
    ensures
        r == (if i < 0xD800 || 0xE000 <= i <= 0x10FFFF {
            Some(i as char)
        } else {
            None
        }),
;

/// Whether `s` is exactly one string literal: it opens with a quote, and the
/// first quote after it that no backslash escapes is its last character.
pub open spec fn is_string_token(s: Seq<char>) -> bool {
    &&& s.len() >= 2
    &&& s[0] == '"'
    &&& forall|k: int| 1 <= k < s.len() ==> (#[trigger] state_after(s, k)).in_string
    &&& !state_after(s, s.len() as int).in_string
}

/// What stands between the quotes of a string literal.
pub open spec fn string_body(s: Seq<char>) -> Seq<char> {
    s.subrange(1, s.len() - 1)
}

/// The value of a hexadecimal digit.
pub open spec fn hex_value(c: char) -> Option<int> {
    if '0' <= c <= '9' {
        Some(c as int - '0' as int)
    } else if 'a' <= c <= 'f' {
        Some(c as int - 'a' as int + 10)
    } else if 'A' <= c <= 'F' {
        Some(c as int - 'A' as int + 10)
    } else {
        None
    }
}

/// The number that the four hexadecimal digits at positions `i` to `i + 3`
/// of `s` write, where there are four.
pub open spec fn hex4(s: Seq<char>, i: int) -> Option<int> {
    if 0 <= i && i + 4 <= s.len() && hex_value(s[i]) is Some && hex_value(s[i + 1]) is Some
        && hex_value(s[i + 2]) is Some && hex_value(s[i + 3]) is Some {
        Some(
            ((hex_value(s[i])->0 * 16 + hex_value(s[i + 1])->0) * 16 + hex_value(s[i + 2])->0) * 16
                + hex_value(s[i + 3])->0,
        )
    } else {
        None
    }
}

/// The character that the escape `\uXXXX` at position `i` stands for, and
/// how many characters the escape takes. A code in the upper surrogate range
/// must be followed by a second escape with a code in the lower range; the
/// two together stand for one character. A surrogate alone stands for none.
pub open spec fn unicode_escape(s: Seq<char>, i: int) -> Option<(char, int)> {
    match hex4(s, i + 2) {
        None => None,
        Some(hi) => if hi < 0xD800 || hi > 0xDFFF {
            Some((hi as char, 6))
        } else if hi <= 0xDBFF && i + 7 < s.len() && s[i + 6] == '\\' && s[i + 7] == 'u' {
            match hex4(s, i + 8) {
                None => None,
                Some(lo) => if 0xDC00 <= lo <= 0xDFFF {
                    Some(((0x10000 + (hi - 0xD800) * 0x400 + (lo - 0xDC00)) as char, 12))
                } else {
                    None
                },
            }
        } else {
            None
        },
    }
}

/// The character that the escape beginning with the backslash at position
/// `i` stands for, and how many characters the escape takes. `None` where
/// the backslash begins no escape of the notation.
pub open spec fn escape_at(s: Seq<char>, i: int) -> Option<(char, int)> {
    if i < 0 || i + 1 >= s.len() {
        None
    } else {
        let e = s[i + 1];
        if e == '"' || e == '\\' || e == '/' {
            Some((e, 2))
        } else if e == 'b' {
            Some(('\u{8}', 2))
        } else if e == 'f' {
            Some(('\u{c}', 2))
        } else if e == 'n' {
            Some(('\n', 2))
        } else if e == 'r' {
            Some(('\r', 2))
        } else if e == 't' {
            Some(('\t', 2))
        } else if e == 'u' {
            unicode_escape(s, i)
        } else {
            None
        }
    }
}

/// `c` put before the characters of `rest`, where there are any to extend.
pub open spec fn prepend(c: char, rest: Option<Seq<char>>) -> Option<Seq<char>> {
    match rest {
        Some(r) => Some(seq![c] + r),
        None => None,
    }
}

/// `front` put before the characters of `rest`, where there are any to extend.
pub open spec fn join(front: Seq<char>, rest: Option<Seq<char>>) -> Option<Seq<char>> {
    match rest {
        Some(r) => Some(front + r),
        None => None,
    }
}

/// The text that `s` stands for from position `i` on: each character for
/// itself, each escape for its character. `None` where a backslash begins no
/// escape.
pub open spec fn unescape_from(s: Seq<char>, i: int) -> Option<Seq<char>>
    decreases s.len() - i,
{
    if i < 0 || i >= s.len() {
        Some(Seq::empty())
    } else if s[i] != '\\' {
        prepend(s[i], unescape_from(s, i + 1))
    } else {
        match escape_at(s, i) {
            None => None,
            Some((c, used)) => if used >= 1 {
                prepend(c, unescape_from(s, i + used))
            } else {
                None
            },
        }
    }
}

/// The text that the body of a string literal stands for.
pub open spec fn unescape(s: Seq<char>) -> Option<Seq<char>> {
    unescape_from(s, 0)
}

/// The text of the string literal `s`, where `s` is one and its escapes are
/// those of the notation.
pub open spec fn string_value(s: Seq<char>) -> Option<Seq<char>> {
    if is_string_token(s) {
        unescape(string_body(s))
    } else {
        None
    }
}

/// The scan of a string literal stays at depth 0 and ends as it began, and
/// the literal ends with a quote.
pub(crate) proof fn lemma_string_token_scan(s: Seq<char>)
    requires
        is_string_token(s),
    ensures
        forall|i: int| 0 <= i <= s.len() ==> (#[trigger] state_after(s, i)).depth == 0,
        state_after(s, s.len() as int) == ScanState::start(),
        s.last() == '"',
{
    assert forall|i: int| 0 <= i <= s.len() implies (#[trigger] state_after(s, i)).depth == 0 by {
        lemma_depth_in_token(s, i);
    }
    lemma_depth_in_token(s, s.len() - 1);
}

proof fn lemma_depth_in_token(s: Seq<char>, i: int)
    requires
        is_string_token(s),
        0 <= i <= s.len(),
    ensures
        state_after(s, i).depth == 0,
        state_after(s, i).escape_pending ==> state_after(s, i).in_string,
    decreases i,
{
    if i > 0 {
        lemma_depth_in_token(s, i - 1);
        if i > 1 {
            assert(state_after(s, i - 1).in_string);
        }
    }
}

proof fn lemma_join_push(front: Seq<char>, c: char, rest: Option<Seq<char>>)
    ensures
        join(front.push(c), rest) == join(front, prepend(c, rest)),
{
    if let Some(r) = rest {
        assert(front.push(c) + r == front + (seq![c] + r));
    }
}

/// The body of the string literal `span`, where `span` is one.
pub fn literal_body(span: &[char]) -> (r: Option<&[char]>)
    ensures
        match r {
            Some(body) => is_string_token(span@) && body@ == string_body(span@),
            None => !is_string_token(span@),
        },
{
    let n = span.len();
    if n < 2 || span[0] != '"' {
        return None;
    }
    let mut st = Scanner::new().step(span[0]);
    let mut i: usize = 1;
    assert(state_after(span@, 0) == ScanState::start());
    while i < n - 1
        invariant
            2 <= n == span@.len(),
            1 <= i <= n - 1,
            st@ == state_after(span@, i as int),
            st.in_string,
            st.depth <= i,
            forall|k: int| 1 <= k <= i ==> (#[trigger] state_after(span@, k)).in_string,
        decreases n - i,
    {
        st = st.step(span[i]);
        i += 1;
        proof {
            lemma_state_bounds(span@, i as int);
        }
        if !st.in_string {
            return None;
        }
    }
    st = st.step(span[i]);
    if st.in_string {
        None
    } else {
        Some(vstd::slice::slice_subrange(span, 1, n - 1))
    }
}

/// The value of the hexadecimal digit `c`.
pub fn hex_digit(c: char) -> (r: Option<u32>)
    ensures
        match r {
            Some(v) => hex_value(c) == Some(v as int) && v < 16,
            None => hex_value(c) is None,
        },
{
    if '0' <= c && c <= '9' {
        Some(c as u32 - '0' as u32)
    } else if 'a' <= c && c <= 'f' {
        Some(c as u32 - 'a' as u32 + 10)
    } else if 'A' <= c && c <= 'F' {
        Some(c as u32 - 'A' as u32 + 10)
    } else {
        None
    }
}

/// The number that the four hexadecimal digits at position `i` write.
pub fn read_hex4(span: &[char], i: usize) -> (r: Option<u32>)
    ensures
        match r {
            Some(v) => hex4(span@, i as int) == Some(v as int) && v <= 0xFFFF,
            None => hex4(span@, i as int) is None,
        },
{
    let n = span.len();
    if i > n || n - i < 4 {
        return None;
    }
    let a = match hex_digit(span[i]) {
        Some(v) => v,
        None => { return None; },
    };
    let b = match hex_digit(span[i + 1]) {
        Some(v) => v,
        None => { return None; },
    };
    let c = match hex_digit(span[i + 2]) {
        Some(v) => v,
        None => { return None; },
    };
    let d = match hex_digit(span[i + 3]) {
        Some(v) => v,
        None => { return None; },
    };
    Some(((a * 16 + b) * 16 + c) * 16 + d)
}

/// The character of the `\uXXXX` escape at position `i`, and its length.
fn read_unicode_escape(span: &[char], i: usize) -> (r: Option<(char, usize)>)
    requires
        i + 1 < span@.len(),
    ensures
        match r {
            Some((c, used)) => unicode_escape(span@, i as int) == Some((c, used as int)) && 2
                <= used && i + used <= span@.len(),
            None => unicode_escape(span@, i as int) is None,
        },
{
    let n = span.len();
    let hi = match read_hex4(span, i + 2) {
        Some(v) => v,
        None => { return None; },
    };
    if hi < 0xD800 || hi > 0xDFFF {
        match char::from_u32(hi) {
            Some(c) => Some((c, 6)),
            None => None,
        }
    } else if hi <= 0xDBFF && n - i > 7 && span[i + 6] == '\\' && span[i + 7] == 'u' {
        let lo = match read_hex4(span, i + 8) {
            Some(v) => v,
            None => { return None; },
        };
        if 0xDC00 <= lo && lo <= 0xDFFF {
            let code: u32 = 0x10000 + (hi - 0xD800) * 0x400 + (lo - 0xDC00);
            match char::from_u32(code) {
                Some(c) => Some((c, 12)),
                None => None,
            }
        } else {
            None
        }
    } else {
        None
    }
}

/// The character of the escape at position `i`, and its length.
pub fn read_escape(span: &[char], i: usize) -> (r: Option<(char, usize)>)
    ensures
        match r {
            Some((c, used)) => escape_at(span@, i as int) == Some((c, used as int)) && 2 <= used
                && i + used <= span@.len(),
            None => escape_at(span@, i as int) is None,
        },
{
    let n = span.len();
    if i >= n || n - i < 2 {
        return None;
    }
    let e = span[i + 1];
    if e == '"' || e == '\\' || e == '/' {
        Some((e, 2))
    } else if e == 'b' {
        Some(('\u{8}', 2))
    } else if e == 'f' {
        Some(('\u{c}', 2))
    } else if e == 'n' {
        Some(('\n', 2))
    } else if e == 'r' {
        Some(('\r', 2))
    } else if e == 't' {
        Some(('\t', 2))
    } else if e == 'u' {
        read_unicode_escape(span, i)
    } else {
        None
    }
}

/// The text that the body of a string literal stands for.
pub fn decode_body(body: &[char]) -> (r: Option<String>)
    ensures
        match r {
            Some(t) => unescape(body@) == Some(t@),
            None => unescape(body@) is None,
        },
{
    let n = body.len();
    let mut out = String::new();
    let mut i: usize = 0;
    proof {
        assert(Seq::<char>::empty() + unescape(body@)->0 == unescape(body@)->0);
    }
    while i < n
        invariant
            i <= n == body@.len(),
            unescape(body@) == join(out@, unescape_from(body@, i as int)),
        decreases n - i,
    {
        let c = body[i];
        if c != '\\' {
            proof {
                lemma_join_push(out@, c, unescape_from(body@, i + 1));
            }
            out.push(c);
            i += 1;
        } else {
            match read_escape(body, i) {
                None => {
                    return None;
                },
                Some((ch, used)) => {
                    proof {
                        lemma_join_push(out@, ch, unescape_from(body@, i + used));
                    }
                    out.push(ch);
                    i += used;
                },
            }
        }
    }
    proof {
        assert(out@ + Seq::<char>::empty() == out@);
    }
    Some(out)
}

/// The text of the string literal `span`, where `span` is one and its
/// escapes are those of the notation.
pub fn read_string(span: &[char]) -> (r: Option<String>)
    ensures
        match r {
            Some(t) => string_value(span@) == Some(t@),
            None => string_value(span@) is None,
        },
{
    match literal_body(span) {
        Some(body) => decode_body(body),
        None => None,
    }
}

} // verus!

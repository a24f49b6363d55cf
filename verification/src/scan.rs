//! The scanner: a pass from left to right that knows at every character
//! how many brackets are open and whether it stands inside a string, and
//! with it the places at which a separator splits a text.
use vstd::prelude::*;

verus! {

/// What a left-to-right scan of a span has to remember: how many brackets are
/// open, whether it stands inside a string literal, and whether the character
/// before was a backslash that escapes the next one.
pub ghost struct ScanState {
    pub depth: nat,
    pub in_string: bool,
    pub escape_pending: bool,
}

impl ScanState {
    /// The state before the first character.
    pub open spec fn start() -> ScanState {
        ScanState { depth: 0, in_string: false, escape_pending: false }
    }

    /// Outside every bracket and every string literal.
    pub open spec fn top_level(self) -> bool {
        self.depth == 0 && !self.in_string
    }

    /// The state after reading `c`. Inside a string only a quote that is not
    /// escaped changes anything; outside, brackets change the depth, and a
    /// closing bracket with nothing open is passed over.
    pub open spec fn step(self, c: char) -> ScanState {
        if self.in_string {
            if self.escape_pending {
                ScanState { escape_pending: false, ..self }
            } else if c == '\\' {
                ScanState { escape_pending: true, ..self }
            } else if c == '"' {
                ScanState { in_string: false, ..self }
            } else {
                self
            }
        } else if c == '"' {
            ScanState { in_string: true, ..self }
        } else if c == '{' || c == '[' {
            ScanState { depth: self.depth + 1, ..self }
        } else if (c == '}' || c == ']') && self.depth > 0 {
            ScanState { depth: (self.depth - 1) as nat, ..self }
        } else {
            self
        }
    }
}

/// The state of the scan after the first `n` characters of `s`.
pub open spec fn state_after(s: Seq<char>, n: int) -> ScanState
    decreases n,
{
    if n <= 0 {
        ScanState::start()
    } else {
        state_after(s, n - 1).step(s[n - 1])
    }
}

/// The state of the scan at the end of `s`.
pub open spec fn end_state(s: Seq<char>) -> ScanState {
    state_after(s, s.len() as int)
}

/// Position `i` of `s` holds the separator `sep`, outside every bracket and
/// every string literal.
pub open spec fn splits_at(s: Seq<char>, i: int, sep: char) -> bool {
    0 <= i < s.len() && s[i] == sep && state_after(s, i).top_level()
}

/// The first position from `from` on at which `sep` splits `s`.
pub open spec fn first_split_from(s: Seq<char>, sep: char, from: int) -> Option<int>
    decreases s.len() - from,
{
    if from >= s.len() {
        None
    } else if splits_at(s, from, sep) {
        Some(from)
    } else {
        first_split_from(s, sep, from + 1)
    }
}

/// The first position at which `sep` splits `s`.
pub open spec fn first_split(s: Seq<char>, sep: char) -> Option<int> {
    first_split_from(s, sep, 0)
}

/// The pieces of `s` between the positions at which `sep` splits it, in
/// order. There is always at least one piece.
pub open spec fn split_top(s: Seq<char>, sep: char) -> Seq<Seq<char>>
    decreases s.len(),
{
    match first_split(s, sep) {
        Some(i) => if 0 <= i < s.len() {
            seq![s.subrange(0, i)] + split_top(s.subrange(i + 1, s.len() as int), sep)
        } else {
            seq![s]
        },
        None => seq![s],
    }
}

/// The character sequences that the slices of `parts` hold.
pub open spec fn spans(parts: Seq<&[char]>) -> Seq<Seq<char>> {
    parts.map_values(|p: &[char]| p@)
}

/// `first_split_from` finds a splitting position, and the least one.
pub(crate) proof fn lemma_first_split_from(s: Seq<char>, sep: char, from: int)
    requires
        0 <= from,
    ensures
        match first_split_from(s, sep, from) {
            Some(j) => from <= j < s.len() && splits_at(s, j, sep) && forall|k: int|
                from <= k < j ==> !splits_at(s, k, sep),
            None => forall|k: int| from <= k < s.len() ==> !splits_at(s, k, sep),
        },
    decreases s.len() - from,
{
    if from < s.len() && !splits_at(s, from, sep) {
        lemma_first_split_from(s, sep, from + 1);
    }
}

/// The depth never exceeds the number of characters read, and an escape is
/// pending only inside a string.
pub(crate) proof fn lemma_state_bounds(s: Seq<char>, n: int)
    requires
        0 <= n,
    ensures
        state_after(s, n).depth <= n,
        state_after(s, n).escape_pending ==> state_after(s, n).in_string,
    decreases n,
{
    if n > 0 {
        lemma_state_bounds(s, n - 1);
    }
}

/// The state after `n` characters depends on those characters alone.
pub(crate) proof fn lemma_state_of_prefix(a: Seq<char>, b: Seq<char>, n: int)
    requires
        0 <= n <= a.len(),
        n <= b.len(),
        forall|i: int| 0 <= i < n ==> a[i] == b[i],
    ensures
        state_after(a, n) == state_after(b, n),
    decreases n,
{
    if n > 0 {
        lemma_state_of_prefix(a, b, n - 1);
    }
}

/// After a text that ends outside every bracket and string, the scan of what
/// follows goes on as from the start.
pub(crate) proof fn lemma_state_restarts(a: Seq<char>, b: Seq<char>, n: int)
    requires
        end_state(a) == ScanState::start(),
        0 <= n <= b.len(),
    ensures
        state_after(a + b, a.len() + n) == state_after(b, n),
    decreases n,
{
    if n == 0 {
        lemma_state_of_prefix(a + b, a, a.len() as int);
    } else {
        lemma_state_restarts(a, b, n - 1);
    }
}

/// A position that splits, with none before it that does, is the first.
pub(crate) proof fn lemma_first_split_is(s: Seq<char>, sep: char, j: int)
    requires
        splits_at(s, j, sep),
        forall|i: int| 0 <= i < j ==> !splits_at(s, i, sep),
    ensures
        first_split(s, sep) == Some(j),
{
    lemma_first_split_from(s, sep, 0);
}

/// A text that no position splits is its own single piece.
pub(crate) proof fn lemma_no_split(s: Seq<char>, sep: char)
    requires
        forall|i: int| 0 <= i < s.len() ==> !splits_at(s, i, sep),
    ensures
        first_split(s, sep) is None,
        split_top(s, sep) == seq![s],
{
    lemma_first_split_from(s, sep, 0);
}

/// The scanner: the state of a left-to-right scan, held in machine values.
#[derive(Clone, Copy, Debug, PartialEq, Eq)]
pub struct Scanner {
    pub depth: usize,
    pub in_string: bool,
    pub escape_pending: bool,
}

impl View for Scanner {
    type V = ScanState;

    open spec fn view(&self) -> ScanState {
        ScanState {
            depth: self.depth as nat,
            in_string: self.in_string,
            escape_pending: self.escape_pending,
        }
    }
}

impl Scanner {
    /// The scanner before the first character.
    pub fn new() -> (r: Scanner)
        ensures
            r@ == ScanState::start(),
    {
        Scanner { depth: 0, in_string: false, escape_pending: false }
    }

    /// Whether the scanner stands outside every bracket and string.
    pub fn top_level(&self) -> (r: bool)
        ensures
            r == self@.top_level(),
    {
        self.depth == 0 && !self.in_string
    }

    /// Reads one character.
    pub fn step(self, c: char) -> (r: Scanner)
        requires
            self.depth < usize::MAX,
        ensures
            r@ == self@.step(c),
    {
        if self.in_string {
            if self.escape_pending {
                Scanner { escape_pending: false, ..self }
            } else if c == '\\' {
                Scanner { escape_pending: true, ..self }
            } else if c == '"' {
                Scanner { in_string: false, ..self }
            } else {
                self
            }
        } else if c == '"' {
            Scanner { in_string: true, ..self }
        } else if c == '{' || c == '[' {
            Scanner { depth: self.depth + 1, ..self }
        } else if (c == '}' || c == ']') && self.depth > 0 {
            Scanner { depth: self.depth - 1, ..self }
        } else {
            self
        }
    }
}

/// Scans the whole of `span`.
pub fn scan(span: &[char]) -> (r: Scanner)
    ensures
        r@ == end_state(span@),
{
    let mut st = Scanner::new();
    let mut i: usize = 0;
    while i < span.len()
        invariant
            i <= span.len(),
            st@ == state_after(span@, i as int),
            st.depth <= i,
        decreases span.len() - i,
    {
        st = st.step(span[i]);
        i += 1;
        proof {
            lemma_state_bounds(span@, i as int);
        }
    }
    st
}

/// The first position at which `sep` splits `span`, if there is one.
pub fn find_split(span: &[char], sep: char) -> (r: Option<usize>)
    ensures
        match r {
            Some(i) => i < span@.len() && first_split(span@, sep) == Some(i as int),
            None => first_split(span@, sep) is None,
        },
{
    let mut st = Scanner::new();
    let mut i: usize = 0;
    while i < span.len()
        invariant
            i <= span.len(),
            st@ == state_after(span@, i as int),
            st.depth <= i,
            first_split(span@, sep) == first_split_from(span@, sep, i as int),
        decreases span.len() - i,
    {
        if span[i] == sep && st.top_level() {
            return Some(i);
        }
        st = st.step(span[i]);
        i += 1;
        proof {
            lemma_state_bounds(span@, i as int);
        }
    }
    None
}

/// The pieces of `span` between the positions at which `sep` splits it.
pub fn split_top_level<'a>(span: &'a [char], sep: char) -> (r: Vec<&'a [char]>)
    ensures
        spans(r@) == split_top(span@, sep),
{
    let mut parts: Vec<&'a [char]> = Vec::new();
    let mut rest: &'a [char] = span;
    loop
        invariant
            split_top(span@, sep) == spans(parts@) + split_top(rest@, sep),
        decreases rest@.len(),
    {
        let n = rest.len();
        match find_split(rest, sep) {
            Some(i) => {
                let piece = vstd::slice::slice_subrange(rest, 0, i);
                let after = vstd::slice::slice_subrange(rest, i + 1, n);
                proof {
                    assert(spans(parts@.push(piece)) == spans(parts@).push(piece@));
                }
                parts.push(piece);
                rest = after;
            },
            None => {
                proof {
                    assert(spans(parts@.push(rest)) == spans(parts@).push(rest@));
                }
                parts.push(rest);
                return parts;
            },
        }
    }
}

} // verus!

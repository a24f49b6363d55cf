//! The values of documents: the mathematical value, and the tree that
//! holds it in memory.
use vstd::prelude::*;
use crate::number::{is_number, is_number_text};
use crate::text::text_of;
use vstd::set_lib::lemma_subset_equality;
use vstd::std_specs::cmp::PartialEqSpecImpl;

verus! {

/// The mathematical value of a JSON document. An object is a map from keys
/// to values, so its members have no order and no key occurs twice. A number
/// is the decimal notation that the document gave it.
pub ghost enum Json {
    Object(Map<Seq<char>, Json>),
    Array(Seq<Json>),
    String(Seq<char>),
    Number(Seq<char>),
    Bool(bool),
    Null,
}

/// A number of a document, kept in the decimal notation in which it was
/// written. Every value of this type holds a well-formed number.
#[derive(Debug)]
pub struct JsonNumber {
    text: String,
}

/// The members of an object. No key occurs twice. The members are kept in a
/// vector and found by linear search: of a hash map keyed by strings vstd
/// gives proofs nothing to go by, and its own string map cannot hold a type
/// that holds it in turn.
#[derive(Debug)]
pub struct JsonObject {
    entries: Vec<(String, JsonValue)>,
}

/// A JSON document in memory.
#[derive(Debug)]
pub enum JsonValue {
    Object(JsonObject),
    Array(Vec<JsonValue>),
    String(String),
    Number(JsonNumber),
    Bool(bool),
    Null,
}

impl View for JsonNumber {
    type V = Seq<char>;

    closed spec fn view(&self) -> Seq<char> {
        self.text@
    }
}

impl JsonNumber {
    #[verifier::type_invariant]
    spec fn well_formed(&self) -> bool {
        is_number(self.text@)
    }

    /// The number that `span` writes, where it writes one.
    pub fn from_chars(span: &[char]) -> (r: Option<JsonNumber>)
        ensures
            match r {
                Some(n) => is_number(span@) && n@ == span@,
                None => !is_number(span@),
            },
    {
        if is_number_text(span) {
            Some(JsonNumber { text: text_of(span) })
        } else {
            None
        }
    }

    /// Whether the two numbers are written alike.
    pub fn same_as(&self, other: &JsonNumber) -> (r: bool)
        ensures
            r == (self@ == other@),
    {
        self.text == other.text
    }

    /// The decimal notation of the number.
    pub fn as_str(&self) -> (r: &str)
        ensures
            r@ == self@,
            is_number(r@),
    {
        proof {
            use_type_invariant(self);
        }
        self.text.as_str()
    }
}

/// No two of the entries have the same key.
spec fn keys_distinct(entries: Seq<(String, JsonValue)>) -> bool {
    forall|i: int, j: int|
        0 <= i < j < entries.len() ==> (#[trigger] entries[i]).0@ != (#[trigger] entries[j]).0@
}

/// The map that the first `n` entries make, a later entry replacing an
/// earlier one with the same key.
spec fn map_of(entries: Seq<(String, JsonValue)>, n: nat) -> Map<Seq<char>, Json>
    decreases entries, n,
{
    if n == 0 || n > entries.len() {
        Map::empty()
    } else {
        map_of(entries, (n - 1) as nat).insert(entries[n - 1].0@, entries[n - 1].1.view())
    }
}

/// The values that the items stand for, in order.
pub open spec fn views_of(items: Seq<JsonValue>) -> Seq<Json>
    decreases items,
{
    Seq::new(
        items.len(),
        |i: int|
            if 0 <= i < items.len() {
                items[i].view()
            } else {
                Json::Null
            },
    )
}

impl View for JsonObject {
    type V = Map<Seq<char>, Json>;

    closed spec fn view(&self) -> Map<Seq<char>, Json>
        decreases self,
    {
        map_of(self.entries@, self.entries@.len())
    }
}

impl View for JsonValue {
    type V = Json;

    open spec fn view(&self) -> Json
        decreases self,
    {
        match self {
            JsonValue::Object(o) => Json::Object(o.view()),
            JsonValue::Array(items) => Json::Array(views_of(items@)),
            JsonValue::String(s) => Json::String(s@),
            JsonValue::Number(n) => Json::Number(n@),
            JsonValue::Bool(b) => Json::Bool(*b),
            JsonValue::Null => Json::Null,
        }
    }
}

/// The keys of the map are the keys of the entries, and with distinct keys
/// each entry's value is the map's value at its key.
proof fn lemma_map_of(entries: Seq<(String, JsonValue)>, n: nat)
    requires
        n <= entries.len(),
    ensures
        map_of(entries, n).dom().finite(),
        forall|k: Seq<char>| #[trigger]
            map_of(entries, n).contains_key(k) <==> exists|i: int|
                0 <= i < n && (#[trigger] entries[i]).0@ == k,
        keys_distinct(entries) ==> map_of(entries, n).len() == n,
        keys_distinct(entries) ==> forall|i: int|
            0 <= i < n ==> map_of(entries, n)[(#[trigger] entries[i]).0@] == entries[i].1@,
    decreases n,
{
    if n > 0 {
        let before = map_of(entries, (n - 1) as nat);
        let last = entries[n - 1];
        lemma_map_of(entries, (n - 1) as nat);
        assert(map_of(entries, n) == before.insert(last.0@, last.1@));
        assert forall|k: Seq<char>| #[trigger]
            map_of(entries, n).contains_key(k) implies exists|i: int|
            0 <= i < n && (#[trigger] entries[i]).0@ == k by {
            if k == last.0@ {
                assert(entries[n - 1].0@ == k);
            } else {
                let i = choose|i: int| 0 <= i < n - 1 && (#[trigger] entries[i]).0@ == k;
                assert(0 <= i < n && entries[i].0@ == k);
            }
        }
        assert forall|k: Seq<char>|
            (exists|i: int|
                0 <= i < n && (#[trigger] entries[i]).0@ == k) implies #[trigger] map_of(
            entries,
            n,
        ).contains_key(k) by {
            let i = choose|i: int| 0 <= i < n && (#[trigger] entries[i]).0@ == k;
            if i < n - 1 {
                assert(before.contains_key(k));
            }
        }
        if keys_distinct(entries) {
            assert(!before.contains_key(last.0@)) by {
                if before.contains_key(last.0@) {
                    let i = choose|i: int| 0 <= i < n - 1 && (#[trigger] entries[i]).0@ == last.0@;
                    assert(entries[i].0@ != entries[n - 1].0@);
                }
            }
            assert forall|i: int| 0 <= i < n implies map_of(entries, n)[(
            #[trigger] entries[i]).0@] == entries[i].1@ by {
                if i < n - 1 {
                    assert(entries[i].0@ != entries[n - 1].0@);
                }
            }
        }
    }
}

/// Putting a new value at the place of an entry, under the same key, gives
/// the map that `insert` gives.
proof fn lemma_replaced(
    before: Seq<(String, JsonValue)>,
    after: Seq<(String, JsonValue)>,
    i: int,
)
    requires
        keys_distinct(before),
        0 <= i < before.len(),
        after.len() == before.len(),
        after[i].0@ == before[i].0@,
        forall|a: int| 0 <= a < before.len() && a != i ==> after[a] == before[a],
    ensures
        keys_distinct(after),
        map_of(after, after.len()) == map_of(before, before.len()).insert(
            after[i].0@,
            after[i].1@,
        ),
{
    assert forall|a: int, b: int| 0 <= a < b < after.len() implies (#[trigger] after[a]).0@ != (
    #[trigger] after[b]).0@ by {
        assert(before[a].0@ != before[b].0@);
    }
    lemma_map_of(before, before.len());
    lemma_map_of(after, after.len());
    let left = map_of(after, after.len());
    let right = map_of(before, before.len()).insert(after[i].0@, after[i].1@);
    assert forall|k: Seq<char>| left.contains_key(k) <==> right.contains_key(k) by {
        if left.contains_key(k) {
            let a = choose|a: int| 0 <= a < after.len() && (#[trigger] after[a]).0@ == k;
            assert(before[a].0@ == k);
        }
        if right.contains_key(k) {
            if k != after[i].0@ {
                let a = choose|a: int| 0 <= a < before.len() && (#[trigger] before[a]).0@ == k;
                assert(after[a].0@ == k);
            }
        }
    }
    assert forall|k: Seq<char>| left.contains_key(k) implies left[k] == right[k] by {
        let a = choose|a: int| 0 <= a < after.len() && (#[trigger] after[a]).0@ == k;
        assert(left[after[a].0@] == after[a].1@);
        if a != i {
            assert(before[a].0@ != before[i].0@);
        }
    }
}

/// Putting an entry with a new key behind the others gives the map that
/// `insert` gives.
proof fn lemma_appended(before: Seq<(String, JsonValue)>, after: Seq<(String, JsonValue)>)
    requires
        keys_distinct(before),
        after.len() == before.len() + 1,
        forall|a: int| 0 <= a < before.len() ==> after[a] == before[a],
        forall|a: int| 0 <= a < before.len() ==> (#[trigger] before[a]).0@ != after.last().0@,
    ensures
        keys_distinct(after),
        map_of(after, after.len()) == map_of(before, before.len()).insert(
            after.last().0@,
            after.last().1@,
        ),
{
    let n = before.len() as int;
    assert forall|a: int, b: int| 0 <= a < b < after.len() implies (#[trigger] after[a]).0@ != (
    #[trigger] after[b]).0@ by {
        if b < n {
            assert(before[a].0@ != before[b].0@);
        } else {
            assert(before[a].0@ != after.last().0@);
        }
    }
    lemma_map_of(before, before.len());
    lemma_map_of(after, after.len());
    let left = map_of(after, after.len());
    let right = map_of(before, before.len()).insert(after.last().0@, after.last().1@);
    assert forall|k: Seq<char>| left.contains_key(k) <==> right.contains_key(k) by {
        if left.contains_key(k) {
            let a = choose|a: int| 0 <= a < after.len() && (#[trigger] after[a]).0@ == k;
            if a < n {
                assert(before[a].0@ == k);
            }
        }
        if right.contains_key(k) {
            if k == after.last().0@ {
                assert(after[n].0@ == k);
            } else {
                let a = choose|a: int| 0 <= a < before.len() && (#[trigger] before[a]).0@ == k;
                assert(after[a].0@ == k);
            }
        }
    }
    assert forall|k: Seq<char>| left.contains_key(k) implies left[k] == right[k] by {
        let a = choose|a: int| 0 <= a < after.len() && (#[trigger] after[a]).0@ == k;
        assert(left[after[a].0@] == after[a].1@);
        if a < n {
            assert(before[a].0@ != after.last().0@);
        }
    }
}

/// Where the entry with the given key stands, if there is one.
fn position_of(entries: &Vec<(String, JsonValue)>, key: &String) -> (r: Option<usize>)
    ensures
        match r {
            Some(i) => i < entries@.len() && entries@[i as int].0@ == key@,
            None => forall|i: int| 0 <= i < entries@.len() ==> (#[trigger] entries@[i]).0@ != key@,
        },
{
    let mut i: usize = 0;
    while i < entries.len()
        invariant
            i <= entries@.len(),
            forall|j: int| 0 <= j < i ==> (#[trigger] entries@[j]).0@ != key@,
        decreases entries@.len() - i,
    {
        if entries[i].0 == *key {
            return Some(i);
        }
        i += 1;
    }
    None
}

impl JsonObject {
    #[verifier::type_invariant]
    spec fn well_formed(&self) -> bool {
        keys_distinct(self.entries@)
    }

    /// The object without members.
    pub fn new() -> (r: JsonObject)
        ensures
            r@ == Map::<Seq<char>, Json>::empty(),
    {
        JsonObject { entries: Vec::new() }
    }

    /// The number of members.
    pub fn len(&self) -> (r: usize)
        ensures
            r == self@.len(),
            self@.dom().finite(),
    {
        proof {
            use_type_invariant(self);
            lemma_map_of(self.entries@, self.entries@.len());
        }
        self.entries.len()
    }

    /// Whether the object has no member.
    pub fn is_empty(&self) -> (r: bool)
        ensures
            r == (self@.len() == 0),
            self@.dom().finite(),
    {
        self.len() == 0
    }

    /// The value of the member with the given key, if there is one.
    pub fn get(&self, key: &str) -> (r: Option<&JsonValue>)
        ensures
            match r {
                Some(v) => self@.contains_key(key@) && self@[key@] == v@,
                None => !self@.contains_key(key@),
            },
    {
        proof {
            use_type_invariant(self);
            lemma_map_of(self.entries@, self.entries@.len());
        }
        let owned = key.to_owned();
        match position_of(&self.entries, &owned) {
            Some(i) => Some(&self.entries[i].1),
            None => None,
        }
    }

    /// Whether there is a member with the given key.
    pub fn contains_key(&self, key: &str) -> (r: bool)
        ensures
            r == self@.contains_key(key@),
    {
        self.get(key).is_some()
    }

    /// Gives the key a value: that of a member with this key is replaced,
    /// otherwise the object gets one member more. All other members stay.
    pub fn insert(&mut self, key: String, value: JsonValue)
        ensures
            final(self)@ == old(self)@.insert(key@, value@),
    {
        proof {
            use_type_invariant(&*self);
            lemma_map_of(self.entries@, self.entries@.len());
        }
        let ghost before = self.entries@;
        let mut entries: Vec<(String, JsonValue)> = Vec::new();
        core::mem::swap(&mut self.entries, &mut entries);
        match position_of(&entries, &key) {
            Some(i) => {
                entries[i] = (key, value);
                proof {
                    lemma_replaced(before, entries@, i as int);
                }
            },
            None => {
                entries.push((key, value));
                proof {
                    lemma_appended(before, entries@);
                }
            },
        }
        core::mem::swap(&mut self.entries, &mut entries);
    }

    /// Whether the two objects have the same keys with the same values.
    pub fn same_as(&self, other: &JsonObject) -> (r: bool)
        ensures
            r == (self@ == other@),
        decreases self,
    {
        proof {
            use_type_invariant(self);
            use_type_invariant(other);
            lemma_map_of(self.entries@, self.entries@.len());
            lemma_map_of(other.entries@, other.entries@.len());
        }
        if self.entries.len() != other.entries.len() {
            return false;
        }
        let mut i: usize = 0;
        while i < self.entries.len()
            invariant
                i <= self.entries@.len(),
                self.entries@.len() == other.entries@.len(),
                forall|j: int|
                    0 <= j < i ==> other@.contains_key((#[trigger] self.entries@[j]).0@)
                        && other@[self.entries@[j].0@] == self.entries@[j].1@,
            decreases self.entries@.len() - i,
        {
            proof {
                use_type_invariant(self);
                use_type_invariant(other);
                lemma_map_of(self.entries@, self.entries@.len());
                lemma_map_of(other.entries@, other.entries@.len());
            }
            match position_of(&other.entries, &self.entries[i].0) {
                None => {
                    assert(self@.contains_key(self.entries@[i as int].0@));
                    return false;
                },
                Some(p) => {
                    if !self.entries[i].1.same_as(&other.entries[p].1) {
                        return false;
                    }
                },
            }
            i += 1;
        }
        proof {
            assert forall|k: Seq<char>| self@.contains_key(k) implies other@.contains_key(k)
                && self@[k] == other@[k] by {
                let j = choose|j: int|
                    0 <= j < self.entries@.len() && (#[trigger] self.entries@[j]).0@ == k;
                assert(self@[self.entries@[j].0@] == self.entries@[j].1@);
            }
            lemma_subset_equality(self@.dom(), other@.dom());
            assert(self@ =~= other@);
        }
        true
    }

    /// The members as pairs of key and value, each member once.
    pub fn into_entries(self) -> (r: Vec<(String, JsonValue)>)
        ensures
            r@.len() == self@.len(),
            forall|i: int|
                0 <= i < r@.len() ==> self@.contains_key((#[trigger] r@[i]).0@) && self@[r@[i].0@]
                    == r@[i].1@,
            forall|i: int, j: int|
                0 <= i < j < r@.len() ==> (#[trigger] r@[i]).0@ != (#[trigger] r@[j]).0@,
    {
        proof {
            use_type_invariant(&self);
            lemma_map_of(self.entries@, self.entries@.len());
        }
        self.entries
    }
}

/// Whether the two lists hold the same values in the same order.
fn same_items(a: &Vec<JsonValue>, b: &Vec<JsonValue>) -> (r: bool)
    ensures
        r == (views_of(a@) == views_of(b@)),
    decreases a,
{
    if a.len() != b.len() {
        assert(views_of(a@).len() != views_of(b@).len());
        return false;
    }
    let mut i: usize = 0;
    while i < a.len()
        invariant
            i <= a@.len() == b@.len(),
            forall|j: int| 0 <= j < i ==> (#[trigger] a@[j])@ == b@[j]@,
        decreases a@.len() - i,
    {
        if !a[i].same_as(&b[i]) {
            assert(views_of(a@)[i as int] != views_of(b@)[i as int]);
            return false;
        }
        i += 1;
    }
    assert(views_of(a@) =~= views_of(b@));
    true
}

impl JsonValue {
    /// Whether the two values are the same document: objects with the same
    /// keys and the same values whatever the order of their members, arrays
    /// with the same elements in the same order, equal strings and truth
    /// values, and numbers written alike.
    pub fn same_as(&self, other: &JsonValue) -> (r: bool)
        ensures
            r == (self@ == other@),
        decreases self,
    {
        match (self, other) {
            (JsonValue::Object(a), JsonValue::Object(b)) => a.same_as(b),
            (JsonValue::Array(a), JsonValue::Array(b)) => same_items(a, b),
            (JsonValue::String(a), JsonValue::String(b)) => *a == *b,
            (JsonValue::Number(a), JsonValue::Number(b)) => a.same_as(b),
            (JsonValue::Bool(a), JsonValue::Bool(b)) => *a == *b,
            (JsonValue::Null, JsonValue::Null) => true,
            _ => false,
        }
    }

    /// The members, where the value is an object.
    pub fn as_object(&self) -> (r: Option<&JsonObject>)
        ensures
            match r {
                Some(o) => self@ == Json::Object(o@),
                None => !(self@ is Object),
            },
    {
        match self {
            JsonValue::Object(o) => Some(o),
            _ => None,
        }
    }

    /// The elements, where the value is an array.
    pub fn as_array(&self) -> (r: Option<&Vec<JsonValue>>)
        ensures
            match r {
                Some(items) => self@ == Json::Array(views_of(items@)),
                None => !(self@ is Array),
            },
    {
        match self {
            JsonValue::Array(items) => Some(items),
            _ => None,
        }
    }

    /// The text, where the value is a string.
    pub fn as_str(&self) -> (r: Option<&str>)
        ensures
            match r {
                Some(s) => self@ == Json::String(s@),
                None => !(self@ is String),
            },
    {
        match self {
            JsonValue::String(s) => Some(s.as_str()),
            _ => None,
        }
    }

    /// The number, where the value is one.
    pub fn as_number(&self) -> (r: Option<&JsonNumber>)
        ensures
            match r {
                Some(n) => self@ == Json::Number(n@),
                None => !(self@ is Number),
            },
    {
        match self {
            JsonValue::Number(n) => Some(n),
            _ => None,
        }
    }

    /// The truth value, where the value is one.
    pub fn as_bool(&self) -> (r: Option<bool>)
        ensures
            match r {
                Some(b) => self@ == Json::Bool(b),
                None => !(self@ is Bool),
            },
    {
        match self {
            JsonValue::Bool(b) => Some(*b),
            _ => None,
        }
    }

    /// Whether the value is `null`.
    pub fn is_null(&self) -> (r: bool)
        ensures
            r == (self@ is Null),
    {
        match self {
            JsonValue::Null => true,
            _ => false,
        }
    }
}

impl PartialEq for JsonNumber {
    fn eq(&self, other: &JsonNumber) -> (r: bool) {
        self.same_as(other)
    }
}

impl PartialEqSpecImpl for JsonNumber {
    open spec fn obeys_eq_spec() -> bool {
        true
    }

    open spec fn eq_spec(&self, other: &JsonNumber) -> bool {
        self@ == other@
    }
}

impl PartialEq for JsonObject {
    fn eq(&self, other: &JsonObject) -> (r: bool) {
        self.same_as(other)
    }
}

impl PartialEqSpecImpl for JsonObject {
    open spec fn obeys_eq_spec() -> bool {
        true
    }

    open spec fn eq_spec(&self, other: &JsonObject) -> bool {
        self@ == other@
    }
}

impl PartialEq for JsonValue {
    fn eq(&self, other: &JsonValue) -> (r: bool) {
        self.same_as(other)
    }
}

impl PartialEqSpecImpl for JsonValue {
    open spec fn obeys_eq_spec() -> bool {
        true
    }

    open spec fn eq_spec(&self, other: &JsonValue) -> bool {
        self@ == other@
    }
}

} // verus!

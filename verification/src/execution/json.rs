//! JSON values: variable values, argument values and responses.
use vstd::prelude::*;

use crate::lookup;
use crate::names::same_text;

verus! {

/// A JSON value. Numbers are kept as they are written.
#[derive(Debug, PartialEq)]
pub enum JsonValue {
    Null,
    Bool(bool),
    Number(String),
    String(String),
    Array(Vec<JsonValue>),
    Object(JsonMap),
}

/// A JSON object: its entries in the order in which their keys were first inserted.
#[derive(Debug, PartialEq)]
pub struct JsonMap {
    pub entries: Vec<(String, JsonValue)>,
}

/// What a [`JsonValue`] denotes.
pub enum JsonView {
    Null,
    Bool(bool),
    Number(Seq<char>),
    String(Seq<char>),
    Array(Seq<JsonView>),
    Object(Seq<(Seq<char>, JsonView)>),
}

/// What a JSON value denotes.
pub open spec fn json_view(value: JsonValue) -> JsonView
    decreases value,
{
    match value {
        JsonValue::Null => JsonView::Null,
        JsonValue::Bool(b) => JsonView::Bool(b),
        JsonValue::Number(text) => JsonView::Number(text@),
        JsonValue::String(text) => JsonView::String(text@),
        JsonValue::Array(items) => JsonView::Array(json_items_view(items@)),
        JsonValue::Object(map) => JsonView::Object(json_entries_view(map.entries@)),
    }
}

/// What each of the JSON values denotes.
pub open spec fn json_items_view(items: Seq<JsonValue>) -> Seq<JsonView>
    decreases items,
{
    if items.len() == 0 {
        Seq::empty()
    } else {
        json_items_view(items.drop_last()).push(json_view(items.last()))
    }
}

/// What the entries of a JSON object denote, in their order.
pub open spec fn json_entries_view(entries: Seq<(String, JsonValue)>) -> Seq<(Seq<char>, JsonView)>
    decreases entries,
{
    if entries.len() == 0 {
        Seq::empty()
    } else {
        json_entries_view(entries.drop_last()).push(
            (entries.last().0@, json_view(entries.last().1)),
        )
    }
}

impl View for JsonValue {
    type V = JsonView;

    open spec fn view(&self) -> JsonView {
        json_view(*self)
    }
}

impl View for JsonMap {
    type V = Seq<(Seq<char>, JsonView)>;

    open spec fn view(&self) -> Seq<(Seq<char>, JsonView)> {
        json_entries_view(self.entries@)
    }
}

/// Each entry of a JSON object is denoted at its place.
pub proof fn lemma_json_entries(entries: Seq<(String, JsonValue)>)
    ensures
        json_entries_view(entries).len() == entries.len(),
        forall|i: int|
            0 <= i < entries.len() ==> #[trigger] json_entries_view(entries)[i] == (
                entries[i].0@,
                entries[i].1@,
            ),
    decreases entries.len(),
{
    if entries.len() > 0 {
        lemma_json_entries(entries.drop_last());
    }
}

/// Whether an entry has the given key.
pub open spec fn has_key(key: Seq<char>) -> spec_fn((Seq<char>, JsonView)) -> bool {
    |entry: (Seq<char>, JsonView)| entry.0 == key
}

proof fn lemma_json_items(items: Seq<JsonValue>)
    ensures
        json_items_view(items).len() == items.len(),
        forall|i: int|
            0 <= i < items.len() ==> #[trigger] json_items_view(items)[i] == items[i]@,
    decreases items.len(),
{
    if items.len() > 0 {
        lemma_json_items(items.drop_last());
    }
}

/// JSON values that denote the same are of the same kind, and denote the same part by part.
pub proof fn lemma_same_json(a: JsonValue, b: JsonValue)
    requires
        a@ == b@,
    ensures
        a is Null <==> b is Null,
        a is Bool <==> b is Bool && a->Bool_0 == b->Bool_0,
        a is Number <==> b is Number && a->Number_0@ == b->Number_0@,
        a is String <==> b is String && a->String_0@ == b->String_0@,
        a is Array <==> b is Array,
        a is Array ==> {
            &&& a->Array_0@.len() == b->Array_0@.len()
            &&& forall|i: int|
                0 <= i < a->Array_0@.len() ==> (#[trigger] a->Array_0@[i])@ == b->Array_0@[i]@
        },
        a is Object <==> b is Object,
        a is Object ==> {
            &&& a->Object_0.entries@.len() == b->Object_0.entries@.len()
            &&& forall|i: int|
                0 <= i < a->Object_0.entries@.len() ==> (#[trigger] a->Object_0.entries@[i]).0@
                    == b->Object_0.entries@[i].0@ && a->Object_0.entries@[i].1@
                    == b->Object_0.entries@[i].1@
        },
{
    match (a, b) {
        (JsonValue::Array(x), JsonValue::Array(y)) => {
            lemma_json_items(x@);
            lemma_json_items(y@);
            assert forall|i: int| 0 <= i < x@.len() implies (#[trigger] x@[i])@ == y@[i]@ by {
                assert(json_items_view(x@)[i] == json_items_view(y@)[i]);
            }
        },
        (JsonValue::Object(x), JsonValue::Object(y)) => {
            lemma_json_entries(x.entries@);
            lemma_json_entries(y.entries@);
            assert forall|i: int| 0 <= i < x.entries@.len() implies (
            #[trigger] x.entries@[i]).0@ == y.entries@[i].0@ && x.entries@[i].1@
                == y.entries@[i].1@ by {
                assert(json_entries_view(x.entries@)[i] == json_entries_view(y.entries@)[i]);
            }
        },
        _ => {},
    }
}

/// The value of the first entry with the given key.
pub open spec fn json_get(map: Seq<(Seq<char>, JsonView)>, key: Seq<char>) -> Option<JsonView> {
    match lookup::first_match(map, has_key(key)) {
        Some(entry) => Some(entry.1),
        None => None,
    }
}

/// The object with `key` mapped to `value`: in place of the value that the key has, or in a new
/// last entry.
pub open spec fn json_insert(
    map: Seq<(Seq<char>, JsonView)>,
    key: Seq<char>,
    value: JsonView,
) -> Seq<(Seq<char>, JsonView)>
    decreases map.len(),
{
    if map.len() == 0 {
        seq![(key, value)]
    } else if map[0].0 == key {
        map.update(0, (key, value))
    } else {
        seq![map[0]] + json_insert(map.skip(1), key, value)
    }
}

/// Inserting under a key that is not there adds a last entry.
pub proof fn lemma_json_insert_new(
    map: Seq<(Seq<char>, JsonView)>,
    key: Seq<char>,
    value: JsonView,
)
    requires
        forall|i: int| 0 <= i < map.len() ==> (#[trigger] map[i]).0 != key,
    ensures
        json_insert(map, key, value) == map.push((key, value)),
    decreases map.len(),
{
    if map.len() == 0 {
        assert(map.push((key, value)) =~= seq![(key, value)]);
    } else {
        assert forall|i: int| 0 <= i < map.skip(1).len() implies (#[trigger] map.skip(1)[i]).0
            != key by {
            assert(map.skip(1)[i] == map[i + 1]);
        }
        lemma_json_insert_new(map.skip(1), key, value);
        assert(seq![map[0]] + map.skip(1).push((key, value)) =~= map.push((key, value)));
    }
}

proof fn lemma_json_insert_at(
    map: Seq<(Seq<char>, JsonView)>,
    key: Seq<char>,
    value: JsonView,
    at: int,
)
    requires
        0 <= at < map.len(),
        map[at].0 == key,
        forall|i: int| 0 <= i < at ==> (#[trigger] map[i]).0 != key,
    ensures
        json_insert(map, key, value) == map.update(at, (key, value)),
    decreases map.len(),
{
    if at > 0 {
        assert(map[0].0 != key);
        assert forall|i: int| 0 <= i < at - 1 implies (#[trigger] map.skip(1)[i]).0 != key by {
            assert(map.skip(1)[i] == map[i + 1]);
        }
        assert(map.skip(1)[at - 1] == map[at]);
        lemma_json_insert_at(map.skip(1), key, value, at - 1);
        assert(seq![map[0]] + map.skip(1).update(at - 1, (key, value)) =~= map.update(
            at,
            (key, value),
        ));
    }
}

/// Under a key there is what was inserted last, and inserting under one key changes nothing under
/// any other.
pub proof fn lemma_json_get_insert(
    map: Seq<(Seq<char>, JsonView)>,
    key: Seq<char>,
    value: JsonView,
    other: Seq<char>,
)
    ensures
        json_get(json_insert(map, key, value), key) == Some(value),
        other != key ==> json_get(json_insert(map, key, value), other) == json_get(map, other),
    decreases map.len(),
{
    let more = json_insert(map, key, value);
    if map.len() == 0 {
        assert(more.skip(1) =~= Seq::empty());
        assert(lookup::first_match(more.skip(1), has_key(other)) is None);
    } else if map[0].0 == key {
        assert(more.skip(1) =~= map.skip(1));
    } else {
        lemma_json_get_insert(map.skip(1), key, value, other);
        assert(more.skip(1) =~= json_insert(map.skip(1), key, value));
    }
}

/// The value under a key is that of the first entry with that key, and there is none exactly where no
/// entry has it.
pub proof fn lemma_json_get(map: Seq<(Seq<char>, JsonView)>, key: Seq<char>)
    ensures
        json_get(map, key) is None <==> forall|i: int|
            0 <= i < map.len() ==> (#[trigger] map[i]).0 != key,
        forall|i: int|
            0 <= i < map.len() && (#[trigger] map[i]).0 == key && (forall|j: int|
                0 <= j < i ==> (#[trigger] map[j]).0 != key) ==> json_get(map, key) == Some(
                map[i].1,
            ),
{
    let p = has_key(key);
    assert forall|i: int|
        0 <= i < map.len() && (#[trigger] map[i]).0 == key && (forall|j: int|
            0 <= j < i ==> (#[trigger] map[j]).0 != key) implies json_get(map, key) == Some(
        map[i].1,
    ) by {
        lookup::lemma_is_first_match(map, p, i);
    }
    lookup::lemma_first_match(map, p);
    if json_get(map, key) is None {
        assert forall|i: int| 0 <= i < map.len() implies (#[trigger] map[i]).0 != key by {
            assert(!p(map[i]));
        }
    } else {
        let i = lookup::lemma_first_match_at(map, p);
        assert(map[i].0 == key);
    }
}

impl JsonValue {
    /// The truth value, where the value is one.
    pub fn as_bool(&self) -> (result: Option<bool>)
        ensures
            result == match self@ {
                JsonView::Bool(b) => Some(b),
                _ => None,
            },
    {
        match self {
            JsonValue::Bool(b) => Some(*b),
            _ => None,
        }
    }
}

impl JsonMap {
    /// The object without entries.
    pub fn new() -> (result: JsonMap)
        ensures
            result@ == Seq::<(Seq<char>, JsonView)>::empty(),
    {
        JsonMap { entries: Vec::new() }
    }

    /// The object without entries, with room for so many of them.
    pub fn with_capacity(capacity: usize) -> (result: JsonMap)
        ensures
            result@ == Seq::<(Seq<char>, JsonView)>::empty(),
    {
        JsonMap { entries: Vec::with_capacity(capacity) }
    }

    /// The value under the given key.
    pub fn get(&self, key: &str) -> (result: Option<&JsonValue>)
        ensures
            json_get(self@, key@) == match result {
                Some(value) => Some(value@),
                None => None,
            },
    {
        let ghost p = has_key(key@);
        proof {
            lemma_json_entries(self.entries@);
            assert(self@.skip(0) =~= self@);
        }
        let mut i: usize = 0;
        while i < self.entries.len()
            invariant
                i <= self.entries.len(),
                p == has_key(key@),
                self@.len() == self.entries.len(),
                forall|j: int|
                    0 <= j < self.entries.len() ==> #[trigger] self@[j] == (
                        self.entries@[j].0@,
                        self.entries@[j].1@,
                    ),
                lookup::first_match(self@, p) == lookup::first_match(self@.skip(i as int), p),
            decreases self.entries.len() - i,
        {
            proof {
                lookup::lemma_first_match_step(self@, p, i as int);
            }
            if same_text(self.entries[i].0.as_str(), key) {
                return Some(&self.entries[i].1);
            }
            i += 1;
        }
        None
    }

    /// Maps `key` to `value`, in place of any value that it has.
    pub fn insert(&mut self, key: &str, value: JsonValue)
        ensures
            final(self)@ == json_insert(old(self)@, key@, value@),
    {
        proof {
            lemma_json_entries(self.entries@);
        }
        let mut i: usize = 0;
        while i < self.entries.len()
            invariant
                i <= self.entries.len(),
                self.entries@ == old(self).entries@,
                self@.len() == self.entries.len(),
                forall|j: int|
                    0 <= j < self.entries.len() ==> #[trigger] self@[j] == (
                        self.entries@[j].0@,
                        self.entries@[j].1@,
                    ),
                forall|j: int| 0 <= j < i ==> (#[trigger] self@[j]).0 != key@,
            decreases self.entries.len() - i,
        {
            if same_text(self.entries[i].0.as_str(), key) {
                self.entries[i].1 = value;
                proof {
                    lemma_json_insert_at(old(self)@, key@, value@, i as int);
                    lemma_json_entries(self.entries@);
                    assert(self@ =~= old(self)@.update(i as int, (key@, value@)));
                }
                return ;
            }
            i += 1;
        }
        self.entries.push((key.to_owned(), value));
        proof {
            lemma_json_insert_new(old(self)@, key@, value@);
            lemma_json_entries(self.entries@);
            assert(self@ =~= old(self)@.push((key@, value@)));
        }
    }
}

} // verus!

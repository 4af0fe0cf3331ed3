//! JSON values and maps from names to values.

use crate::text::{join, join_texts, texts, Text};
use vstd::prelude::*;

verus! {

/// The place of the first entry with a key, or the number of entries where there is none.
pub open spec fn place_of<V>(entries: Seq<(Text, V)>, key: Text) -> int
    decreases entries.len(),
{
    if entries.len() == 0 || entries[0].0 == key {
        0
    } else {
        1 + place_of(entries.skip(1), key)
    }
}

/// Whether some entry has the key.
pub open spec fn has_key<V>(entries: Seq<(Text, V)>, key: Text) -> bool {
    exists|i: int| 0 <= i < entries.len() && #[trigger] entries[i].0 == key
}

/// The value under a key that some entry has.
pub open spec fn value_at<V>(entries: Seq<(Text, V)>, key: Text) -> V {
    entries[place_of(entries, key)].1
}

/// The entries with a value put under a key: in place of the old value where the key is there,
/// else as a new last entry.
pub open spec fn put<V>(entries: Seq<(Text, V)>, key: Text, value: V) -> Seq<(Text, V)> {
    if has_key(entries, key) {
        entries.update(place_of(entries, key), (key, value))
    } else {
        entries.push((key, value))
    }
}

/// The entries without that of a key; the last entry takes its place.
pub open spec fn without<V>(entries: Seq<(Text, V)>, key: Text) -> Seq<(Text, V)> {
    if has_key(entries, key) {
        entries.update(place_of(entries, key), entries.last()).drop_last()
    } else {
        entries
    }
}

/// No key occurs twice.
pub open spec fn distinct<V>(entries: Seq<(Text, V)>) -> bool {
    forall|i: int, j: int|
        0 <= i < j < entries.len() ==> #[trigger] entries[i].0 != #[trigger] entries[j].0
}

/// `place_of` finds a key exactly where it first occurs.
pub proof fn lemma_place_of<V>(entries: Seq<(Text, V)>, key: Text)
    ensures
        0 <= place_of(entries, key) <= entries.len(),
        has_key(entries, key) <==> place_of(entries, key) < entries.len(),
        has_key(entries, key) ==> entries[place_of(entries, key)].0 == key,
        forall|i: int| 0 <= i < place_of(entries, key) ==> #[trigger] entries[i].0 != key,
    decreases entries.len(),
{
    if entries.len() > 0 && entries[0].0 != key {
        let rest = entries.skip(1);
        lemma_place_of(rest, key);
        assert forall|i: int| 0 <= i < place_of(entries, key) implies #[trigger] entries[i].0
            != key by {
            if i > 0 {
                assert(rest[i - 1] == entries[i]);
            }
        }
        if has_key(entries, key) {
            let i = choose|i: int| 0 <= i < entries.len() && #[trigger] entries[i].0 == key;
            assert(rest[i - 1].0 == key);
        }
        if has_key(rest, key) {
            assert(entries[place_of(rest, key) + 1].0 == key);
        }
    } else if entries.len() > 0 {
        assert(entries[0].0 == key);
    }
}

/// Where no key occurs twice, an entry is found by its key.
pub proof fn lemma_entry_found<V>(entries: Seq<(Text, V)>, i: int)
    requires
        distinct(entries),
        0 <= i < entries.len(),
    ensures
        has_key(entries, entries[i].0),
        place_of(entries, entries[i].0) == i,
        value_at(entries, entries[i].0) == entries[i].1,
{
    lemma_place_of(entries, entries[i].0);
}

/// Putting a value keeps the keys distinct, is read back, and leaves the other keys alone.
pub proof fn lemma_put<V>(entries: Seq<(Text, V)>, key: Text, value: V)
    requires
        distinct(entries),
    ensures
        distinct(put(entries, key, value)),
        has_key(put(entries, key, value), key),
        value_at(put(entries, key, value), key) == value,
        forall|other: Text|
            other != key ==> has_key(put(entries, key, value), other) == #[trigger] has_key(
                entries,
                other,
            ),
        forall|other: Text|
            other != key && has_key(entries, other) ==> value_at(put(entries, key, value), other)
                == #[trigger] value_at(entries, other),
{
    let after = put(entries, key, value);
    lemma_place_of(entries, key);
    let p = place_of(entries, key);
    assert(after[p] == (key, value));
    lemma_entry_found(after, p);
    assert forall|other: Text| other != key implies has_key(after, other) == #[trigger] has_key(
        entries,
        other,
    ) by {
        lemma_place_of(entries, other);
        lemma_place_of(after, other);
        if has_key(entries, other) {
            assert(after[place_of(entries, other)].0 == other);
        }
        if has_key(after, other) {
            assert(entries[place_of(after, other)].0 == other);
        }
    }
    assert forall|other: Text| other != key && has_key(entries, other) implies value_at(
        after,
        other,
    ) == #[trigger] value_at(entries, other) by {
        lemma_place_of(entries, other);
        let q = place_of(entries, other);
        assert(after[q] == entries[q]);
        lemma_entry_found(after, q);
    }
}

/// Removing a key keeps the keys distinct, takes that key away, and leaves the other keys alone.
pub proof fn lemma_without<V>(entries: Seq<(Text, V)>, key: Text)
    requires
        distinct(entries),
    ensures
        distinct(without(entries, key)),
        !has_key(without(entries, key), key),
        forall|other: Text|
            other != key ==> has_key(without(entries, key), other) == #[trigger] has_key(
                entries,
                other,
            ),
        forall|other: Text|
            other != key && has_key(entries, other) ==> value_at(without(entries, key), other)
                == #[trigger] value_at(entries, other),
{
    let after = without(entries, key);
    lemma_place_of(entries, key);
    let p = place_of(entries, key);
    let n = entries.len() - 1;
    if has_key(entries, key) {
        assert(forall|i: int| 0 <= i < n ==> #[trigger] after[i] == if i == p { entries[n] } else {
            entries[i]
        });
        assert(distinct(after));
        assert(!has_key(after, key));
        assert forall|other: Text| other != key implies has_key(after, other) == #[trigger] has_key(
            entries,
            other,
        ) by {
            lemma_place_of(entries, other);
            lemma_place_of(after, other);
            if has_key(entries, other) {
                let q = place_of(entries, other);
                assert(after[if q == n { p } else { q }].0 == other);
            }
            if has_key(after, other) {
                let q = place_of(after, other);
                assert(entries[if q == p { n } else { q }].0 == other);
            }
        }
        assert forall|other: Text| other != key && has_key(entries, other) implies value_at(
            after,
            other,
        ) == #[trigger] value_at(entries, other) by {
            lemma_place_of(entries, other);
            let q = place_of(entries, other);
            let r = if q == n { p } else { q };
            assert(after[r] == entries[q]);
            lemma_entry_found(after, r);
        }
    }
}

/// Entries with the views of their names.
pub open spec fn by_name<V>(entries: Seq<(String, V)>) -> Seq<(Text, V)> {
    Seq::new(entries.len(), |i: int| (entries[i].0@, entries[i].1))
}

/// A map from names to values that keeps its entries in a sequence: a new name goes to the end,
/// and when a name is removed the last entry takes its place. No name occurs twice.
#[derive(Debug, PartialEq)]
pub struct NameMap<V> {
    entries: Vec<(String, V)>,
}

impl<V> NameMap<V> {
    /// The entries, in their order.
    pub closed spec fn view(&self) -> Seq<(Text, V)> {
        by_name(self.entries@)
    }

    #[verifier::type_invariant]
    spec fn names_distinct(self) -> bool {
        distinct(self.view())
    }

    /// A map without entries.
    pub fn new() -> (map: NameMap<V>)
        ensures
            map.view() == Seq::<(Text, V)>::empty(),
    {
        let map = NameMap { entries: Vec::new() };
        assert(map.view() =~= Seq::<(Text, V)>::empty());
        map
    }

    /// A map of entries whose names are distinct.
    pub fn of(entries: Vec<(String, V)>) -> (map: NameMap<V>)
        requires
            distinct(by_name(entries@)),
        ensures
            map.view() == by_name(entries@),
    {
        NameMap { entries }
    }

    /// The number of entries.
    pub fn len(&self) -> (n: usize)
        ensures
            n == self.view().len(),
            distinct(self.view()),
    {
        proof {
            use_type_invariant(self);
        }
        self.entries.len()
    }

    /// The name of an entry.
    pub fn name(&self, i: usize) -> (name: &String)
        requires
            i < self.view().len(),
        ensures
            name@ == self.view()[i as int].0,
    {
        &self.entries[i].0
    }

    /// The value of an entry.
    pub fn value(&self, i: usize) -> (value: &V)
        requires
            i < self.view().len(),
        ensures
            *value == self.view()[i as int].1,
    {
        &self.entries[i].1
    }

    /// The place of the entry with a name.
    pub fn find(&self, name: &String) -> (place: Option<usize>)
        ensures
            place is Some <==> has_key(self.view(), name@),
            place matches Some(i) ==> i == place_of(self.view(), name@) && i < self.view().len(),
    {
        let mut i: usize = 0;
        while i < self.entries.len()
            invariant
                i <= self.entries@.len(),
                forall|j: int| 0 <= j < i ==> #[trigger] self.view()[j].0 != name@,
            decreases self.entries@.len() - i,
        {
            if self.entries[i].0 == *name {
                proof {
                    assert(self.view()[i as int].0 == name@);
                    lemma_place_of(self.view(), name@);
                }
                return Some(i);
            }
            i += 1;
        }
        None
    }

    /// The value under a name.
    pub fn get(&self, name: &String) -> (value: Option<&V>)
        ensures
            value is Some <==> has_key(self.view(), name@),
            value matches Some(v) ==> *v == value_at(self.view(), name@),
    {
        match self.find(name) {
            Some(i) => Some(&self.entries[i].1),
            None => None,
        }
    }

    /// Puts another value into an entry and gives back the old one.
    pub fn replace(&mut self, i: usize, value: V) -> (old_value: V)
        requires
            i < old(self).view().len(),
        ensures
            old_value == old(self).view()[i as int].1,
            final(self).view() == old(self).view().update(
                i as int,
                (old(self).view()[i as int].0, value),
            ),
    {
        proof {
            use_type_invariant(&*self);
        }
        let ghost before = self.view();
        let mut entries: Vec<(String, V)> = Vec::new();
        std::mem::swap(&mut entries, &mut self.entries);
        let ghost new_value = value;
        let mut held = value;
        std::mem::swap(&mut entries[i].1, &mut held);
        assert(by_name(entries@) =~= before.update(i as int, (before[i as int].0, new_value)));
        self.entries = entries;
        held
    }

    /// Puts a value under a name.
    pub fn insert(&mut self, name: String, value: V)
        ensures
            final(self).view() == put(old(self).view(), name@, value),
    {
        match self.find(&name) {
            Some(i) => {
                proof {
                    lemma_place_of(self.view(), name@);
                }
                self.replace(i, value);
            },
            None => {
                proof {
                    use_type_invariant(&*self);
                    lemma_put(self.view(), name@, value);
                }
                let ghost before = self.view();
                let mut entries: Vec<(String, V)> = Vec::new();
                std::mem::swap(&mut entries, &mut self.entries);
                entries.push((name, value));
                assert(by_name(entries@) =~= put(before, name@, value));
                self.entries = entries;
            },
        }
    }

    /// Removes the entry with a name, if there is one.
    pub fn remove(&mut self, name: &String)
        ensures
            final(self).view() == without(old(self).view(), name@),
    {
        if let Some(i) = self.find(name) {
            proof {
                use_type_invariant(&*self);
                lemma_without(self.view(), name@);
            }
            let ghost before = self.view();
            let mut entries: Vec<(String, V)> = Vec::new();
            std::mem::swap(&mut entries, &mut self.entries);
            entries.swap_remove(i);
            assert(by_name(entries@) =~= without(before, name@));
            self.entries = entries;
        }
    }
}

/// A JSON value as a mathematical value. A number is the text that it is written as.
pub enum Json {
    Null,
    Bool(bool),
    Number(Text),
    Str(Text),
    Array(Seq<Json>),
    Object(Seq<(Text, Json)>),
}

/// The members of a JSON object, in their order.
pub type Fields = Seq<(Text, Json)>;

/// A JSON value. A number is held as the text that it is written as.
#[derive(Debug, PartialEq)]
pub enum Value {
    Null,
    Bool(bool),
    Number(String),
    String(String),
    Array(Vec<Value>),
    Object(NameMap<Value>),
}

/// A JSON object.
pub type Object = NameMap<Value>;

impl Value {
    /// The mathematical value.
    pub open spec fn json(self) -> Json
        decreases self,
    {
        match self {
            Value::Null => Json::Null,
            Value::Bool(b) => Json::Bool(b),
            Value::Number(text) => Json::Number(text@),
            Value::String(text) => Json::Str(text@),
            Value::Array(items) => Json::Array(
                Seq::new(
                    items@.len(),
                    |i: int|
                        if 0 <= i < items@.len() {
                            items@[i].json()
                        } else {
                            Json::Null
                        },
                ),
            ),
            Value::Object(object) => Json::Object(
                Seq::new(object.view().len(), |i: int| member(object, i)),
            ),
        }
    }
}

/// A member of an object as a mathematical value.
pub open spec fn member(object: Object, i: int) -> (Text, Json)
    decreases object,
{
    if 0 <= i < object.view().len() {
        proof {
            lemma_value_smaller(object, i);
        }
        (object.view()[i].0, object.view()[i].1.json())
    } else {
        (Seq::empty(), Json::Null)
    }
}

/// A map is larger than the values in it.
pub proof fn lemma_value_smaller<V>(map: NameMap<V>, i: int)
    requires
        0 <= i < map.view().len(),
    ensures
        decreases_to!(map => map.view()[i].1),
{
    assert(map.view()[i].1 == map.entries@[i].1);
    assert(decreases_to!(map => map.entries@[i].1));
}

/// The members that the entries of a map stand for.
pub open spec fn fields(entries: Seq<(Text, Value)>) -> Fields {
    Seq::new(entries.len(), |i: int| (entries[i].0, entries[i].1.json()))
}

/// An object stands for the members in it.
pub proof fn lemma_object_json(object: Object)
    ensures
        Value::Object(object).json() == Json::Object(fields(object.view())),
{
    let whole = Value::Object(object).json()->Object_0;
    assert forall|i: int| 0 <= i < object.view().len() implies whole[i] == fields(
        object.view(),
    )[i] by {
        assert(whole[i] == member(object, i));
    }
    assert(whole =~= fields(object.view()));
}

/// The items that the values of an array stand for.
pub open spec fn item_list(items: Seq<Value>) -> Seq<Json> {
    Seq::new(items.len(), |i: int| items[i].json())
}

/// An array stands for the items in it.
pub proof fn lemma_array_json(items: Vec<Value>)
    ensures
        Value::Array(items).json() == Json::Array(item_list(items@)),
{
    assert(Value::Array(items).json()->Array_0 =~= item_list(items@));
}

/// Entries with the same keys at the same places are found alike.
pub proof fn lemma_same_keys<A, B>(a: Seq<(Text, A)>, b: Seq<(Text, B)>, key: Text)
    requires
        a.len() == b.len(),
        forall|i: int| 0 <= i < a.len() ==> #[trigger] a[i].0 == b[i].0,
    ensures
        place_of(a, key) == place_of(b, key),
        has_key(a, key) == has_key(b, key),
    decreases a.len(),
{
    lemma_place_of(a, key);
    lemma_place_of(b, key);
    if a.len() > 0 {
        assert(a[0].0 == b[0].0);
        if a[0].0 != key {
            assert forall|i: int| 0 <= i < a.skip(1).len() implies #[trigger] a.skip(1)[i].0
                == b.skip(1)[i].0 by {
                assert(a[i + 1].0 == b[i + 1].0);
            }
            lemma_same_keys(a.skip(1), b.skip(1), key);
        }
    }
}

/// The members have the keys of the entries, at the same places.
pub proof fn lemma_fields_keys(entries: Seq<(Text, Value)>, key: Text)
    ensures
        place_of(fields(entries), key) == place_of(entries, key),
        has_key(fields(entries), key) == has_key(entries, key),
        has_key(entries, key) ==> value_at(fields(entries), key) == value_at(entries, key).json(),
{
    lemma_place_of(entries, key);
    lemma_same_keys(fields(entries), entries, key);
}

/// Putting and removing are the same for entries and for the members they stand for.
pub proof fn lemma_fields_change(entries: Seq<(Text, Value)>, key: Text, value: Value)
    ensures
        fields(put(entries, key, value)) == put(fields(entries), key, value.json()),
        fields(without(entries, key)) == without(fields(entries), key),
        distinct(fields(entries)) == distinct(entries),
{
    lemma_place_of(entries, key);
    lemma_fields_keys(entries, key);
    assert(fields(put(entries, key, value)) =~= put(fields(entries), key, value.json()));
    assert(fields(without(entries, key)) =~= without(fields(entries), key));
    if distinct(fields(entries)) {
        assert forall|i: int, j: int| 0 <= i < j < entries.len() implies #[trigger] entries[i].0
            != #[trigger] entries[j].0 by {
            assert(fields(entries)[i].0 != fields(entries)[j].0);
        }
    }
}

impl Clone for Value {
    fn clone(&self) -> (copy: Value)
        ensures
            copy.json() == self.json(),
        decreases self,
    {
        match self {
            Value::Null => Value::Null,
            Value::Bool(b) => Value::Bool(*b),
            Value::Number(text) => Value::Number(text.clone()),
            Value::String(text) => Value::String(text.clone()),
            Value::Array(items) => {
                let mut copies: Vec<Value> = Vec::new();
                for i in 0..items.len()
                    invariant
                        copies@.len() == i,
                        decreases_to!(self => items),
                        forall|j: int| 0 <= j < i ==> (#[trigger] copies@[j]).json()
                            == items@[j].json(),
                {
                    copies.push(items[i].clone());
                }
                let copy = Value::Array(copies);
                assert(copy.json()->Array_0 =~= self.json()->Array_0);
                copy
            },
            Value::Object(object) => {
                let copy = object.clone();
                proof {
                    lemma_object_json(copy);
                    lemma_object_json(*object);
                }
                Value::Object(copy)
            },
        }
    }
}

impl Clone for NameMap<Value> {
    fn clone(&self) -> (copy: NameMap<Value>)
        ensures
            fields(copy.view()) == fields(self.view()),
        decreases self,
    {
        proof {
            use_type_invariant(self);
        }
        let mut entries: Vec<(String, Value)> = Vec::new();
        for i in 0..self.entries.len()
            invariant
                entries@.len() == i,
                forall|j: int|
                    0 <= j < i ==> (#[trigger] entries@[j]).0@ == self.entries@[j].0@
                        && entries@[j].1.json() == self.entries@[j].1.json(),
        {
            let value = self.entries[i].1.clone();
            entries.push((self.entries[i].0.clone(), value));
        }
        proof {
            assert forall|i: int, j: int| 0 <= i < j < entries@.len() implies #[trigger] by_name(
                entries@,
            )[i].0 != #[trigger] by_name(entries@)[j].0 by {
                assert(self.view()[i].0 != self.view()[j].0);
            }
            assert(fields(by_name(entries@)) =~= fields(self.view()));
        }
        NameMap { entries }
    }
}

/// No object in the value has a key twice.
pub open spec fn tidy(value: Json) -> bool
    decreases value,
{
    match value {
        Json::Array(items) => forall|i: int| 0 <= i < items.len() ==> tidy(#[trigger] items[i]),
        Json::Object(members) => distinct(members) && forall|i: int|
            0 <= i < members.len() ==> tidy((#[trigger] members[i]).1),
        _ => true,
    }
}

/// The members of a tidy object are tidy.
pub proof fn lemma_tidy_member(members: Fields, i: int)
    requires
        tidy(Json::Object(members)),
        0 <= i < members.len(),
    ensures
        distinct(members),
        tidy(members[i].1),
{
    reveal_with_fuel(tidy, 2);
}

/// The items of a tidy array are tidy.
pub proof fn lemma_tidy_item(items: Seq<Json>, i: int)
    requires
        tidy(Json::Array(items)),
        0 <= i < items.len(),
    ensures
        tidy(items[i]),
{
    reveal_with_fuel(tidy, 2);
    let whole = Json::Array(items);
    assert(whole->Array_0[i] == items[i]);
}

/// An object is tidy where it has no key twice and its members are tidy.
pub proof fn lemma_tidy_object(members: Fields)
    requires
        distinct(members),
        forall|i: int| 0 <= i < members.len() ==> tidy((#[trigger] members[i]).1),
    ensures
        tidy(Json::Object(members)),
{
    reveal_with_fuel(tidy, 2);
    let whole = Json::Object(members);
    assert forall|i: int| 0 <= i < whole->Object_0.len() implies tidy(
        (#[trigger] whole->Object_0[i]).1,
    ) by {
        assert(tidy(members[i].1));
    }
}

/// An array is tidy where its items are.
pub proof fn lemma_tidy_array(items: Seq<Json>)
    requires
        forall|i: int| 0 <= i < items.len() ==> tidy(#[trigger] items[i]),
    ensures
        tidy(Json::Array(items)),
{
    reveal_with_fuel(tidy, 2);
    let whole = Json::Array(items);
    assert forall|i: int| 0 <= i < whole->Array_0.len() implies tidy(
        #[trigger] whole->Array_0[i],
    ) by {
        assert(tidy(items[i]));
    }
}

/// How a character stands inside a JSON string.
pub open spec fn escaped_char(c: char) -> Text {
    if c == '"' {
        "\\\""@
    } else if c == '\\' {
        "\\\\"@
    } else if c == '\u{8}' {
        "\\b"@
    } else if c == '\u{c}' {
        "\\f"@
    } else if c == '\n' {
        "\\n"@
    } else if c == '\r' {
        "\\r"@
    } else if c == '\t' {
        "\\t"@
    } else if (c as u32) < 0x20 {
        "\\u00"@.push("01"@[c as int / 16]).push("0123456789abcdef"@[c as int % 16])
    } else {
        seq![c]
    }
}

/// How a text stands inside a JSON string, between the quotation marks.
pub open spec fn escaped(text: Text) -> Text
    decreases text.len(),
{
    if text.len() == 0 {
        Seq::empty()
    } else {
        escaped_char(text[0]) + escaped(text.skip(1))
    }
}

/// A text as a JSON string.
pub open spec fn quoted(text: Text) -> Text {
    "\""@ + escaped(text) + "\""@
}

/// The `Display` of `serde_json::Value` for a string. Believed of it: it writes the text between
/// quotation marks, with an escape for the quotation mark, the backslash and the characters below
/// the space, and every other character as it is.
#[verifier::external_body]
fn quoted_text(text: &str) -> (json: String)
    ensures
        json@ == quoted(text@),
{
    serde_json::Value::String(text.to_owned()).to_string()
}

/// A value written as JSON, without white space between the parts.
pub open spec fn json_text(value: Json) -> Text
    decreases value,
{
    match value {
        Json::Null => "null"@,
        Json::Bool(b) => if b {
            "true"@
        } else {
            "false"@
        },
        Json::Number(text) => text,
        Json::Str(text) => quoted(text),
        Json::Array(items) => "["@ + join(item_texts(items), ","@) + "]"@,
        Json::Object(members) => "{"@ + join(member_texts(members), ","@) + "}"@,
    }
}

/// The items of an array, each written as JSON.
pub open spec fn item_texts(items: Seq<Json>) -> Seq<Text>
    decreases items,
{
    Seq::new(
        items.len(),
        |i: int|
            if 0 <= i < items.len() {
                json_text(items[i])
            } else {
                Seq::empty()
            },
    )
}

/// The members of an object, each written as JSON.
pub open spec fn member_texts(members: Fields) -> Seq<Text>
    decreases members,
{
    Seq::new(
        members.len(),
        |i: int|
            if 0 <= i < members.len() {
                quoted(members[i].0) + ":"@ + json_text(members[i].1)
            } else {
                Seq::empty()
            },
    )
}

impl Value {
    /// Writes the value as JSON.
    pub fn to_text(&self) -> (text: String)
        ensures
            text@ == json_text(self.json()),
            tidy(self.json()),
        decreases self,
    {
        match self {
            Value::Null => "null".to_owned(),
            Value::Bool(b) => {
                if *b {
                    "true".to_owned()
                } else {
                    "false".to_owned()
                }
            },
            Value::Number(text) => text.clone(),
            Value::String(text) => quoted_text(text.as_str()),
            Value::Array(items) => {
                let mut parts: Vec<String> = Vec::new();
                for i in 0..items.len()
                    invariant
                        parts@.len() == i,
                        decreases_to!(self => items),
                        forall|j: int| 0 <= j < i ==> (#[trigger] parts@[j])@ == json_text(
                            items@[j].json(),
                        ),
                        forall|j: int| 0 <= j < i ==> tidy((#[trigger] items@[j]).json()),
                {
                    parts.push(items[i].to_text());
                }
                let mut text = "[".to_owned();
                text.append(join_texts(&parts, ",").as_str());
                text.append("]");
                proof {
                    assert(texts(parts@) =~= item_texts(self.json()->Array_0));
                    lemma_array_json(*items);
                    let list = item_list(items@);
                    assert forall|j: int| 0 <= j < list.len() implies tidy(#[trigger] list[j]) by {
                        assert(tidy(items@[j].json()));
                    }
                    lemma_tidy_array(list);
                }
                text
            },
            Value::Object(object) => object.to_text(),
        }
    }
}

impl NameMap<Value> {
    /// Writes the object as JSON.
    pub fn to_text(&self) -> (text: String)
        ensures
            text@ == json_text(Json::Object(fields(self.view()))),
            text@ == json_text(Value::Object(*self).json()),
            tidy(Value::Object(*self).json()),
        decreases self,
    {
        let mut parts: Vec<String> = Vec::new();
        for i in 0..self.entries.len()
            invariant
                parts@.len() == i,
                forall|j: int|
                    0 <= j < i ==> (#[trigger] parts@[j])@ == quoted(self.view()[j].0) + ":"@
                        + json_text(self.view()[j].1.json()),
                forall|j: int| 0 <= j < i ==> tidy((#[trigger] self.view()[j]).1.json()),
        {
            let mut part = quoted_text(self.entries[i].0.as_str());
            part.append(":");
            part.append(self.entries[i].1.to_text().as_str());
            parts.push(part);
        }
        let mut text = "{".to_owned();
        text.append(join_texts(&parts, ",").as_str());
        text.append("}");
        proof {
            use_type_invariant(self);
            assert(texts(parts@) =~= member_texts(fields(self.view())));
            lemma_object_json(*self);
            let members = fields(self.view());
            assert forall|j: int| 0 <= j < members.len() implies tidy(
                (#[trigger] members[j]).1,
            ) by {
                assert(tidy(self.view()[j].1.json()));
            }
            lemma_fields_change(self.view(), Seq::empty(), Value::Null);
            lemma_tidy_object(members);
        }
        text
    }
}

} // verus!

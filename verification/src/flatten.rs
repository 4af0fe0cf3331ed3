//! What becomes of a JSON document: the rows that it gives to the tables.

use crate::path::{step_texts, Step};
use crate::text::{decimal, join, Text};
use crate::value::{
    distinct, has_key, json_text, lemma_place_of, lemma_same_keys, lemma_without, place_of, put,
    value_at, without, Fields, Json,
};
use vstd::prelude::*;

verus! {

/// What the flattening of a document goes by: whether arrays of one object are put into the row
/// they belong to, the paths of the objects that get rows of their own, the names, and the number
/// of the document.
pub struct Rules {
    pub inline: bool,
    pub emit: Seq<Seq<Text>>,
    pub separator: Text,
    pub prefix: Text,
    pub main: Text,
    pub number: nat,
}

/// What the flattening of documents has gathered: the rows of each table, and the arrays of objects
/// that had more than one item and those that never had.
#[verifier::ext_equal]
pub struct Store {
    pub rows: Seq<(Text, Seq<Fields>)>,
    pub one_to_many: Seq<Seq<Text>>,
    pub one_to_one: Seq<Seq<Text>>,
}

/// Where in the document an object stands: the steps and the keys on the way to it, and those on
/// the way to each array item around it, the outermost first.
#[verifier::ext_equal]
pub struct Place {
    pub steps: Seq<Step>,
    pub keys: Seq<Text>,
    pub item_steps: Seq<Seq<Step>>,
    pub item_keys: Seq<Seq<Text>>,
}

impl Place {
    /// The place of the document itself.
    pub open spec fn root() -> Place {
        Place {
            steps: Seq::empty(),
            keys: Seq::empty(),
            item_steps: Seq::empty(),
            item_keys: Seq::empty(),
        }
    }

    /// The place of a member.
    pub open spec fn member(self, key: Text) -> Place {
        Place { steps: self.steps.push(Step::Key(key)), keys: self.keys.push(key), ..self }
    }

    /// The place of an item of the array under a key.
    pub open spec fn item(self, key: Text, index: nat) -> Place {
        let steps = self.steps.push(Step::Key(key)).push(Step::Index(index));
        let keys = self.keys.push(key);
        Place {
            steps,
            keys,
            item_steps: self.item_steps.push(steps),
            item_keys: self.item_keys.push(keys),
        }
    }
}

/// Objects only, and at least one.
pub open spec fn all_objects(items: Seq<Json>) -> bool {
    items.len() > 0 && forall|i: int| 0 <= i < items.len() ==> #[trigger] items[i] is Object
}

/// Strings only, and at least one.
pub open spec fn all_strings(items: Seq<Json>) -> bool {
    items.len() > 0 && forall|i: int| 0 <= i < items.len() ==> #[trigger] items[i] is Str
}

/// The texts of strings.
pub open spec fn string_texts(items: Seq<Json>) -> Seq<Text> {
    Seq::new(items.len(), |i: int| items[i]->Str_0)
}

/// The text that an array is replaced by: strings are joined by commas, and an array that holds
/// anything but objects besides is written as JSON. An empty array and one of objects have none.
pub open spec fn array_text(value: Json) -> Option<Text> {
    match value {
        Json::Array(items) => if items.len() == 0 {
            None
        } else if all_strings(items) {
            Some(join(string_texts(items), ","@))
        } else if all_objects(items) {
            None
        } else {
            Some(json_text(value))
        },
        _ => None,
    }
}

/// The texts that the arrays among members are replaced by, each under the key of its array.
pub open spec fn array_texts(members: Fields) -> Fields
    decreases members.len(),
{
    if members.len() == 0 {
        Seq::empty()
    } else {
        let earlier = array_texts(members.drop_last());
        match array_text(members.last().1) {
            Some(text) => earlier.push((members.last().0, Json::Str(text))),
            None => earlier,
        }
    }
}

/// The keys of the arrays among members that no text replaces.
pub open spec fn gone_arrays(members: Fields) -> Seq<Text>
    decreases members.len(),
{
    if members.len() == 0 {
        Seq::empty()
    } else {
        let earlier = gone_arrays(members.drop_last());
        if members.last().1 is Array && array_text(members.last().1) is None {
            earlier.push(members.last().0)
        } else {
            earlier
        }
    }
}

/// Whether a member is an array whose only item is put into the row of the object around it: it is
/// an object, and no array at this path is known to have had more items.
pub open spec fn inlined(
    rules: Rules,
    one_to_many: Seq<Seq<Text>>,
    keys: Seq<Text>,
    member: (Text, Json),
) -> bool {
    &&& rules.inline
    &&& member.1 matches Json::Array(items)
    &&& items.len() == 1
    &&& items[0] is Object
    &&& !one_to_many.contains(keys.push(member.0))
}

/// The object whose members go into the row of the object around it, if a member is or holds one.
pub open spec fn nested(
    rules: Rules,
    one_to_many: Seq<Seq<Text>>,
    keys: Seq<Text>,
    member: (Text, Json),
) -> Option<Fields> {
    match member.1 {
        Json::Object(inner) => Some(inner),
        Json::Array(items) => if inlined(rules, one_to_many, keys, member) {
            Some(items[0]->Object_0)
        } else {
            None
        },
        _ => None,
    }
}

/// The keys of the members that are or hold such an object.
pub open spec fn gone_objects(
    rules: Rules,
    one_to_many: Seq<Seq<Text>>,
    keys: Seq<Text>,
    members: Fields,
) -> Seq<Text>
    decreases members.len(),
{
    if members.len() == 0 {
        Seq::empty()
    } else {
        let earlier = gone_objects(rules, one_to_many, keys, members.drop_last());
        if nested(rules, one_to_many, keys, members.last()) is Some {
            earlier.push(members.last().0)
        } else {
            earlier
        }
    }
}

/// A list of paths without one of them.
pub open spec fn without_path(list: Seq<Seq<Text>>, path: Seq<Text>) -> Seq<Seq<Text>>
    decreases list.len(),
{
    if list.len() == 0 {
        Seq::empty()
    } else if list.last() == path {
        without_path(list.drop_last(), path)
    } else {
        without_path(list.drop_last(), path).push(list.last())
    }
}

/// What is gathered when an array of objects is met: at a path that is not yet known to have more
/// than one item, one item makes it a one to one array, and more make it a one to many array.
pub open spec fn with_array(rules: Rules, store: Store, path: Seq<Text>, items: nat) -> Store {
    if !rules.inline || store.one_to_many.contains(path) {
        store
    } else if items != 1 {
        Store {
            one_to_many: store.one_to_many.push(path),
            one_to_one: without_path(store.one_to_one, path),
            ..store
        }
    } else if store.one_to_one.contains(path) {
        store
    } else {
        Store { one_to_one: store.one_to_one.push(path), ..store }
    }
}

/// Members without those of some keys, taken away one after the other.
pub open spec fn without_all(members: Fields, keys: Seq<Text>) -> Fields
    decreases keys.len(),
{
    if keys.len() == 0 {
        members
    } else {
        without(without_all(members, keys.drop_last()), keys.last())
    }
}

/// Members with others put in, one after the other.
pub open spec fn put_all(members: Fields, others: Fields) -> Fields
    decreases others.len(),
{
    if others.len() == 0 {
        members
    } else {
        put(put_all(members, others.drop_last()), others.last().0, others.last().1)
    }
}

/// Members with a prefix before each key.
pub open spec fn under(prefix: Text, members: Fields) -> Fields {
    Seq::new(members.len(), |i: int| (prefix + members[i].0, members[i].1))
}

/// The identity of the row of an array item: the number of the document and the steps to the item.
pub open spec fn link_text(number: nat, steps: Seq<Step>) -> Text {
    decimal(number) + "."@ + join(step_texts(steps), "."@)
}

/// A row with links to the rows of the array items around it, as far as `n` of them: the last one
/// is the row's own identity.
pub open spec fn with_links(
    rules: Rules,
    row: Fields,
    item_steps: Seq<Seq<Step>>,
    item_keys: Seq<Seq<Text>>,
    n: nat,
    last: nat,
) -> Fields
    decreases n,
{
    if n == 0 {
        row
    } else {
        let earlier = with_links(rules, row, item_steps, item_keys, (n - 1) as nat, last);
        let link = Json::Str(link_text(rules.number, item_steps[n - 1]));
        if n == last {
            put(earlier, "_link"@, link)
        } else {
            put(earlier, "_link_"@ + join(item_keys[n - 1], rules.separator), link)
        }
    }
}

/// A row as it goes into its table: with its own identity, links to the rows of the array items
/// around it and a link to the row of the document.
pub open spec fn linked(
    rules: Rules,
    row: Fields,
    item_steps: Seq<Seq<Step>>,
    item_keys: Seq<Seq<Text>>,
) -> Fields {
    let number = Json::Str(decimal(rules.number));
    let start = if item_steps.len() == 0 {
        put(row, "_link"@, number)
    } else {
        row
    };
    let n = if item_steps.len() <= item_keys.len() {
        item_steps.len()
    } else {
        item_keys.len()
    };
    put(with_links(rules, start, item_steps, item_keys, n, n), "_link_"@ + rules.main, number)
}

/// The table that takes the rows at a path.
pub open spec fn table_name(rules: Rules, keys: Seq<Text>) -> Text {
    if keys.len() == 0 {
        rules.main
    } else {
        rules.prefix + join(keys, rules.separator)
    }
}

/// The rows of a table.
pub open spec fn rows_in(rows: Seq<(Text, Seq<Fields>)>, table: Text) -> Seq<Fields> {
    if has_key(rows, table) {
        value_at(rows, table)
    } else {
        Seq::empty()
    }
}

/// What is gathered when a row is given to its table.
pub open spec fn with_row(
    rules: Rules,
    store: Store,
    row: Fields,
    keys: Seq<Text>,
    item_steps: Seq<Seq<Step>>,
    item_keys: Seq<Seq<Text>>,
) -> Store {
    let table = table_name(rules, keys);
    let row = linked(rules, row, item_steps, item_keys);
    Store { rows: put(store.rows, table, rows_in(store.rows, table).push(row)), ..store }
}

/// The row of an object, given what the objects in it have to put into it.
pub open spec fn flat_row(
    rules: Rules,
    one_to_many: Seq<Seq<Text>>,
    keys: Seq<Text>,
    members: Fields,
    inner: Fields,
) -> Fields {
    let gone = gone_arrays(members) + gone_objects(rules, one_to_many, keys, members);
    put_all(without_all(members, gone), array_texts(members) + inner)
}

/// Flattens an object. Gives what is then gathered, and the row, unless it went into a table.
/// `as_inlined` says that the object is the only item of an array and has been met as such: the
/// items of arrays in it have their rows already.
pub open spec fn flatten(
    rules: Rules,
    store: Store,
    members: Fields,
    place: Place,
    emit: bool,
    as_inlined: bool,
) -> (Store, Option<Fields>)
    decreases members, 2int, 0int,
{
    let n = members.len();
    let after_arrays = flatten_arrays(rules, store, members, place, as_inlined, n);
    let (after, inner) = flatten_objects(
        rules,
        after_arrays,
        store.one_to_many,
        members,
        place,
        n,
    );
    let row = flat_row(rules, store.one_to_many, place.keys, members, inner);
    if emit {
        (with_row(rules, after, row, place.keys, place.item_steps, place.item_keys), None)
    } else {
        (after, Some(row))
    }
}

/// Notes the arrays of objects among the first `n` members and gives the items their rows.
pub open spec fn flatten_arrays(
    rules: Rules,
    store: Store,
    members: Fields,
    place: Place,
    as_inlined: bool,
    n: nat,
) -> Store
    decreases members, 1int, n,
{
    if 0 < n <= members.len() {
        let before = flatten_arrays(rules, store, members, place, as_inlined, (n - 1) as nat);
        let key = members[n - 1].0;
        match members[n - 1].1 {
            Json::Array(items) => if all_objects(items) {
                let noted = with_array(rules, before, place.keys.push(key), items.len());
                if as_inlined {
                    noted
                } else {
                    flatten_items(rules, noted, items, place, key, items.len())
                }
            } else {
                before
            },
            _ => before,
        }
    } else {
        store
    }
}

/// Gives the first `n` items of an array of objects their rows.
pub open spec fn flatten_items(
    rules: Rules,
    store: Store,
    items: Seq<Json>,
    place: Place,
    key: Text,
    n: nat,
) -> Store
    decreases items, 3int, n,
{
    if 0 < n <= items.len() {
        let before = flatten_items(rules, store, items, place, key, (n - 1) as nat);
        match items[n - 1] {
            Json::Object(inner) => flatten(
                rules,
                before,
                inner,
                place.item(key, (n - 1) as nat),
                true,
                false,
            ).0,
            _ => before,
        }
    } else {
        store
    }
}

/// Flattens the objects among the first `n` members. Gives what is then gathered, and what they put
/// into the row: their members, each under the key of the object, the separator and its own key.
pub open spec fn flatten_objects(
    rules: Rules,
    store: Store,
    one_to_many: Seq<Seq<Text>>,
    members: Fields,
    place: Place,
    n: nat,
) -> (Store, Fields)
    decreases members, 1int, n,
{
    if 0 < n <= members.len() {
        let (before, inner) = flatten_objects(
            rules,
            store,
            one_to_many,
            members,
            place,
            (n - 1) as nat,
        );
        let key = members[n - 1].0;
        match nested(rules, one_to_many, place.keys, members[n - 1]) {
            Some(object) => {
                let (after, row) = flatten(
                    rules,
                    before,
                    object,
                    place.member(key),
                    rules.emit.contains(place.keys.push(key)),
                    members[n - 1].1 is Array,
                );
                match row {
                    Some(row) => (after, inner + under(key + rules.separator, row)),
                    None => (after, inner),
                }
            },
            None => (before, inner),
        }
    } else {
        (store, Seq::empty())
    }
}

/// Taking keys away keeps the keys distinct and takes exactly those keys away.
pub proof fn lemma_without_all(members: Fields, keys: Seq<Text>)
    requires
        distinct(members),
    ensures
        distinct(without_all(members, keys)),
        forall|key: Text| #[trigger]
            has_key(without_all(members, keys), key) <==> has_key(members, key) && !keys.contains(
                key,
            ),
        forall|key: Text|
            has_key(without_all(members, keys), key) ==> #[trigger] value_at(
                without_all(members, keys),
                key,
            ) == value_at(members, key),
    decreases keys.len(),
{
    if keys.len() > 0 {
        let before = without_all(members, keys.drop_last());
        let after = without_all(members, keys);
        lemma_without_all(members, keys.drop_last());
        lemma_without(before, keys.last());
        assert(keys =~= keys.drop_last().push(keys.last()));
        assert forall|key: Text| #[trigger] has_key(after, key) <==> has_key(members, key)
            && !keys.contains(key) by {
            if keys.contains(key) && key != keys.last() {
                let i = choose|i: int| 0 <= i < keys.len() && keys[i] == key;
                assert(keys.drop_last()[i] == key);
            }
            if keys.drop_last().contains(key) {
                let i = choose|i: int| 0 <= i < keys.len() - 1 && keys.drop_last()[i] == key;
                assert(keys[i] == key);
            }
            assert(keys[keys.len() - 1] == keys.last());
            assert(has_key(before, key) <==> has_key(members, key) && !keys.drop_last().contains(
                key,
            ));
        }
        assert forall|key: Text| has_key(after, key) implies #[trigger] value_at(after, key)
            == value_at(members, key) by {
            assert(has_key(before, key));
            assert(value_at(before, key) == value_at(members, key));
        }
    }
}

/// Whether two lists of members have the same keys at the same places and differ only under keys of
/// a list.
pub open spec fn differ_under(a: Fields, b: Fields, keys: Seq<Text>) -> bool {
    &&& a.len() == b.len()
    &&& forall|i: int| 0 <= i < a.len() ==> #[trigger] a[i].0 == b[i].0
    &&& forall|i: int| 0 <= i < a.len() ==> #[trigger] a[i] == b[i] || keys.contains(a[i].0)
}

proof fn lemma_without_all_parallel(a: Fields, b: Fields, keys: Seq<Text>, all: Seq<Text>)
    requires
        differ_under(a, b, all),
    ensures
        differ_under(without_all(a, keys), without_all(b, keys), all),
    decreases keys.len(),
{
    if keys.len() > 0 {
        let c = without_all(a, keys.drop_last());
        let d = without_all(b, keys.drop_last());
        lemma_without_all_parallel(a, b, keys.drop_last(), all);
        lemma_same_keys(c, d, keys.last());
        lemma_place_of(c, keys.last());
        let p = place_of(c, keys.last());
        let e = without(c, keys.last());
        let f = without(d, keys.last());
        if has_key(c, keys.last()) {
            let n = c.len() - 1;
            assert(c[n].0 == d[n].0);
            assert(c[n] == d[n] || all.contains(c[n].0));
            assert forall|i: int| 0 <= i < e.len() implies #[trigger] e[i].0 == f[i].0 && (e[i]
                == f[i] || all.contains(e[i].0)) by {
                if i != p {
                    assert(e[i] == c[i] && f[i] == d[i]);
                    assert(c[i].0 == d[i].0);
                }
            }
        }
    }
}

/// Where two lists of members differ only under keys that are taken away, the same is left of them.
pub proof fn lemma_without_all_agree(a: Fields, b: Fields, keys: Seq<Text>)
    requires
        distinct(a),
        differ_under(a, b, keys),
    ensures
        without_all(a, keys) == without_all(b, keys),
{
    lemma_without_all_parallel(a, b, keys, keys);
    lemma_without_all(a, keys);
    let c = without_all(a, keys);
    let d = without_all(b, keys);
    assert forall|i: int| 0 <= i < c.len() implies c[i] == d[i] by {
        assert(has_key(c, c[i].0));
    }
    assert(c =~= d);
}

/// Whether a path leads to somewhere below another one.
pub open spec fn below(keys: Seq<Text>, path: Seq<Text>) -> bool {
    path.len() > keys.len() && path.take(keys.len() as int) == keys
}

/// No path is lost from a list, and every new one leads below a given path.
pub open spec fn grows_below(
    keys: Seq<Text>,
    before: Seq<Seq<Text>>,
    after: Seq<Seq<Text>>,
) -> bool {
    &&& forall|path: Seq<Text>| #[trigger] before.contains(path) ==> after.contains(path)
    &&& forall|path: Seq<Text>| #[trigger]
        after.contains(path) ==> before.contains(path) || below(keys, path)
}

/// A path of the list `after` that `before` does not hold leads to or below one of the members.
pub open spec fn grows_in_members(
    keys: Seq<Text>,
    members: Fields,
    n: nat,
    before: Seq<Seq<Text>>,
    after: Seq<Seq<Text>>,
) -> bool {
    forall|path: Seq<Text>| #[trigger]
        after.contains(path) && !before.contains(path) ==> exists|j: int|
            0 <= j < n && path[keys.len() as int] == (#[trigger] members[j]).0
}

/// What noting an array does to the one to many arrays.
pub proof fn lemma_with_array_grows(rules: Rules, store: Store, path: Seq<Text>, items: nat)
    ensures
        ({
            let after = with_array(rules, store, path, items).one_to_many;
            &&& forall|p: Seq<Text>| #[trigger] store.one_to_many.contains(p) ==> after.contains(p)
            &&& forall|p: Seq<Text>| #[trigger]
                after.contains(p) ==> store.one_to_many.contains(p) || p == path
        }),
{
    let before = store.one_to_many;
    let after = before.push(path);
    assert forall|p: Seq<Text>| #[trigger] before.contains(p) implies after.contains(p) by {
        let i = choose|i: int| 0 <= i < before.len() && before[i] == p;
        assert(after[i] == p);
    }
    assert forall|p: Seq<Text>| #[trigger] after.contains(p) implies before.contains(p) || p
        == path by {
        let i = choose|i: int| 0 <= i < after.len() && after[i] == p;
        if i < before.len() {
            assert(before[i] == p);
        }
    }
}

/// Growth below a path is growth below every path on the way to it.
proof fn lemma_below_shorter(keys: Seq<Text>, key: Text, path: Seq<Text>)
    requires
        below(keys.push(key), path) || path == keys.push(key),
    ensures
        below(keys, path),
        path[keys.len() as int] == key,
{
    let longer = keys.push(key);
    assert(path.take(longer.len() as int) =~= longer);
    assert(path.take(keys.len() as int) =~= keys) by {
        assert forall|i: int| 0 <= i < keys.len() implies path[i] == keys[i] by {
            assert(path.take(longer.len() as int)[i] == longer[i]);
        }
    }
    assert(path.take(longer.len() as int)[keys.len() as int] == key);
}

/// Flattening an object loses no one to many array and finds new ones only below the object.
pub proof fn lemma_flatten_grows(
    rules: Rules,
    store: Store,
    members: Fields,
    place: Place,
    emit: bool,
    as_inlined: bool,
)
    ensures
        grows_below(
            place.keys,
            store.one_to_many,
            flatten(rules, store, members, place, emit, as_inlined).0.one_to_many,
        ),
    decreases members, 2int, 0int,
{
    let n = members.len();
    let middle = flatten_arrays(rules, store, members, place, as_inlined, n);
    lemma_flatten_arrays_grows(rules, store, members, place, as_inlined, n);
    lemma_flatten_objects_grows(rules, middle, store.one_to_many, members, place, n);
}

/// Flattening the arrays of an object loses no one to many array and finds new ones only in the
/// members that it has come to.
pub proof fn lemma_flatten_arrays_grows(
    rules: Rules,
    store: Store,
    members: Fields,
    place: Place,
    as_inlined: bool,
    n: nat,
)
    requires
        n <= members.len(),
    ensures
        grows_below(
            place.keys,
            store.one_to_many,
            flatten_arrays(rules, store, members, place, as_inlined, n).one_to_many,
        ),
        grows_in_members(
            place.keys,
            members,
            n,
            store.one_to_many,
            flatten_arrays(rules, store, members, place, as_inlined, n).one_to_many,
        ),
    decreases members, 1int, n,
{
    if n > 0 {
        let m = (n - 1) as nat;
        let before = flatten_arrays(rules, store, members, place, as_inlined, m);
        let after = flatten_arrays(rules, store, members, place, as_inlined, n);
        lemma_flatten_arrays_grows(rules, store, members, place, as_inlined, m);
        let key = members[n - 1].0;
        let child = place.keys.push(key);
        match members[n - 1].1 {
            Json::Array(items) => {
                if all_objects(items) {
                    let noted = with_array(rules, before, child, items.len());
                    lemma_with_array_grows(rules, before, child, items.len());
                    if !as_inlined {
                        lemma_flatten_items_grows(rules, noted, items, place, key, items.len());
                    }
                    assert forall|path: Seq<Text>| #[trigger]
                        after.one_to_many.contains(path) && !store.one_to_many.contains(
                            path,
                        ) implies below(place.keys, path) && exists|j: int|
                        0 <= j < n && path[place.keys.len() as int] == (#[trigger]
                        members[j]).0 by {
                        if before.one_to_many.contains(path) {
                            let j = choose|j: int|
                                0 <= j < m && path[place.keys.len() as int] == (#[trigger]
                                members[j]).0;
                            assert(0 <= j < n);
                        } else {
                            lemma_below_shorter(place.keys, key, path);
                            assert(path[place.keys.len() as int] == members[n - 1].0);
                        }
                    }
                }
            },
            _ => {},
        }
        assert forall|path: Seq<Text>| #[trigger]
            after.one_to_many.contains(path) && !store.one_to_many.contains(
                path,
            ) implies exists|j: int|
            0 <= j < n && path[place.keys.len() as int] == (#[trigger] members[j]).0 by {
            if before.one_to_many.contains(path) {
                let j = choose|j: int|
                    0 <= j < m && path[place.keys.len() as int] == (#[trigger] members[j]).0;
                assert(0 <= j < n);
            }
        }
    }
}

/// Flattening the items of an array loses no one to many array and finds new ones only below it.
pub proof fn lemma_flatten_items_grows(
    rules: Rules,
    store: Store,
    items: Seq<Json>,
    place: Place,
    key: Text,
    n: nat,
)
    requires
        n <= items.len(),
    ensures
        grows_below(
            place.keys.push(key),
            store.one_to_many,
            flatten_items(rules, store, items, place, key, n).one_to_many,
        ),
    decreases items, 3int, n,
{
    if n > 0 {
        let m = (n - 1) as nat;
        lemma_flatten_items_grows(rules, store, items, place, key, m);
        let before = flatten_items(rules, store, items, place, key, m);
        match items[n - 1] {
            Json::Object(inner) => {
                lemma_flatten_grows(rules, before, inner, place.item(key, m), true, false);
            },
            _ => {},
        }
    }
}

/// Flattening the objects in an object loses no one to many array and finds new ones only below it.
pub proof fn lemma_flatten_objects_grows(
    rules: Rules,
    store: Store,
    one_to_many: Seq<Seq<Text>>,
    members: Fields,
    place: Place,
    n: nat,
)
    requires
        n <= members.len(),
    ensures
        grows_below(
            place.keys,
            store.one_to_many,
            flatten_objects(rules, store, one_to_many, members, place, n).0.one_to_many,
        ),
    decreases members, 1int, n,
{
    if n > 0 {
        let m = (n - 1) as nat;
        lemma_flatten_objects_grows(rules, store, one_to_many, members, place, m);
        let before = flatten_objects(rules, store, one_to_many, members, place, m).0;
        let after = flatten_objects(rules, store, one_to_many, members, place, n).0;
        let key = members[n - 1].0;
        match nested(rules, one_to_many, place.keys, members[n - 1]) {
            Some(object) => {
                let emit = rules.emit.contains(place.keys.push(key));
                lemma_flatten_grows(
                    rules,
                    before,
                    object,
                    place.member(key),
                    emit,
                    members[n - 1].1 is Array,
                );
                assert forall|path: Seq<Text>| #[trigger]
                    after.one_to_many.contains(path) implies store.one_to_many.contains(path)
                    || below(place.keys, path) by {
                    if !before.one_to_many.contains(path) {
                        lemma_below_shorter(place.keys, key, path);
                    }
                }
            },
            None => {},
        }
    }
}

} // verus!

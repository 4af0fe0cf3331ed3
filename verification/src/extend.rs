//! What the flattening of an object adds to what was gathered before.

use crate::flatten::{
    all_objects, array_text, array_texts, flat_row, flatten, flatten_arrays, flatten_items,
    flatten_objects, gone_arrays, gone_objects, lemma_without_all, link_text, linked, nested,
    put_all, rows_in, table_name, under, with_array, with_links, with_row, without_all, Place,
    Rules, Store,
};
use crate::path::Step;
use crate::text::{decimal, join, Text};
use crate::value::{
    distinct, has_key, lemma_entry_found, lemma_place_of, lemma_put, lemma_tidy_item,
    lemma_tidy_member, place_of, put, tidy, value_at, Fields, Json,
};
use vstd::prelude::*;

verus! {

/// Neither an array nor an object.
pub open spec fn scalar(value: Json) -> bool {
    !(value is Array) && !(value is Object)
}

/// Holds neither arrays nor objects, and no key twice.
pub open spec fn flat(row: Fields) -> bool {
    distinct(row) && forall|i: int| 0 <= i < row.len() ==> scalar((#[trigger] row[i]).1)
}

/// Whether a row is one that a document makes: it is flat, has an identity, and links to the
/// document.
pub open spec fn made(rules: Rules, row: Fields) -> bool {
    &&& flat(row)
    &&& has_key(row, "_link"@)
    &&& has_key(row, "_link_"@ + rules.main)
    &&& value_at(row, "_link_"@ + rules.main) == Json::Str(decimal(rules.number))
}

/// Whether a table has a name that the flattening gives.
pub open spec fn named(rules: Rules, name: Text) -> bool {
    name == rules.main || rules.prefix.is_prefix_of(name)
}

/// Whether the rows `after` are the rows `before` and others behind them, in tables named by the
/// rules, made by a document where that is `neat`.
pub open spec fn extends(
    rules: Rules,
    before: Seq<(Text, Seq<Fields>)>,
    after: Seq<(Text, Seq<Fields>)>,
    neat: bool,
) -> bool {
    &&& distinct(after)
    &&& forall|name: Text| #[trigger] has_key(before, name) ==> has_key(after, name)
    &&& forall|name: Text| #[trigger]
        has_key(after, name) ==> has_key(before, name) || named(rules, name)
    &&& forall|name: Text| #[trigger] rows_in(before, name).is_prefix_of(rows_in(after, name))
    &&& forall|name: Text, i: int|
        neat && rows_in(before, name).len() <= i < rows_in(after, name).len() ==> made(
            rules,
            #[trigger] rows_in(after, name)[i],
        )
}

/// Rows extend themselves.
pub proof fn lemma_extends_self(rules: Rules, rows: Seq<(Text, Seq<Fields>)>, neat: bool)
    requires
        distinct(rows),
    ensures
        extends(rules, rows, rows, neat),
{
    assert forall|name: Text| #[trigger] rows_in(rows, name).is_prefix_of(rows_in(rows, name)) by {
        let list = rows_in(rows, name);
        assert(list =~= list.subrange(0, list.len() as int));
    }
}

/// What extends an extension extends.
pub proof fn lemma_extends_twice(
    rules: Rules,
    a: Seq<(Text, Seq<Fields>)>,
    b: Seq<(Text, Seq<Fields>)>,
    c: Seq<(Text, Seq<Fields>)>,
    neat: bool,
)
    requires
        extends(rules, a, b, neat),
        extends(rules, b, c, neat),
    ensures
        extends(rules, a, c, neat),
{
    assert forall|name: Text| #[trigger] rows_in(a, name).is_prefix_of(rows_in(c, name)) by {
        assert(rows_in(a, name).is_prefix_of(rows_in(b, name)));
        assert(rows_in(b, name).is_prefix_of(rows_in(c, name)));
        assert(rows_in(a, name) =~= rows_in(c, name).subrange(0, rows_in(a, name).len() as int));
    }
    assert forall|name: Text, i: int|
        neat && rows_in(a, name).len() <= i < rows_in(c, name).len() implies made(
        rules,
        #[trigger] rows_in(c, name)[i],
    ) by {
        assert(rows_in(b, name).is_prefix_of(rows_in(c, name)));
        if i < rows_in(b, name).len() {
            assert(rows_in(b, name)[i] == rows_in(c, name)[i]);
        }
    }
}

/// A key occurs in the last entry or in those before it.
proof fn lemma_keys_before_last(others: Fields)
    requires
        others.len() > 0,
    ensures
        forall|key: Text|
            has_key(others, key) <==> #[trigger] has_key(others.drop_last(), key) || key
                == others.last().0,
{
    let fewer = others.drop_last();
    let last = others.last();
    assert(others[others.len() - 1] == last);
    assert forall|key: Text| has_key(others, key) <==> #[trigger] has_key(fewer, key) || key
        == last.0 by {
        if has_key(others, key) && key != last.0 {
            let j = choose|j: int| 0 <= j < others.len() && #[trigger] others[j].0 == key;
            assert(fewer[j].0 == key);
        }
        if has_key(fewer, key) {
            let j = choose|j: int| 0 <= j < fewer.len() && #[trigger] fewer[j].0 == key;
            assert(others[j].0 == key);
        }
    }
}

/// Putting members in keeps the keys distinct, adds their keys, and leaves what is under other keys.
#[verifier::spinoff_prover]
proof fn lemma_put_all_keys(members: Fields, others: Fields)
    requires
        distinct(members),
    ensures
        distinct(put_all(members, others)),
        forall|key: Text| #[trigger]
            has_key(put_all(members, others), key) <==> has_key(members, key) || has_key(others, key),
        forall|key: Text|
            has_key(members, key) && !has_key(others, key) ==> #[trigger] value_at(
                put_all(members, others),
                key,
            ) == value_at(members, key),
    decreases others.len(),
{
    if others.len() > 0 {
        let fewer = others.drop_last();
        let last = others.last();
        let before = put_all(members, fewer);
        let after = put_all(members, others);
        lemma_put_all_keys(members, fewer);
        lemma_put(before, last.0, last.1);
        lemma_keys_before_last(others);
        assert forall|key: Text| #[trigger] has_key(after, key) <==> has_key(members, key)
            || has_key(others, key) by {
            assert(has_key(before, key) <==> has_key(members, key) || has_key(fewer, key));
        }
        assert forall|key: Text| has_key(members, key) && !has_key(others, key) implies #[trigger]
        value_at(after, key) == value_at(members, key) by {
            assert(!has_key(fewer, key));
            assert(has_key(before, key));
            assert(value_at(before, key) == value_at(members, key));
        }
    }
}

/// Of the members put in, the last one of a key is the one that is there.
#[verifier::spinoff_prover]
proof fn lemma_put_all_last(members: Fields, others: Fields, j: int)
    requires
        distinct(members),
        0 <= j < others.len(),
        forall|k: int| j < k < others.len() ==> (#[trigger] others[k]).0 != others[j].0,
    ensures
        value_at(put_all(members, others), others[j].0) == others[j].1,
    decreases others.len(),
{
    let fewer = others.drop_last();
    let last = others.last();
    let before = put_all(members, fewer);
    let n = others.len() - 1;
    lemma_put_all_keys(members, fewer);
    lemma_put(before, last.0, last.1);
    if j < n {
        assert(others[n].0 != others[j].0);
        assert(fewer[j] == others[j]);
        assert forall|k: int| j < k < fewer.len() implies (#[trigger] fewer[k]).0 != fewer[j].0 by {
            assert(others[k].0 != others[j].0);
        }
        lemma_put_all_last(members, fewer, j);
        assert(has_key(fewer, others[j].0));
        assert(has_key(before, others[j].0));
    }
}

/// The last place where a key occurs.
proof fn lemma_last_place(others: Fields, key: Text) -> (j: int)
    requires
        has_key(others, key),
    ensures
        0 <= j < others.len(),
        others[j].0 == key,
        forall|k: int| j < k < others.len() ==> (#[trigger] others[k]).0 != key,
    decreases others.len(),
{
    if others.last().0 == key {
        others.len() - 1
    } else {
        lemma_keys_before_last(others);
        assert(has_key(others.drop_last(), key));
        let j = lemma_last_place(others.drop_last(), key);
        assert forall|k: int| j < k < others.len() implies (#[trigger] others[k]).0 != key by {
            if k < others.len() - 1 {
                assert(others.drop_last()[k].0 != key);
            }
        }
        j
    }
}

/// What putting members in gives: they are there afterwards, each key with the last value put under
/// it, and what was under other keys stays.
pub proof fn lemma_put_all(members: Fields, others: Fields)
    requires
        distinct(members),
    ensures
        distinct(put_all(members, others)),
        forall|key: Text| #[trigger]
            has_key(put_all(members, others), key) <==> has_key(members, key) || has_key(others, key),
        forall|key: Text|
            has_key(members, key) && !has_key(others, key) ==> #[trigger] value_at(
                put_all(members, others),
                key,
            ) == value_at(members, key),
        forall|j: int|
            0 <= j < others.len() && (forall|k: int|
                j < k < others.len() ==> (#[trigger] others[k]).0 != others[j].0) ==> value_at(
                put_all(members, others),
                (#[trigger] others[j]).0,
            ) == others[j].1,
        forall|key: Text|
            has_key(others, key) ==> exists|j: int|
                0 <= j < others.len() && (#[trigger] others[j]).0 == key && others[j].1
                    == #[trigger] value_at(put_all(members, others), key),
{
    lemma_put_all_keys(members, others);
    assert forall|j: int|
        0 <= j < others.len() && (forall|k: int|
            j < k < others.len() ==> (#[trigger] others[k]).0 != others[j].0) implies value_at(
        put_all(members, others),
        (#[trigger] others[j]).0,
    ) == others[j].1 by {
        lemma_put_all_last(members, others, j);
    }
    assert forall|key: Text| has_key(others, key) implies exists|j: int|
        0 <= j < others.len() && (#[trigger] others[j]).0 == key && others[j].1 == #[trigger]
        value_at(put_all(members, others), key) by {
        let j = lemma_last_place(others, key);
        lemma_put_all_last(members, others, j);
        assert(others[j].0 == key && others[j].1 == value_at(put_all(members, others), key));
    }
}

/// An array that no text replaces is gone.
pub proof fn lemma_gone_array(members: Fields, i: int)
    requires
        0 <= i < members.len(),
        members[i].1 is Array,
        array_text(members[i].1) is None,
    ensures
        gone_arrays(members).contains(members[i].0),
    decreases members.len(),
{
    let earlier = gone_arrays(members.drop_last());
    if i < members.len() - 1 {
        lemma_gone_array(members.drop_last(), i);
        let j = choose|j: int| 0 <= j < earlier.len() && earlier[j] == members[i].0;
        assert(gone_arrays(members)[j] == members[i].0);
    } else {
        assert(gone_arrays(members)[earlier.len() as int] == members[i].0);
    }
}

/// An object, and an array whose item goes into the row, are gone.
pub proof fn lemma_gone_object(
    rules: Rules,
    one_to_many: Seq<Seq<Text>>,
    keys: Seq<Text>,
    members: Fields,
    i: int,
)
    requires
        0 <= i < members.len(),
        nested(rules, one_to_many, keys, members[i]) is Some,
    ensures
        gone_objects(rules, one_to_many, keys, members).contains(members[i].0),
    decreases members.len(),
{
    let all = gone_objects(rules, one_to_many, keys, members);
    let earlier = gone_objects(rules, one_to_many, keys, members.drop_last());
    if i < members.len() - 1 {
        lemma_gone_object(rules, one_to_many, keys, members.drop_last(), i);
        let j = choose|j: int| 0 <= j < earlier.len() && earlier[j] == members[i].0;
        assert(all[j] == members[i].0);
    } else {
        assert(all[earlier.len() as int] == members[i].0);
    }
}

/// Every array that a text replaces has its text, and nothing but texts replaces arrays.
pub proof fn lemma_array_texts(members: Fields)
    ensures
        forall|i: int|
            0 <= i < members.len() && array_text(members[i].1) is Some ==> has_key(
                array_texts(members),
                (#[trigger] members[i]).0,
            ),
        forall|i: int|
            0 <= i < array_texts(members).len() ==> (#[trigger] array_texts(members)[i]).1 is Str,
    decreases members.len(),
{
    if members.len() > 0 {
        let fewer = members.drop_last();
        let earlier = array_texts(fewer);
        let all = array_texts(members);
        lemma_array_texts(fewer);
        assert forall|i: int|
            0 <= i < members.len() && array_text(members[i].1) is Some implies has_key(
            all,
            (#[trigger] members[i]).0,
        ) by {
            if i < fewer.len() {
                assert(fewer[i] == members[i]);
                let j = choose|j: int|
                    0 <= j < earlier.len() && #[trigger] earlier[j].0 == members[i].0;
                assert(all[j].0 == members[i].0);
            } else {
                assert(all[earlier.len() as int].0 == members[i].0);
            }
        }
        assert forall|i: int| 0 <= i < all.len() implies (#[trigger] all[i]).1 is Str by {
            if i < earlier.len() {
                assert(all[i] == earlier[i]);
            }
        }
    }
}

/// The row of an object with distinct keys is flat, where what the objects in it put into it is.
pub proof fn lemma_flat_row(
    rules: Rules,
    one_to_many: Seq<Seq<Text>>,
    keys: Seq<Text>,
    members: Fields,
    inner: Fields,
)
    requires
        distinct(members),
        forall|i: int| 0 <= i < inner.len() ==> scalar((#[trigger] inner[i]).1),
    ensures
        flat(flat_row(rules, one_to_many, keys, members, inner)),
{
    let arrays = gone_arrays(members);
    let objects = gone_objects(rules, one_to_many, keys, members);
    let gone = arrays + objects;
    let left = without_all(members, gone);
    let others = array_texts(members) + inner;
    let row = put_all(left, others);
    lemma_without_all(members, gone);
    lemma_put_all(left, others);
    lemma_array_texts(members);
    assert forall|i: int| 0 <= i < row.len() implies scalar((#[trigger] row[i]).1) by {
        let key = row[i].0;
        lemma_entry_found(row, i);
        if has_key(others, key) {
            let j = choose|j: int|
                0 <= j < others.len() && (#[trigger] others[j]).0 == key && others[j].1 == value_at(
                    row,
                    key,
                );
            if j < array_texts(members).len() {
                assert(others[j] == array_texts(members)[j]);
            } else {
                assert(others[j] == inner[j - array_texts(members).len()]);
            }
        } else {
            assert(has_key(left, key));
            lemma_place_of(members, key);
            let p = place_of(members, key);
            assert(value_at(left, key) == members[p].1);
            if members[p].1 is Array {
                if array_text(members[p].1) is Some {
                    let texts = array_texts(members);
                    let j = choose|j: int| 0 <= j < texts.len() && #[trigger] texts[j].0 == key;
                    assert(others[j].0 == key);
                } else {
                    lemma_gone_array(members, p);
                    let j = choose|j: int| 0 <= j < arrays.len() && arrays[j] == key;
                    assert(gone[j] == key);
                }
            } else if members[p].1 is Object {
                lemma_gone_object(rules, one_to_many, keys, members, p);
                let j = choose|j: int| 0 <= j < objects.len() && objects[j] == key;
                assert(gone[arrays.len() + j] == key);
            }
        }
    }
}

/// Putting a value that is no array and no object keeps a row flat.
proof fn lemma_put_flat(row: Fields, key: Text, value: Json)
    requires
        flat(row),
        scalar(value),
    ensures
        flat(put(row, key, value)),
{
    lemma_put(row, key, value);
    lemma_place_of(row, key);
    let after = put(row, key, value);
    assert forall|i: int| 0 <= i < after.len() implies scalar((#[trigger] after[i]).1) by {
        if i < row.len() && after[i] != row[i] {
            assert(after[i] == (key, value));
        }
    }
}

/// Links keep a row flat and take no key away; with all of them, the row has its identity.
proof fn lemma_with_links(
    rules: Rules,
    row: Fields,
    item_steps: Seq<Seq<Step>>,
    item_keys: Seq<Seq<Text>>,
    n: nat,
    last: nat,
)
    requires
        flat(row),
    ensures
        flat(with_links(rules, row, item_steps, item_keys, n, last)),
        forall|key: Text|
            has_key(row, key) ==> #[trigger] has_key(
                with_links(rules, row, item_steps, item_keys, n, last),
                key,
            ),
        n == last && n > 0 ==> {
            &&& has_key(with_links(rules, row, item_steps, item_keys, n, last), "_link"@)
            &&& value_at(with_links(rules, row, item_steps, item_keys, n, last), "_link"@)
                == Json::Str(link_text(rules.number, item_steps[n - 1]))
        },
    decreases n,
{
    if n > 0 {
        let m = (n - 1) as nat;
        let earlier = with_links(rules, row, item_steps, item_keys, m, last);
        lemma_with_links(rules, row, item_steps, item_keys, m, last);
        let link = Json::Str(link_text(rules.number, item_steps[n - 1]));
        let name = if n == last {
            "_link"@
        } else {
            "_link_"@ + join(item_keys[n - 1], rules.separator)
        };
        lemma_put(earlier, name, link);
        lemma_put_flat(earlier, name, link);
        assert forall|key: Text| has_key(row, key) implies #[trigger] has_key(
            put(earlier, name, link),
            key,
        ) by {
            assert(has_key(earlier, key));
        }
    }
}

/// A name that starts with `_link_` is not `_link`.
pub proof fn lemma_link_names(rest: Text)
    ensures
        "_link_"@ + rest != "_link"@,
{
    reveal_strlit("_link_");
    reveal_strlit("_link");
    assert(("_link_"@ + rest).len() != "_link"@.len());
}

/// A flat row with its links is one that a document makes; its identity is that of the innermost
/// array item around it, or the number of the document where there is none.
pub proof fn lemma_linked(
    rules: Rules,
    row: Fields,
    item_steps: Seq<Seq<Step>>,
    item_keys: Seq<Seq<Text>>,
)
    requires
        flat(row),
        item_steps.len() == item_keys.len(),
    ensures
        made(rules, linked(rules, row, item_steps, item_keys)),
        value_at(linked(rules, row, item_steps, item_keys), "_link"@) == Json::Str(
            if item_steps.len() == 0 {
                decimal(rules.number)
            } else {
                link_text(rules.number, item_steps.last())
            },
        ),
{
    let number = Json::Str(decimal(rules.number));
    let n = item_steps.len();
    lemma_put(row, "_link"@, number);
    lemma_put_flat(row, "_link"@, number);
    let start = if n == 0 {
        put(row, "_link"@, number)
    } else {
        row
    };
    lemma_with_links(rules, start, item_steps, item_keys, n, n);
    let middle = with_links(rules, start, item_steps, item_keys, n, n);
    lemma_put(middle, "_link_"@ + rules.main, number);
    lemma_put_flat(middle, "_link_"@ + rules.main, number);
    lemma_link_names(rules.main);
    assert(has_key(middle, "_link"@));
    assert(value_at(put(middle, "_link_"@ + rules.main, number), "_link"@) == value_at(
        middle,
        "_link"@,
    ));
}

/// Giving a row to its table adds the row at the end of that table.
pub proof fn lemma_with_row_extends(
    rules: Rules,
    store: Store,
    row: Fields,
    place: Place,
    neat: bool,
)
    requires
        distinct(store.rows),
        neat ==> flat(row) && place.item_steps.len() == place.item_keys.len(),
    ensures
        extends(
            rules,
            store.rows,
            with_row(rules, store, row, place.keys, place.item_steps, place.item_keys).rows,
            neat,
        ),
{
    let name = table_name(rules, place.keys);
    let whole = linked(rules, row, place.item_steps, place.item_keys);
    let before = store.rows;
    let list = rows_in(before, name).push(whole);
    let after = put(before, name, list);
    lemma_put(before, name, list);
    if neat {
        lemma_linked(rules, row, place.item_steps, place.item_keys);
    }
    assert(named(rules, name)) by {
        if place.keys.len() != 0 {
            assert(rules.prefix =~= name.subrange(0, rules.prefix.len() as int));
        }
    }
    assert forall|other: Text| #[trigger]
        rows_in(before, other).is_prefix_of(rows_in(after, other)) by {
        assert(rows_in(before, other) =~= rows_in(after, other).subrange(
            0,
            rows_in(before, other).len() as int,
        ));
    }
    assert forall|other: Text| #[trigger] has_key(before, other) implies has_key(after, other) by {
        if other != name {
            assert(has_key(after, other) == has_key(before, other));
        }
    }
    assert forall|other: Text, i: int|
        neat && rows_in(before, other).len() <= i < rows_in(after, other).len() implies made(
        rules,
        #[trigger] rows_in(after, other)[i],
    ) by {
        if other != name {
            assert(has_key(before, other) == has_key(after, other));
        }
    }
}

/// Flattening an object adds rows behind those that are there, in tables that the rules name, and
/// the rows are such as a document makes, where no object in it has a key twice.
pub proof fn lemma_flatten_extends(
    rules: Rules,
    store: Store,
    members: Fields,
    place: Place,
    emit: bool,
    as_inlined: bool,
    neat: bool,
)
    requires
        distinct(store.rows),
        neat ==> tidy(Json::Object(members)) && place.item_steps.len() == place.item_keys.len(),
    ensures
        extends(
            rules,
            store.rows,
            flatten(rules, store, members, place, emit, as_inlined).0.rows,
            neat,
        ),
        neat ==> (flatten(rules, store, members, place, emit, as_inlined).1 matches Some(row)
            ==> flat(row)),
    decreases members, 2int, 0int,
{
    let n = members.len();
    let middle = flatten_arrays(rules, store, members, place, as_inlined, n);
    lemma_flatten_arrays_extends(rules, store, members, place, as_inlined, n, neat);
    lemma_flatten_objects_extends(rules, middle, store.one_to_many, members, place, n, neat);
    let (after, inner) = flatten_objects(rules, middle, store.one_to_many, members, place, n);
    let row = flat_row(rules, store.one_to_many, place.keys, members, inner);
    lemma_extends_twice(rules, store.rows, middle.rows, after.rows, neat);
    if neat {
        lemma_flat_row(rules, store.one_to_many, place.keys, members, inner);
    }
    if emit {
        lemma_with_row_extends(rules, after, row, place, neat);
        let end = with_row(rules, after, row, place.keys, place.item_steps, place.item_keys);
        lemma_extends_twice(rules, store.rows, after.rows, end.rows, neat);
    }
}

/// What the arrays of an object add.
pub proof fn lemma_flatten_arrays_extends(
    rules: Rules,
    store: Store,
    members: Fields,
    place: Place,
    as_inlined: bool,
    n: nat,
    neat: bool,
)
    requires
        n <= members.len(),
        distinct(store.rows),
        neat ==> tidy(Json::Object(members)) && place.item_steps.len() == place.item_keys.len(),
    ensures
        extends(
            rules,
            store.rows,
            flatten_arrays(rules, store, members, place, as_inlined, n).rows,
            neat,
        ),
    decreases members, 1int, n,
{
    lemma_extends_self(rules, store.rows, neat);
    if n > 0 {
        let m = (n - 1) as nat;
        let before = flatten_arrays(rules, store, members, place, as_inlined, m);
        lemma_flatten_arrays_extends(rules, store, members, place, as_inlined, m, neat);
        let key = members[n - 1].0;
        match members[n - 1].1 {
            Json::Array(items) => {
                if all_objects(items) && !as_inlined {
                    let noted = with_array(rules, before, place.keys.push(key), items.len());
                    if neat {
                        lemma_tidy_member(members, n - 1);
                    }
                    lemma_flatten_items_extends(
                        rules,
                        noted,
                        items,
                        place,
                        key,
                        items.len(),
                        neat,
                    );
                    let after = flatten_items(rules, noted, items, place, key, items.len());
                    lemma_extends_twice(rules, store.rows, before.rows, after.rows, neat);
                }
            },
            _ => {},
        }
    }
}

/// What the items of an array add.
pub proof fn lemma_flatten_items_extends(
    rules: Rules,
    store: Store,
    items: Seq<Json>,
    place: Place,
    key: Text,
    n: nat,
    neat: bool,
)
    requires
        n <= items.len(),
        distinct(store.rows),
        neat ==> tidy(Json::Array(items)) && place.item_steps.len() == place.item_keys.len(),
    ensures
        extends(
            rules,
            store.rows,
            flatten_items(rules, store, items, place, key, n).rows,
            neat,
        ),
    decreases items, 3int, n,
{
    lemma_extends_self(rules, store.rows, neat);
    if n > 0 {
        let m = (n - 1) as nat;
        lemma_flatten_items_extends(rules, store, items, place, key, m, neat);
        let before = flatten_items(rules, store, items, place, key, m);
        match items[n - 1] {
            Json::Object(inner) => {
                if neat {
                    lemma_tidy_item(items, n - 1);
                }
                let there = place.item(key, m);
                lemma_flatten_extends(rules, before, inner, there, true, false, neat);
                let after = flatten(rules, before, inner, there, true, false).0;
                lemma_extends_twice(rules, store.rows, before.rows, after.rows, neat);
            },
            _ => {},
        }
    }
}

/// What the objects in an object add, and that they put nothing into its row but plain values.
pub proof fn lemma_flatten_objects_extends(
    rules: Rules,
    store: Store,
    one_to_many: Seq<Seq<Text>>,
    members: Fields,
    place: Place,
    n: nat,
    neat: bool,
)
    requires
        n <= members.len(),
        distinct(store.rows),
        neat ==> tidy(Json::Object(members)) && place.item_steps.len() == place.item_keys.len(),
    ensures
        extends(
            rules,
            store.rows,
            flatten_objects(rules, store, one_to_many, members, place, n).0.rows,
            neat,
        ),
        neat ==> forall|i: int|
            0 <= i < flatten_objects(rules, store, one_to_many, members, place, n).1.len()
                ==> scalar(
                (#[trigger] flatten_objects(
                    rules,
                    store,
                    one_to_many,
                    members,
                    place,
                    n,
                ).1[i]).1,
            ),
    decreases members, 1int, n,
{
    lemma_extends_self(rules, store.rows, neat);
    if n > 0 {
        let m = (n - 1) as nat;
        lemma_flatten_objects_extends(rules, store, one_to_many, members, place, m, neat);
        let (before, inner) = flatten_objects(rules, store, one_to_many, members, place, m);
        let (after, more) = flatten_objects(rules, store, one_to_many, members, place, n);
        let key = members[n - 1].0;
        match nested(rules, one_to_many, place.keys, members[n - 1]) {
            Some(object) => {
                if neat {
                    lemma_tidy_member(members, n - 1);
                    if let Json::Array(items) = members[n - 1].1 {
                        lemma_tidy_item(items, 0);
                    }
                }
                let emit = rules.emit.contains(place.keys.push(key));
                let there = place.member(key);
                let as_inlined = members[n - 1].1 is Array;
                lemma_flatten_extends(rules, before, object, there, emit, as_inlined, neat);
                lemma_extends_twice(rules, store.rows, before.rows, after.rows, neat);
                let row = flatten(rules, before, object, there, emit, as_inlined).1;
                if let Some(row) = row {
                    let added = under(key + rules.separator, row);
                    if neat {
                        assert forall|i: int| 0 <= i < more.len() implies scalar(
                            (#[trigger] more[i]).1,
                        ) by {
                            if i < inner.len() {
                                assert(more[i] == inner[i]);
                            } else {
                                assert(more[i] == added[i - inner.len()]);
                                assert(added[i - inner.len()].1 == row[i - inner.len()].1);
                            }
                        }
                    }
                }
            },
            None => {},
        }
    }
}

} // verus!

//! What holds of rows: what of an object stands in its row, under which key, and in which table.

use crate::convert::pattern_of;
use crate::extend::{
    lemma_array_texts, lemma_flatten_extends, lemma_gone_array, lemma_gone_object, lemma_put_all,
};
use crate::files::FlatFiles;
use crate::flatten::{
    array_text, array_texts, flat_row, flatten, flatten_arrays, flatten_objects, gone_arrays,
    gone_objects, lemma_without_all, link_text, linked, nested, rows_in, table_name, with_array,
    with_links, with_row, without_all, Place, Rules, Store,
};
use crate::laws::{
    after_document, law_emitting_is_giving_the_row, law_plain_members_are_kept,
    lemma_array_text_from, lemma_gone_array_from, lemma_gone_object_from,
    lemma_join_push, lemma_without_path,
};
use crate::metadata::label;
use crate::path::{key_paths, step_texts, Step};
use crate::table_laws::law_labels_are_without_the_prefix;
use crate::text::{decimal, join, Text};
use crate::value::{
    distinct, has_key, item_texts, json_text, lemma_entry_found, lemma_put, member_texts, put, quoted,
    value_at, without, Fields, Json,
};
use vstd::prelude::*;

verus! {

/// Whether a member stands in the row of its object under its own key: it is neither an array nor an
/// object, or it is an array with an item that is no object.
pub open spec fn stays(value: Json) -> bool {
    match value {
        Json::Array(items) => exists|j: int| 0 <= j < items.len() && !(#[trigger] items[j] is Object),
        Json::Object(_) => false,
        _ => true,
    }
}

/// The row of an object holds the members that are neither arrays nor objects, the arrays with an item
/// that is no object, what the objects in it put into it, and nothing else. So an empty array, an
/// array of objects and an object leave no trace of their own there.
pub proof fn law_row_holds_what_stays(
    rules: Rules,
    one_to_many: Seq<Seq<Text>>,
    keys: Seq<Text>,
    members: Fields,
    inner: Fields,
    key: Text,
)
    requires
        distinct(members),
    ensures
        has_key(flat_row(rules, one_to_many, keys, members, inner), key) <==> has_key(inner, key)
            || has_key(members, key) && stays(value_at(members, key)),
{
    let arrays = gone_arrays(members);
    let objects = gone_objects(rules, one_to_many, keys, members);
    let gone = arrays + objects;
    let left = without_all(members, gone);
    let texts = array_texts(members);
    let others = texts + inner;
    lemma_without_all(members, gone);
    lemma_put_all(left, others);
    lemma_array_texts(members);
    assert(has_key(left, key) <==> has_key(members, key) && !gone.contains(key));
    assert(has_key(others, key) <==> has_key(texts, key) || has_key(inner, key)) by {
        if has_key(inner, key) {
            let j = choose|j: int| 0 <= j < inner.len() && #[trigger] inner[j].0 == key;
            assert(others[texts.len() + j].0 == key);
        }
        if has_key(texts, key) {
            let j = choose|j: int| 0 <= j < texts.len() && #[trigger] texts[j].0 == key;
            assert(others[j].0 == key);
        }
        if has_key(others, key) {
            let j = choose|j: int| 0 <= j < others.len() && #[trigger] others[j].0 == key;
            if j < texts.len() {
                assert(texts[j].0 == key);
            } else {
                assert(inner[j - texts.len()].0 == key);
            }
        }
    }
    if has_key(texts, key) {
        let j = choose|j: int| 0 <= j < texts.len() && #[trigger] texts[j].0 == key;
        let i = lemma_array_text_from(members, j);
        lemma_entry_found(members, i);
        lemma_array_text_stays(members[i].1);
    }
    if has_key(members, key) {
        let i = choose|i: int| 0 <= i < members.len() && #[trigger] members[i].0 == key;
        lemma_entry_found(members, i);
        let value = members[i].1;
        lemma_array_text_stays(value);
        if stays(value) {
            if gone.contains(key) {
                let j = choose|j: int| 0 <= j < gone.len() && gone[j] == key;
                if j < arrays.len() {
                    assert(arrays[j] == key);
                    let p = lemma_gone_array_from(members, j);
                    assert(p == i);
                    assert(has_key(texts, key));
                } else {
                    assert(objects[j - arrays.len()] == key);
                    let p = lemma_gone_object_from(rules, one_to_many, keys, members, j - arrays.len());
                    assert(p == i);
                }
            }
        } else if value is Array {
            lemma_gone_array(members, i);
            let j = choose|j: int| 0 <= j < arrays.len() && arrays[j] == key;
            assert(gone[j] == key);
        } else {
            lemma_gone_object(rules, one_to_many, keys, members, i);
            let j = choose|j: int| 0 <= j < objects.len() && objects[j] == key;
            assert(gone[arrays.len() + j] == key);
        }
    }
}

/// A text replaces an array exactly if some item is no object.
proof fn lemma_array_text_stays(value: Json)
    ensures
        value is Array ==> (array_text(value) is Some <==> stays(value)),
        array_text(value) is Some ==> value is Array,
{
    if let Json::Array(items) = value {
        if items.len() > 0 && forall|i: int| 0 <= i < items.len() ==> #[trigger] items[i] is Str {
            assert(!(items[0] is Object));
        }
    }
}

/// An array that holds strings only is in the row as its strings joined by commas, and any other
/// array with an item that is no object as its JSON text, unless an object in the same object
/// puts something there.
#[verifier::rlimit(40)]
pub proof fn law_arrays_become_texts(
    rules: Rules,
    one_to_many: Seq<Seq<Text>>,
    keys: Seq<Text>,
    members: Fields,
    inner: Fields,
    i: int,
)
    requires
        distinct(members),
        0 <= i < members.len(),
        members[i].1 is Array,
        stays(members[i].1),
        !has_key(inner, members[i].0),
    ensures
        ({
            let items = members[i].1->Array_0;
            let text = if forall|j: int| 0 <= j < items.len() ==> #[trigger] items[j] is Str {
                join(Seq::new(items.len(), |j: int| items[j]->Str_0), ","@)
            } else {
                json_text(members[i].1)
            };
            value_at(flat_row(rules, one_to_many, keys, members, inner), members[i].0) == Json::Str(
                text,
            )
        }),
{
    let key = members[i].0;
    let items = members[i].1->Array_0;
    let gone = gone_arrays(members) + gone_objects(rules, one_to_many, keys, members);
    let left = without_all(members, gone);
    let texts = array_texts(members);
    let others = texts + inner;
    lemma_array_text_stays(members[i].1);
    lemma_without_all(members, gone);
    lemma_put_all(left, others);
    lemma_array_texts(members);
    let first = choose|j: int| 0 <= j < texts.len() && #[trigger] texts[j].0 == key;
    assert(others[first].0 == key);
    let row = flat_row(rules, one_to_many, keys, members, inner);
    let j = choose|j: int|
        0 <= j < others.len() && (#[trigger] others[j]).0 == key && others[j].1 == value_at(
            row,
            key,
        );
    if j >= texts.len() {
        assert(inner[j - texts.len()].0 == key);
    }
    assert(others[j] == texts[j]);
    let p = lemma_array_text_from(members, j);
    assert(p == i);
    let bad = choose|b: int| 0 <= b < items.len() && !(#[trigger] items[b] is Object);
    assert(!(items[bad] is Object));
}

/// What goes into the row of the object around it is an object, or the item of an array that has this
/// one item, an object, where arrays of one item are put into rows and no array at this path
/// had more.
pub proof fn law_only_single_items_go_up(
    rules: Rules,
    one_to_many: Seq<Seq<Text>>,
    keys: Seq<Text>,
    member: (Text, Json),
)
    ensures
        member.1 matches Json::Object(inner) ==> nested(rules, one_to_many, keys, member) == Some(
            inner,
        ),
        member.1 matches Json::Array(items) ==> (nested(rules, one_to_many, keys, member) is Some
            <==> rules.inline && items.len() == 1 && items[0] is Object && !one_to_many.contains(
            keys.push(member.0),
        )),
        member.1 matches Json::Array(items) ==> nested(
            rules,
            one_to_many,
            keys,
            member,
        ) matches Some(inner) ==> items[0] == Json::Object(inner),
        !(member.1 is Array) && !(member.1 is Object) ==> nested(rules, one_to_many, keys, member)
            is None,
{
}

/// What objects put into the row of the object around them is under the key of one of them and the
/// separator.
pub proof fn law_inner_keys_begin_with_their_object(
    rules: Rules,
    store: Store,
    one_to_many: Seq<Seq<Text>>,
    members: Fields,
    place: Place,
    n: nat,
    j: int,
)
    requires
        n <= members.len(),
        0 <= j < flatten_objects(rules, store, one_to_many, members, place, n).1.len(),
    ensures
        exists|i: int|
            0 <= i < n && ((#[trigger] members[i]).1 is Object || members[i].1 is Array)
                && !rules.emit.contains(place.keys.push(members[i].0)) && (members[i].0
                + rules.separator).is_prefix_of(
                flatten_objects(rules, store, one_to_many, members, place, n).1[j].0,
            ),
    decreases n,
{
    if n > 0 {
        let m = (n - 1) as nat;
        let earlier = flatten_objects(rules, store, one_to_many, members, place, m).1;
        let all = flatten_objects(rules, store, one_to_many, members, place, n).1;
        if j < earlier.len() {
            law_inner_keys_begin_with_their_object(rules, store, one_to_many, members, place, m, j);
            assert(all[j] == earlier[j]);
            let i = choose|i: int|
                0 <= i < m && ((#[trigger] members[i]).1 is Object || members[i].1 is Array)
                    && !rules.emit.contains(place.keys.push(members[i].0)) && (members[i].0
                    + rules.separator).is_prefix_of(earlier[j].0);
            assert((members[i].0 + rules.separator).is_prefix_of(all[j].0));
        } else {
            let member = members[m as int];
            let prefix = member.0 + rules.separator;
            law_emitting_is_giving_the_row(
                rules,
                flatten_objects(rules, store, one_to_many, members, place, m).0,
                nested(rules, one_to_many, place.keys, member)->Some_0,
                place.member(member.0),
                member.1 is Array,
            );
            assert(prefix.is_prefix_of(all[j].0)) by {
                assert(prefix =~= all[j].0.subrange(0, prefix.len() as int));
            }
        }
    }
}

/// An object in an object is flattened where it stands, with a row of its own if its path is among those
/// that are asked for; with one, it puts nothing into the row of the object around it. That it was
/// the item of an array is kept in mind.
pub proof fn law_objects_are_flattened_where_they_stand(
    rules: Rules,
    store: Store,
    one_to_many: Seq<Seq<Text>>,
    members: Fields,
    place: Place,
    i: int,
)
    requires
        0 <= i < members.len(),
        nested(rules, one_to_many, place.keys, members[i]) is Some,
    ensures
        rules.emit.contains(place.keys.push(members[i].0)) ==> flatten_objects(
            rules,
            store,
            one_to_many,
            members,
            place,
            (i + 1) as nat,
        ).1 == flatten_objects(rules, store, one_to_many, members, place, i as nat).1,
        flatten_objects(rules, store, one_to_many, members, place, (i + 1) as nat).0 == flatten(
            rules,
            flatten_objects(rules, store, one_to_many, members, place, i as nat).0,
            nested(rules, one_to_many, place.keys, members[i])->Some_0,
            Place {
                steps: place.steps.push(Step::Key(members[i].0)),
                keys: place.keys.push(members[i].0),
                ..place
            },
            rules.emit.contains(place.keys.push(members[i].0)),
            members[i].1 is Array,
        ).0,
{
    law_emitting_is_giving_the_row(
        rules,
        flatten_objects(rules, store, one_to_many, members, place, i as nat).0,
        nested(rules, one_to_many, place.keys, members[i])->Some_0,
        place.member(members[i].0),
        members[i].1 is Array,
    );
}

/// The arrays in an item that was put into a row give no rows then: their items have theirs already.
pub proof fn law_arrays_in_an_inlined_item_add_no_rows(
    rules: Rules,
    store: Store,
    members: Fields,
    place: Place,
    n: nat,
)
    ensures
        flatten_arrays(rules, store, members, place, true, n).rows == store.rows,
    decreases n,
{
    if 0 < n <= members.len() {
        law_arrays_in_an_inlined_item_add_no_rows(rules, store, members, place, (n - 1) as nat);
    }
}

/// The rows of the document go to the main table, and those at other paths to a table named by the
/// prefix and the keys of the path, with the separator between them.
pub proof fn law_tables_are_named_by_their_paths(rules: Rules, keys: Seq<Text>, key: Text)
    ensures
        table_name(rules, Seq::empty()) == rules.main,
        table_name(rules, seq![key]) == rules.prefix + key,
        keys.len() > 0 ==> table_name(rules, keys.push(key)) == table_name(rules, keys)
            + rules.separator + key,
{
    lemma_join_push(keys, key, rules.separator);
    assert(table_name(rules, keys.push(key)) == rules.prefix + join(keys.push(key), rules.separator));
    if keys.len() > 0 {
        assert(rules.prefix + (join(keys, rules.separator) + rules.separator + key) =~= rules.prefix
            + join(keys, rules.separator) + rules.separator + key);
    }
}

/// The full path of a column is the keys of the path of its table and its own name, with the separator
/// between them.
pub proof fn law_full_paths_of_columns(rules: Rules, keys: Seq<Text>, field: Text)
    ensures
        label(rules.main, rules.main, rules.separator, rules.prefix) + field == field,
        keys.len() > 0 && table_name(rules, keys) != rules.main ==> label(
            table_name(rules, keys),
            rules.main,
            rules.separator,
            rules.prefix,
        ) + field == join(keys.push(field), rules.separator),
{
    reveal_strlit("");
    assert(""@ + field =~= field);
    lemma_join_push(keys, field, rules.separator);
    if keys.len() > 0 && table_name(rules, keys) != rules.main {
        let name = join(keys, rules.separator);
        law_labels_are_without_the_prefix(name, rules.main, rules.separator, rules.prefix);
    }
}

/// The identity of the row of an array item: the number of the document and the keys and indexes of
/// the way to the item, with dots between them.
pub proof fn law_links_tell_the_way(number: nat, steps: Seq<Step>, key: Text, index: nat)
    ensures
        link_text(number, seq![Step::Key(key)]) == decimal(number) + "."@ + key,
        link_text(number, seq![Step::Index(index)]) == decimal(number) + "."@ + decimal(index),
        steps.len() > 0 ==> link_text(number, steps.push(Step::Key(key))) == link_text(number, steps)
            + "."@ + key,
        steps.len() > 0 ==> link_text(number, steps.push(Step::Index(index))) == link_text(
            number,
            steps,
        ) + "."@ + decimal(index),
{
    let texts = step_texts(steps);
    lemma_join_push(texts, key, "."@);
    lemma_join_push(texts, decimal(index), "."@);
    assert(step_texts(steps.push(Step::Key(key))) =~= texts.push(key));
    assert(step_texts(steps.push(Step::Index(index))) =~= texts.push(decimal(index)));
    assert(step_texts(seq![Step::Key(key)]) =~= seq![key]);
    assert(step_texts(seq![Step::Index(index)]) =~= seq![decimal(index)]);
    let start = decimal(number) + "."@;
    assert(start + (join(texts, "."@) + "."@ + key) =~= start + join(texts, "."@) + "."@ + key);
    assert(start + (join(texts, "."@) + "."@ + decimal(index)) =~= start + join(texts, "."@) + "."@
        + decimal(index));
}

/// Noting an array says nothing of other arrays and adds no rows. Once an array is known to have had
/// more than one item, noting it again says nothing new.
pub proof fn law_noting_an_array_leaves_the_others(
    rules: Rules,
    store: Store,
    path: Seq<Text>,
    items: nat,
    other: Seq<Text>,
)
    ensures
        with_array(rules, store, path, items).rows == store.rows,
        other != path ==> (with_array(rules, store, path, items).one_to_many.contains(other)
            <==> store.one_to_many.contains(other)),
        other != path ==> (with_array(rules, store, path, items).one_to_one.contains(other)
            <==> store.one_to_one.contains(other)),
        store.one_to_many.contains(path) ==> with_array(rules, store, path, items) == store,
        items == 1 ==> with_array(rules, store, path, items).one_to_many == store.one_to_many,
{
    lemma_without_path(store.one_to_one, path);
    lemma_push_contains(store.one_to_many, path, other);
    lemma_push_contains(store.one_to_one, path, other);
}

proof fn lemma_push_contains(list: Seq<Seq<Text>>, path: Seq<Text>, other: Seq<Text>)
    ensures
        list.push(path).contains(other) <==> list.contains(other) || other == path,
{
    let all = list.push(path);
    if list.contains(other) {
        let i = choose|i: int| 0 <= i < list.len() && list[i] == other;
        assert(all[i] == other);
    }
    assert(all[list.len() as int] == path);
}

/// A row goes behind the others of the table of its path, and changes no other table.
pub proof fn law_row_goes_to_the_table_of_its_path(
    rules: Rules,
    store: Store,
    row: Fields,
    place: Place,
    table: Text,
)
    requires
        distinct(store.rows),
    ensures
        ({
            let after = with_row(
                rules,
                store,
                row,
                place.keys,
                place.item_steps,
                place.item_keys,
            );
            &&& rows_in(after.rows, table) == if table == table_name(rules, place.keys) {
                rows_in(store.rows, table).push(
                    linked(rules, row, place.item_steps, place.item_keys),
                )
            } else {
                rows_in(store.rows, table)
            }
            &&& after.one_to_many == store.one_to_many
            &&& after.one_to_one == store.one_to_one
        }),
{
    let name = table_name(rules, place.keys);
    let whole = linked(rules, row, place.item_steps, place.item_keys);
    lemma_put(store.rows, name, rows_in(store.rows, name).push(whole));
}

/// Links are put under names that begin with `_link`: what a row holds under other names stays.
pub proof fn law_links_leave_other_columns_alone(
    rules: Rules,
    row: Fields,
    place: Place,
    key: Text,
)
    requires
        distinct(row),
        !("_link"@.is_prefix_of(key)),
    ensures
        has_key(linked(rules, row, place.item_steps, place.item_keys), key) <==> has_key(row, key),
        has_key(row, key) ==> value_at(
            linked(rules, row, place.item_steps, place.item_keys),
            key,
        ) == value_at(row, key),
{
    let number = Json::Str(decimal(rules.number));
    let steps = place.item_steps;
    let keys = place.item_keys;
    lemma_link_prefix(rules.main);
    lemma_put(row, "_link"@, number);
    let start = if steps.len() == 0 {
        put(row, "_link"@, number)
    } else {
        row
    };
    let n = if steps.len() <= keys.len() {
        steps.len()
    } else {
        keys.len()
    };
    lemma_links_leave_alone(rules, start, steps, keys, n, n, key);
    lemma_put(with_links(rules, start, steps, keys, n, n), "_link_"@ + rules.main, number);
}

proof fn lemma_link_prefix(rest: Text)
    ensures
        "_link"@.is_prefix_of("_link"@),
        "_link"@.is_prefix_of("_link_"@ + rest),
{
    reveal_strlit("_link");
    reveal_strlit("_link_");
    assert("_link"@ =~= ("_link_"@ + rest).subrange(0, 5));
    assert("_link"@ =~= "_link"@.subrange(0, 5));
}

proof fn lemma_links_leave_alone(
    rules: Rules,
    row: Fields,
    item_steps: Seq<Seq<Step>>,
    item_keys: Seq<Seq<Text>>,
    n: nat,
    last: nat,
    key: Text,
)
    requires
        distinct(row),
        !("_link"@.is_prefix_of(key)),
    ensures
        distinct(with_links(rules, row, item_steps, item_keys, n, last)),
        has_key(with_links(rules, row, item_steps, item_keys, n, last), key) <==> has_key(row, key),
        has_key(row, key) ==> value_at(
            with_links(rules, row, item_steps, item_keys, n, last),
            key,
        ) == value_at(row, key),
    decreases n,
{
    if n > 0 {
        let m = (n - 1) as nat;
        let earlier = with_links(rules, row, item_steps, item_keys, m, last);
        lemma_links_leave_alone(rules, row, item_steps, item_keys, m, last, key);
        let link = Json::Str(link_text(rules.number, item_steps[n - 1]));
        let name = "_link_"@ + join(item_keys[n - 1], rules.separator);
        lemma_link_prefix(join(item_keys[n - 1], rules.separator));
        lemma_put(earlier, "_link"@, link);
        lemma_put(earlier, name, link);
    }
}

/// The last row of the main table is that of the document: it holds each member that is neither an
/// array nor an object, under its own key, where the key is no link and does not begin with that of
/// another member and the separator.
pub proof fn law_document_row_holds_plain_members(
    rules: Rules,
    store: Store,
    members: Fields,
    i: int,
)
    requires
        distinct(store.rows),
        distinct(members),
        0 <= i < members.len(),
        !(members[i].1 is Array) && !(members[i].1 is Object),
        !("_link"@.is_prefix_of(members[i].0)),
        forall|j: int|
            0 <= j < members.len() ==> !((#[trigger] members[j]).0 + rules.separator).is_prefix_of(
                members[i].0,
            ),
    ensures
        ({
            let rows = rows_in(after_document(rules, store, members).rows, rules.main);
            &&& rows.len() > 0
            &&& has_key(rows.last(), members[i].0)
            &&& value_at(rows.last(), members[i].0) == members[i].1
        }),
{
    let place = Place::root();
    let key = members[i].0;
    let n = members.len();
    let middle = flatten_arrays(rules, store, members, place, false, n);
    let (rest, inner) = flatten_objects(rules, middle, store.one_to_many, members, place, n);
    if has_key(inner, key) {
        let j = choose|j: int| 0 <= j < inner.len() && #[trigger] inner[j].0 == key;
        law_inner_keys_begin_with_their_object(
            rules,
            middle,
            store.one_to_many,
            members,
            place,
            n,
            j,
        );
    }
    let row = flat_row(rules, store.one_to_many, place.keys, members, inner);
    law_plain_members_are_kept(rules, store.one_to_many, place.keys, members, inner, i);
    lemma_flat_row_distinct(rules, store.one_to_many, place.keys, members, inner);
    law_links_leave_other_columns_alone(rules, row, place, key);
    lemma_flatten_extends(rules, store, members, place, false, false, false);
    law_row_goes_to_the_table_of_its_path(rules, rest, row, place, rules.main);
}

proof fn lemma_flat_row_distinct(
    rules: Rules,
    one_to_many: Seq<Seq<Text>>,
    keys: Seq<Text>,
    members: Fields,
    inner: Fields,
)
    requires
        distinct(members),
    ensures
        distinct(flat_row(rules, one_to_many, keys, members, inner)),
{
    let gone = gone_arrays(members) + gone_objects(rules, one_to_many, keys, members);
    lemma_without_all(members, gone);
    lemma_put_all(without_all(members, gone), array_texts(members) + inner);
}

/// A value that is put under a key takes the place of the old one there, or else goes behind all
/// others; when a key is taken away, the last entry takes its place, and the others keep theirs.
pub proof fn law_places_of_entries<V>(entries: Seq<(Text, V)>, i: int, j: int, key: Text, value: V)
    requires
        distinct(entries),
        0 <= i < entries.len(),
        0 <= j < entries.len(),
    ensures
        put(entries, entries[i].0, value).len() == entries.len(),
        put(entries, entries[i].0, value)[i] == (entries[i].0, value),
        j != i ==> put(entries, entries[i].0, value)[j] == entries[j],
        !has_key(entries, key) ==> put(entries, key, value) == entries.push((key, value)),
        without(entries, entries[i].0).len() == entries.len() - 1,
        i < entries.len() - 1 ==> without(entries, entries[i].0)[i] == entries.last(),
        j != i && j < entries.len() - 1 ==> without(entries, entries[i].0)[j] == entries[j],
        !has_key(entries, key) ==> without(entries, key) == entries,
{
    lemma_entry_found(entries, i);
}

/// Values written as JSON.
pub proof fn law_json_texts(text: Text, items: Seq<Json>, members: Fields)
    ensures
        json_text(Json::Null) == "null"@,
        json_text(Json::Bool(true)) == "true"@,
        json_text(Json::Bool(false)) == "false"@,
        json_text(Json::Number(text)) == text,
        json_text(Json::Str(text)) == quoted(text),
        json_text(Json::Array(items)) == "["@ + join(
            items.map_values(|item: Json| json_text(item)),
            ","@,
        ) + "]"@,
        json_text(Json::Object(members)) == "{"@ + join(
            members.map_values(
                |member: (Text, Json)| quoted(member.0) + ":"@ + json_text(member.1),
            ),
            ","@,
        ) + "}"@,
{
    reveal_with_fuel(json_text, 2);
    reveal_with_fuel(item_texts, 2);
    reveal_with_fuel(member_texts, 2);
    assert(item_texts(items) =~= items.map_values(|item: Json| json_text(item)));
    assert(member_texts(members) =~= members.map_values(
        |member: (Text, Json)| quoted(member.0) + ":"@ + json_text(member.1),
    ));
}

/// The settings are what the flattening and the taking of rows go by.
pub proof fn law_settings_are_gone_by(files: FlatFiles, table: Text)
    ensures
        files.rules().inline == files.inline_one_to_one,
        files.rules().emit == key_paths(files.emit_obj@),
        files.rules().separator == files.path_separator@,
        files.rules().prefix == files.table_prefix@,
        files.rules().main == files.main_table_name@,
        files.rules().number == files.row_number,
        files.intake().only_fields == files.only_fields,
        files.intake().titles == files.field_titles_map.view(),
        files.intake().pattern == pattern_of(files.date_regexp),
        !has_key(files.table_metadata.view(), table) ==> {
            &&& files.known(table).fields.len() == 0
            &&& files.known(table).rows == 0
            &&& !files.known(table).ignore
            &&& files.known(table).label == label(
                table,
                files.main_table_name@,
                files.path_separator@,
                files.table_prefix@,
            )
        },
        !has_key(files.tmp_csvs.view(), table) ==> (files.unwritten(table) is Some <==> files.csv
            || files.xlsx),
{
}

} // verus!

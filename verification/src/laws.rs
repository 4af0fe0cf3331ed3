//! What holds of the rows that documents give, whatever the documents are.

use crate::extend::{
    extends, flat, lemma_array_texts, lemma_extends_self, lemma_extends_twice, lemma_flat_row,
    lemma_flatten_arrays_extends, lemma_flatten_extends, lemma_flatten_items_extends,
    lemma_flatten_objects_extends, lemma_link_names, lemma_linked, lemma_put_all,
    lemma_with_row_extends, scalar,
};
use crate::flatten::{
    all_objects, all_strings, array_text, array_texts, flat_row, flatten, flatten_arrays,
    flatten_items, flatten_objects, gone_arrays, gone_objects, lemma_flatten_grows,
    lemma_with_array_grows, lemma_without_all, link_text, linked, nested, rows_in, string_texts,
    table_name, with_array, with_links, with_row, without_all, without_path, Place, Rules, Store,
};
use crate::path::{step_texts, Step};
use crate::text::{decimal, digit, join, Text};
use crate::value::{
    distinct, has_key, lemma_entry_found, lemma_put, lemma_tidy_item, lemma_tidy_member, put, tidy,
    value_at, Fields, Json,
};
use vstd::prelude::*;

verus! {

/// What is gathered after a document.
pub open spec fn after_document(rules: Rules, store: Store, members: Fields) -> Store {
    flatten(rules, store, members, Place::root(), true, false).0
}

/// A document loses no row: the rows that each table had stay, in their order, and others come
/// behind them.
pub proof fn law_rows_stay(rules: Rules, store: Store, members: Fields, table: Text)
    requires
        distinct(store.rows),
    ensures
        rows_in(store.rows, table).is_prefix_of(
            rows_in(after_document(rules, store, members).rows, table),
        ),
{
    lemma_flatten_extends(rules, store, members, Place::root(), true, false, false);
}

/// The rows that a document gives hold neither arrays nor objects, and no column twice.
pub proof fn law_rows_are_flat(rules: Rules, store: Store, members: Fields, table: Text, i: int)
    requires
        distinct(store.rows),
        tidy(Json::Object(members)),
        rows_in(store.rows, table).len() <= i < rows_in(
            after_document(rules, store, members).rows,
            table,
        ).len(),
    ensures
        flat(rows_in(after_document(rules, store, members).rows, table)[i]),
{
    lemma_flatten_extends(rules, store, members, Place::root(), true, false, true);
}

/// Every row that a document gives has an identity, and links to the row of the document.
pub proof fn law_rows_link_to_document(
    rules: Rules,
    store: Store,
    members: Fields,
    table: Text,
    i: int,
)
    requires
        distinct(store.rows),
        tidy(Json::Object(members)),
        rows_in(store.rows, table).len() <= i < rows_in(
            after_document(rules, store, members).rows,
            table,
        ).len(),
    ensures
        ({
            let row = rows_in(after_document(rules, store, members).rows, table)[i];
            &&& has_key(row, "_link"@)
            &&& has_key(row, "_link_"@ + rules.main)
            &&& value_at(row, "_link_"@ + rules.main) == Json::Str(decimal(rules.number))
        }),
{
    lemma_flatten_extends(rules, store, members, Place::root(), true, false, true);
}

/// Every table that a document gives rows to is the main table or has the table prefix.
pub proof fn law_tables_have_the_prefix(rules: Rules, store: Store, members: Fields, table: Text)
    requires
        distinct(store.rows),
        has_key(after_document(rules, store, members).rows, table),
        !has_key(store.rows, table),
    ensures
        table == rules.main || rules.prefix.is_prefix_of(table),
{
    lemma_flatten_extends(rules, store, members, Place::root(), true, false, false);
}

/// A document has a row in the main table, the last one there, and its identity is the number of
/// the document.
pub proof fn law_document_has_a_row(rules: Rules, store: Store, members: Fields)
    requires
        distinct(store.rows),
        tidy(Json::Object(members)),
    ensures
        ({
            let before = rows_in(store.rows, rules.main);
            let after = rows_in(after_document(rules, store, members).rows, rules.main);
            &&& after.len() > before.len()
            &&& has_key(after.last(), "_link"@)
            &&& value_at(after.last(), "_link"@) == Json::Str(decimal(rules.number))
        }),
{
    let place = Place::root();
    let n = members.len();
    let middle = flatten_arrays(rules, store, members, place, false, n);
    let (rest, inner) = flatten_objects(rules, middle, store.one_to_many, members, place, n);
    let unlinked = flatten(rules, store, members, place, false, false);
    lemma_flatten_extends(rules, store, members, place, false, false, true);
    let row = flat_row(rules, store.one_to_many, place.keys, members, inner);
    assert(unlinked == (rest, Some(row)));
    lemma_linked(rules, row, place.item_steps, place.item_keys);
    let whole = linked(rules, row, place.item_steps, place.item_keys);
    let list = rows_in(rest.rows, rules.main).push(whole);
    lemma_put(rest.rows, rules.main, list);
    let after = after_document(rules, store, members);
    assert(after.rows == put(rest.rows, rules.main, list));
    assert(rows_in(store.rows, rules.main).is_prefix_of(rows_in(rest.rows, rules.main)));
    assert(rows_in(after.rows, rules.main) == list);
}

/// A decimal number is written in digits.
pub proof fn lemma_decimal_digits(n: nat)
    ensures
        decimal(n).len() > 0,
        forall|i: int| 0 <= i < decimal(n).len() ==> '0' <= #[trigger] decimal(n)[i] <= '9',
    decreases n,
{
    if n >= 10 {
        lemma_decimal_digits(n / 10);
        let earlier = decimal(n / 10);
        assert forall|i: int| 0 <= i < decimal(n).len() implies '0' <= #[trigger] decimal(n)[i]
            <= '9' by {
            if i < earlier.len() {
                assert(decimal(n)[i] == earlier[i]);
            }
        }
    }
}

/// Different numbers are written differently.
pub proof fn lemma_decimal_injective(a: nat, b: nat)
    requires
        decimal(a) == decimal(b),
    ensures
        a == b,
    decreases a,
{
    lemma_decimal_digits(a / 10);
    lemma_decimal_digits(b / 10);
    assert(decimal(a).last() == decimal(b).last());
    assert(decimal(a).last() == digit(a % 10));
    assert(decimal(b).last() == digit(b % 10));
    assert(a % 10 == b % 10);
    if a >= 10 && b >= 10 {
        assert(decimal(a).drop_last() =~= decimal(a / 10));
        assert(decimal(b).drop_last() =~= decimal(b / 10));
        lemma_decimal_injective(a / 10, b / 10);
    } else if a >= 10 {
        assert(decimal(a).len() == decimal(a / 10).len() + 1);
        assert(decimal(b).len() == 1);
    } else if b >= 10 {
        assert(decimal(b).len() == decimal(b / 10).len() + 1);
        assert(decimal(a).len() == 1);
    }
}

/// Links tell documents apart: the identities of rows of different documents differ.
pub proof fn law_links_tell_documents_apart(a: nat, b: nat, steps: Seq<Step>, others: Seq<Step>)
    requires
        a != b,
    ensures
        decimal(a) != decimal(b),
        decimal(a) != link_text(b, others),
        link_text(a, steps) != link_text(b, others),
{
    reveal_strlit(".");
    lemma_decimal_digits(a);
    lemma_decimal_digits(b);
    if decimal(a) == decimal(b) {
        lemma_decimal_injective(a, b);
    }
    let x = link_text(a, steps);
    let y = link_text(b, others);
    let m = decimal(a).len();
    let n = decimal(b).len();
    assert(x[m as int] == '.');
    assert(y[n as int] == '.');
    assert(decimal(a) =~= x.take(m as int));
    assert(decimal(b) =~= y.take(n as int));
    if x == y {
        if m < n {
            assert(decimal(b)[m as int] == y[m as int]);
        } else if n < m {
            assert(decimal(a)[n as int] == x[n as int]);
        }
        assert(decimal(a) == decimal(b));
    }
    if decimal(a) == y {
        assert(decimal(a)[n as int] == '.');
    }
}

/// Joining one part more adds the separator and the part.
pub proof fn lemma_join_push(parts: Seq<Text>, part: Text, separator: Text)
    ensures
        join(parts.push(part), separator) == if parts.len() == 0 {
            part
        } else {
            join(parts, separator) + separator + part
        },
    decreases parts.len(),
{
    let all = parts.push(part);
    if parts.len() > 0 {
        assert(all.skip(1) =~= parts.skip(1).push(part));
        lemma_join_push(parts.skip(1), part, separator);
        if parts.len() == 1 {
            assert(join(all, separator) =~= parts[0] + separator + part);
        } else {
            assert(join(all, separator) =~= join(parts, separator) + separator + part);
        }
    }
}

/// Links tell the items of an array apart.
pub proof fn law_links_tell_items_apart(number: nat, place: Place, key: Text, i: nat, j: nat)
    requires
        i != j,
    ensures
        link_text(number, place.item(key, i).steps) != link_text(number, place.item(key, j).steps),
{
    let array = place.steps.push(Step::Key(key));
    let texts = step_texts(array);
    let x = place.item(key, i).steps;
    let y = place.item(key, j).steps;
    assert(step_texts(x) =~= texts.push(decimal(i)));
    assert(step_texts(y) =~= texts.push(decimal(j)));
    lemma_join_push(texts, decimal(i), "."@);
    lemma_join_push(texts, decimal(j), "."@);
    let start = decimal(number) + "."@ + (join(texts, "."@) + "."@);
    assert(link_text(number, x) =~= start + decimal(i));
    assert(link_text(number, y) =~= start + decimal(j));
    if link_text(number, x) == link_text(number, y) {
        assert(decimal(i) =~= (start + decimal(i)).skip(start.len() as int));
        assert(decimal(j) =~= (start + decimal(j)).skip(start.len() as int));
        lemma_decimal_injective(i, j);
    }
}

/// The name of the column that links to the row of an array item around a row.
pub open spec fn link_name(rules: Rules, keys: Seq<Text>) -> Text {
    "_link_"@ + join(keys, rules.separator)
}

/// Once a link is set, it stays as long as no later one has its name.
proof fn lemma_link_stays(
    rules: Rules,
    row: Fields,
    item_steps: Seq<Seq<Step>>,
    item_keys: Seq<Seq<Text>>,
    k: int,
    n: nat,
    last: nat,
)
    requires
        distinct(row),
        0 <= k < n <= last,
        k < last - 1,
        forall|j: int|
            k < j < last - 1 ==> link_name(rules, #[trigger] item_keys[j]) != link_name(
                rules,
                item_keys[k],
            ),
    ensures
        distinct(with_links(rules, row, item_steps, item_keys, n, last)),
        has_key(
            with_links(rules, row, item_steps, item_keys, n, last),
            link_name(rules, item_keys[k]),
        ),
        value_at(
            with_links(rules, row, item_steps, item_keys, n, last),
            link_name(rules, item_keys[k]),
        ) == Json::Str(link_text(rules.number, item_steps[k])),
    decreases n,
{
    let m = (n - 1) as nat;
    let earlier = with_links(rules, row, item_steps, item_keys, m, last);
    let link = Json::Str(link_text(rules.number, item_steps[n - 1]));
    lemma_links_distinct(rules, row, item_steps, item_keys, m, last);
    lemma_link_names(join(item_keys[k], rules.separator));
    if k < m {
        lemma_link_stays(rules, row, item_steps, item_keys, k, m, last);
    }
    let name = if n == last {
        "_link"@
    } else {
        link_name(rules, item_keys[n - 1])
    };
    lemma_put(earlier, name, link);
    if k < m {
        assert(name != link_name(rules, item_keys[k]));
    }
}

/// Links leave no column twice.
pub proof fn lemma_links_distinct(
    rules: Rules,
    row: Fields,
    item_steps: Seq<Seq<Step>>,
    item_keys: Seq<Seq<Text>>,
    n: nat,
    last: nat,
)
    requires
        distinct(row),
    ensures
        distinct(with_links(rules, row, item_steps, item_keys, n, last)),
    decreases n,
{
    if n > 0 {
        let m = (n - 1) as nat;
        let earlier = with_links(rules, row, item_steps, item_keys, m, last);
        let link = Json::Str(link_text(rules.number, item_steps[n - 1]));
        lemma_links_distinct(rules, row, item_steps, item_keys, m, last);
        let name = if n == last {
            "_link"@
        } else {
            link_name(rules, item_keys[n - 1])
        };
        lemma_put(earlier, name, link);
    }
}

/// A row links to the row of each array item around it: what it holds in the column for the array
/// is the identity of that row. Arrays whose columns have the same name, or that of the main table,
/// are left aside.
pub proof fn law_rows_link_to_the_items_around(
    rules: Rules,
    row: Fields,
    outer: Fields,
    item_steps: Seq<Seq<Step>>,
    item_keys: Seq<Seq<Text>>,
    k: int,
)
    requires
        flat(row),
        flat(outer),
        item_steps.len() == item_keys.len(),
        0 <= k < item_steps.len() - 1,
        forall|j: int|
            k < j < item_keys.len() - 1 ==> link_name(rules, #[trigger] item_keys[j]) != link_name(
                rules,
                item_keys[k],
            ),
        join(item_keys[k], rules.separator) != rules.main,
    ensures
        has_key(linked(rules, row, item_steps, item_keys), link_name(rules, item_keys[k])),
        value_at(linked(rules, row, item_steps, item_keys), link_name(rules, item_keys[k]))
            == value_at(
            linked(rules, outer, item_steps.take(k + 1), item_keys.take(k + 1)),
            "_link"@,
        ),
{
    let n = item_steps.len();
    let name = link_name(rules, item_keys[k]);
    lemma_linked(rules, outer, item_steps.take(k + 1), item_keys.take(k + 1));
    assert(item_steps.take(k + 1).last() == item_steps[k]);
    lemma_link_stays(rules, row, item_steps, item_keys, k, n, n);
    let middle = with_links(rules, row, item_steps, item_keys, n, n);
    let main = "_link_"@ + rules.main;
    lemma_put(middle, main, Json::Str(decimal(rules.number)));
    if name == main {
        assert(join(item_keys[k], rules.separator) =~= name.skip("_link_"@.len() as int));
        assert(rules.main =~= main.skip("_link_"@.len() as int));
    }
}

/// An array that had more than one item is never forgotten.
pub proof fn law_one_to_many_stays(rules: Rules, store: Store, members: Fields, path: Seq<Text>)
    requires
        store.one_to_many.contains(path),
    ensures
        after_document(rules, store, members).one_to_many.contains(path),
{
    lemma_flatten_grows(rules, store, members, Place::root(), true, false);
}

/// No array is listed twice: not in one of the lists, and not in both.
pub open spec fn lists_once(store: Store) -> bool {
    &&& store.one_to_many.no_duplicates()
    &&& store.one_to_one.no_duplicates()
    &&& forall|path: Seq<Text>| #[trigger]
        store.one_to_one.contains(path) ==> !store.one_to_many.contains(path)
}

/// What is left of a list without a path.
pub proof fn lemma_without_path(list: Seq<Seq<Text>>, path: Seq<Text>)
    ensures
        forall|other: Seq<Text>| #[trigger]
            without_path(list, path).contains(other) <==> list.contains(other) && other != path,
        list.no_duplicates() ==> without_path(list, path).no_duplicates(),
    decreases list.len(),
{
    let after = without_path(list, path);
    if list.len() > 0 {
        let fewer = list.drop_last();
        let earlier = without_path(fewer, path);
        lemma_without_path(fewer, path);
        assert forall|other: Seq<Text>| #[trigger] after.contains(other) <==> list.contains(other)
            && other != path by {
            assert(earlier.contains(other) <==> fewer.contains(other) && other != path);
            if list.contains(other) && other != list.last() {
                let i = choose|i: int| 0 <= i < list.len() && list[i] == other;
                assert(fewer[i] == other);
            }
            if fewer.contains(other) {
                let i = choose|i: int| 0 <= i < fewer.len() && fewer[i] == other;
                assert(list[i] == other);
            }
            assert(list[list.len() - 1] == list.last());
            if list.last() != path {
                assert(after[earlier.len() as int] == list.last());
                if earlier.contains(other) {
                    let i = choose|i: int| 0 <= i < earlier.len() && earlier[i] == other;
                    assert(after[i] == other);
                }
                if after.contains(other) && other != list.last() {
                    let i = choose|i: int| 0 <= i < after.len() && after[i] == other;
                    assert(earlier[i] == other);
                }
            }
        }
        if list.no_duplicates() {
            assert(fewer.no_duplicates());
            if list.last() != path {
                assert(!fewer.contains(list.last()));
                assert(!earlier.contains(list.last()));
                assert forall|i: int, j: int| 0 <= i < after.len() && 0 <= j < after.len() && i
                    != j implies after[i] != after[j] by {
                    if i < earlier.len() {
                        assert(earlier.contains(earlier[i]));
                    }
                    if j < earlier.len() {
                        assert(earlier.contains(earlier[j]));
                    }
                }
            }
        }
    } else {
        assert forall|other: Seq<Text>| #[trigger] after.contains(other) <==> list.contains(other)
            && other != path by {}
    }
}

/// Noting an array lists it once, in the list that it belongs to.
pub proof fn law_noting_an_array(rules: Rules, store: Store, path: Seq<Text>, items: nat)
    requires
        lists_once(store),
    ensures
        lists_once(with_array(rules, store, path, items)),
        rules.inline && items != 1 ==> with_array(rules, store, path, items).one_to_many.contains(
            path,
        ),
        rules.inline && items == 1 && !store.one_to_many.contains(path) ==> with_array(
            rules,
            store,
            path,
            items,
        ).one_to_one.contains(path),
{
    let after = with_array(rules, store, path, items);
    lemma_without_path(store.one_to_one, path);
    let many = store.one_to_many.push(path);
    let one = store.one_to_one.push(path);
    assert(many[store.one_to_many.len() as int] == path);
    assert(one[store.one_to_one.len() as int] == path);
    if rules.inline && !store.one_to_many.contains(path) {
        if items != 1 {
            lemma_with_array_grows(rules, store, path, items);
            assert(after.one_to_many == many);
            assert(many.no_duplicates()) by {
                lemma_push_once(store.one_to_many, path);
            }
            assert forall|p: Seq<Text>| #[trigger] after.one_to_one.contains(p) implies
                !after.one_to_many.contains(p) by {
                assert(store.one_to_one.contains(p));
                assert(!store.one_to_many.contains(p));
            }
        } else if !store.one_to_one.contains(path) {
            lemma_push_once(store.one_to_one, path);
            assert forall|p: Seq<Text>| #[trigger] after.one_to_one.contains(p) implies
                !after.one_to_many.contains(p) by {
                let i = choose|i: int| 0 <= i < one.len() && one[i] == p;
                if i < store.one_to_one.len() {
                    assert(store.one_to_one[i] == p);
                    assert(store.one_to_one.contains(p));
                }
            }
        }
    }
}

proof fn lemma_push_once(list: Seq<Seq<Text>>, path: Seq<Text>)
    requires
        list.no_duplicates(),
        !list.contains(path),
    ensures
        list.push(path).no_duplicates(),
{
    let all = list.push(path);
    assert forall|i: int, j: int| 0 <= i < all.len() && 0 <= j < all.len() && i != j implies all[i]
        != all[j] by {
        if i < list.len() {
            assert(list.contains(list[i]));
        }
        if j < list.len() {
            assert(list.contains(list[j]));
        }
    }
}

/// Whether the lists of arrays `after` follow from those `before`: what is listed once stays listed
/// once, the one to many arrays that were there stay in front, and without inlining nothing is
/// listed.
pub open spec fn lists_follow(rules: Rules, before: Store, after: Store) -> bool {
    &&& lists_once(before) ==> lists_once(after)
    &&& before.one_to_many.is_prefix_of(after.one_to_many)
    &&& !rules.inline ==> after.one_to_many == before.one_to_many && after.one_to_one
        == before.one_to_one
}

proof fn lemma_lists_stay(rules: Rules, before: Store, after: Store)
    requires
        after.one_to_many == before.one_to_many,
        after.one_to_one == before.one_to_one,
    ensures
        lists_follow(rules, before, after),
{
    let list = before.one_to_many;
    assert(list =~= list.subrange(0, list.len() as int));
}

proof fn lemma_lists_follow_twice(rules: Rules, a: Store, b: Store, c: Store)
    requires
        lists_follow(rules, a, b),
        lists_follow(rules, b, c),
    ensures
        lists_follow(rules, a, c),
{
    assert(a.one_to_many =~= c.one_to_many.subrange(0, a.one_to_many.len() as int));
}

proof fn lemma_noting_follows(rules: Rules, store: Store, path: Seq<Text>, items: nat)
    ensures
        lists_follow(rules, store, with_array(rules, store, path, items)),
{
    let after = with_array(rules, store, path, items);
    let list = store.one_to_many;
    if lists_once(store) {
        law_noting_an_array(rules, store, path, items);
    }
    assert(list =~= after.one_to_many.subrange(0, list.len() as int));
}

/// A document lists no array twice, keeps the one to many arrays in their places, and without
/// inlining lists none.
pub proof fn law_lists_of_arrays_follow(rules: Rules, store: Store, members: Fields)
    ensures
        lists_follow(rules, store, after_document(rules, store, members)),
{
    law_object_lists_follow(rules, store, members, Place::root(), true, false);
}

/// So does every object, wherever it stands.
pub proof fn law_object_lists_follow(
    rules: Rules,
    store: Store,
    members: Fields,
    place: Place,
    emit: bool,
    as_inlined: bool,
)
    ensures
        lists_follow(
            rules,
            store,
            flatten(rules, store, members, place, emit, as_inlined).0,
        ),
    decreases members, 2int, 0int,
{
    let n = members.len();
    let middle = flatten_arrays(rules, store, members, place, as_inlined, n);
    lemma_flatten_arrays_lists(rules, store, members, place, as_inlined, n);
    lemma_flatten_objects_lists(rules, middle, store.one_to_many, members, place, n);
    let rest = flatten_objects(rules, middle, store.one_to_many, members, place, n).0;
    let after = flatten(rules, store, members, place, emit, as_inlined).0;
    lemma_lists_stay(rules, rest, after);
    lemma_lists_follow_twice(rules, store, middle, rest);
    lemma_lists_follow_twice(rules, store, rest, after);
}

proof fn lemma_flatten_arrays_lists(
    rules: Rules,
    store: Store,
    members: Fields,
    place: Place,
    as_inlined: bool,
    n: nat,
)
    requires
        n <= members.len(),
    ensures
        lists_follow(rules, store, flatten_arrays(rules, store, members, place, as_inlined, n)),
    decreases members, 1int, n,
{
    lemma_lists_stay(rules, store, store);
    if n > 0 {
        let m = (n - 1) as nat;
        let before = flatten_arrays(rules, store, members, place, as_inlined, m);
        lemma_flatten_arrays_lists(rules, store, members, place, as_inlined, m);
        let key = members[n - 1].0;
        match members[n - 1].1 {
            Json::Array(items) => {
                if all_objects(items) {
                    let path = place.keys.push(key);
                    let noted = with_array(rules, before, path, items.len());
                    lemma_noting_follows(rules, before, path, items.len());
                    lemma_lists_follow_twice(rules, store, before, noted);
                    if !as_inlined {
                        lemma_flatten_items_lists(rules, noted, items, place, key, items.len());
                        let after = flatten_items(rules, noted, items, place, key, items.len());
                        lemma_lists_follow_twice(rules, store, noted, after);
                    }
                }
            },
            _ => {},
        }
    }
}

proof fn lemma_flatten_items_lists(
    rules: Rules,
    store: Store,
    items: Seq<Json>,
    place: Place,
    key: Text,
    n: nat,
)
    requires
        n <= items.len(),
    ensures
        lists_follow(rules, store, flatten_items(rules, store, items, place, key, n)),
    decreases items, 3int, n,
{
    lemma_lists_stay(rules, store, store);
    if n > 0 {
        let m = (n - 1) as nat;
        let before = flatten_items(rules, store, items, place, key, m);
        lemma_flatten_items_lists(rules, store, items, place, key, m);
        match items[n - 1] {
            Json::Object(inner) => {
                let there = place.item(key, m);
                law_object_lists_follow(rules, before, inner, there, true, false);
                let after = flatten(rules, before, inner, there, true, false).0;
                lemma_lists_follow_twice(rules, store, before, after);
            },
            _ => {},
        }
    }
}

proof fn lemma_flatten_objects_lists(
    rules: Rules,
    store: Store,
    one_to_many: Seq<Seq<Text>>,
    members: Fields,
    place: Place,
    n: nat,
)
    requires
        n <= members.len(),
    ensures
        lists_follow(
            rules,
            store,
            flatten_objects(rules, store, one_to_many, members, place, n).0,
        ),
    decreases members, 1int, n,
{
    lemma_lists_stay(rules, store, store);
    if n > 0 {
        let m = (n - 1) as nat;
        let before = flatten_objects(rules, store, one_to_many, members, place, m).0;
        let after = flatten_objects(rules, store, one_to_many, members, place, n).0;
        lemma_flatten_objects_lists(rules, store, one_to_many, members, place, m);
        let key = members[n - 1].0;
        match nested(rules, one_to_many, place.keys, members[n - 1]) {
            Some(object) => {
                law_object_lists_follow(
                    rules,
                    before,
                    object,
                    place.member(key),
                    rules.emit.contains(place.keys.push(key)),
                    members[n - 1].1 is Array,
                );
                lemma_lists_follow_twice(rules, store, before, after);
            },
            None => {},
        }
    }
}

/// Giving an object a row of its own is flattening it without one and giving the row to its table:
/// what is gathered then is the same, with the row, behind the others of its table.
pub proof fn law_emitting_is_giving_the_row(
    rules: Rules,
    store: Store,
    members: Fields,
    place: Place,
    as_inlined: bool,
)
    ensures
        flatten(rules, store, members, place, false, as_inlined).1 is Some,
        flatten(rules, store, members, place, true, as_inlined) == (
            with_row(
                rules,
                flatten(rules, store, members, place, false, as_inlined).0,
                flatten(rules, store, members, place, false, as_inlined).1->Some_0,
                place.keys,
                place.item_steps,
                place.item_keys,
            ),
            None::<Fields>,
        ),
        ({
            let table = table_name(rules, place.keys);
            let apart = flatten(rules, store, members, place, false, as_inlined);
            let row = linked(rules, apart.1->Some_0, place.item_steps, place.item_keys);
            distinct(apart.0.rows) ==> rows_in(
                flatten(rules, store, members, place, true, as_inlined).0.rows,
                table,
            ) == rows_in(apart.0.rows, table).push(row)
        }),
{
    let apart = flatten(rules, store, members, place, false, as_inlined);
    let table = table_name(rules, place.keys);
    let row = linked(rules, apart.1->Some_0, place.item_steps, place.item_keys);
    if distinct(apart.0.rows) {
        lemma_put(apart.0.rows, table, rows_in(apart.0.rows, table).push(row));
    }
}

/// Among the texts of arrays are only texts of arrays, under their keys.
pub proof fn lemma_array_text_from(members: Fields, j: int) -> (i: int)
    requires
        0 <= j < array_texts(members).len(),
    ensures
        0 <= i < members.len(),
        members[i].0 == array_texts(members)[j].0,
        array_text(members[i].1) is Some,
        array_texts(members)[j].1 == Json::Str(array_text(members[i].1)->Some_0),
    decreases members.len(),
{
    let fewer = members.drop_last();
    if j < array_texts(fewer).len() {
        lemma_array_text_from(fewer, j)
    } else {
        members.len() - 1
    }
}

/// Among the gone arrays are only arrays that no text replaces.
pub proof fn lemma_gone_array_from(members: Fields, j: int) -> (i: int)
    requires
        0 <= j < gone_arrays(members).len(),
    ensures
        0 <= i < members.len(),
        members[i].0 == gone_arrays(members)[j],
        members[i].1 is Array,
    decreases members.len(),
{
    let fewer = members.drop_last();
    if j < gone_arrays(fewer).len() {
        lemma_gone_array_from(fewer, j)
    } else {
        members.len() - 1
    }
}

/// Among the gone objects are only members that are or hold an object for the row.
pub proof fn lemma_gone_object_from(
    rules: Rules,
    one_to_many: Seq<Seq<Text>>,
    keys: Seq<Text>,
    members: Fields,
    j: int,
) -> (i: int)
    requires
        0 <= j < gone_objects(rules, one_to_many, keys, members).len(),
    ensures
        0 <= i < members.len(),
        members[i].0 == gone_objects(rules, one_to_many, keys, members)[j],
        nested(rules, one_to_many, keys, members[i]) is Some,
    decreases members.len(),
{
    let fewer = members.drop_last();
    if j < gone_objects(rules, one_to_many, keys, fewer).len() {
        lemma_gone_object_from(rules, one_to_many, keys, fewer, j)
    } else {
        members.len() - 1
    }
}

/// A member that is neither an array nor an object stands in the row under its own key, unless an
/// object in the same object puts something there.
pub proof fn law_plain_members_are_kept(
    rules: Rules,
    one_to_many: Seq<Seq<Text>>,
    keys: Seq<Text>,
    members: Fields,
    inner: Fields,
    i: int,
)
    requires
        distinct(members),
        0 <= i < members.len(),
        scalar(members[i].1),
        !has_key(inner, members[i].0),
    ensures
        has_key(flat_row(rules, one_to_many, keys, members, inner), members[i].0),
        value_at(flat_row(rules, one_to_many, keys, members, inner), members[i].0)
            == members[i].1,
{
    let key = members[i].0;
    let arrays = gone_arrays(members);
    let objects = gone_objects(rules, one_to_many, keys, members);
    let gone = arrays + objects;
    let left = without_all(members, gone);
    let others = array_texts(members) + inner;
    lemma_entry_found(members, i);
    lemma_without_all(members, gone);
    lemma_put_all(left, others);
    if gone.contains(key) {
        let j = choose|j: int| 0 <= j < gone.len() && gone[j] == key;
        if j < arrays.len() {
            assert(arrays[j] == key);
            let p = lemma_gone_array_from(members, j);
            assert(p == i);
        } else {
            assert(objects[j - arrays.len()] == key);
            let p = lemma_gone_object_from(rules, one_to_many, keys, members, j - arrays.len());
            assert(p == i);
        }
    }
    if has_key(others, key) {
        let j = choose|j: int| 0 <= j < others.len() && #[trigger] others[j].0 == key;
        if j < array_texts(members).len() {
            assert(array_texts(members)[j].0 == key);
            let p = lemma_array_text_from(members, j);
            assert(p == i);
        } else {
            assert(inner[j - array_texts(members).len()].0 == key);
        }
    }
    assert(has_key(left, key));
}

/// An array of strings stands in the row under its key, the strings joined by commas, unless an
/// object in the same object puts something there.
pub proof fn law_strings_are_joined(
    rules: Rules,
    one_to_many: Seq<Seq<Text>>,
    keys: Seq<Text>,
    members: Fields,
    inner: Fields,
    i: int,
)
    requires
        distinct(members),
        0 <= i < members.len(),
        members[i].1 matches Json::Array(items) && all_strings(items),
        !has_key(inner, members[i].0),
    ensures
        has_key(flat_row(rules, one_to_many, keys, members, inner), members[i].0),
        value_at(flat_row(rules, one_to_many, keys, members, inner), members[i].0) == Json::Str(
            join(string_texts(members[i].1->Array_0), ","@),
        ),
{
    let key = members[i].0;
    let gone = gone_arrays(members) + gone_objects(rules, one_to_many, keys, members);
    let left = without_all(members, gone);
    let texts = array_texts(members);
    let others = texts + inner;
    lemma_without_all(members, gone);
    lemma_put_all(left, others);
    lemma_array_texts(members);
    let first = choose|j: int| 0 <= j < texts.len() && #[trigger] texts[j].0 == key;
    assert(others[first].0 == key);
    assert(has_key(others, key));
    let row = flat_row(rules, one_to_many, keys, members, inner);
    let j = choose|j: int|
        0 <= j < others.len() && (#[trigger] others[j]).0 == key && others[j].1 == value_at(
            row,
            key,
        );
    if j >= texts.len() {
        assert(inner[j - texts.len()].0 == key);
    }
    assert(others[j] == texts[j]);
    let p = lemma_array_text_from(members, j);
    assert(p == i);
}

/// What the objects in an object have to put into its row is in the row; of several things under
/// one key, the last one.
pub proof fn law_inner_members_are_put(
    rules: Rules,
    one_to_many: Seq<Seq<Text>>,
    keys: Seq<Text>,
    members: Fields,
    inner: Fields,
    j: int,
)
    requires
        distinct(members),
        0 <= j < inner.len(),
        forall|k: int| j < k < inner.len() ==> (#[trigger] inner[k]).0 != inner[j].0,
    ensures
        has_key(flat_row(rules, one_to_many, keys, members, inner), inner[j].0),
        value_at(flat_row(rules, one_to_many, keys, members, inner), inner[j].0) == inner[j].1,
{
    let gone = gone_arrays(members) + gone_objects(rules, one_to_many, keys, members);
    let left = without_all(members, gone);
    let texts = array_texts(members);
    let others = texts + inner;
    lemma_without_all(members, gone);
    lemma_put_all(left, others);
    let p = texts.len() + j;
    assert(others[p] == inner[j]);
    assert(has_key(others, inner[j].0));
    assert forall|k: int| p < k < others.len() implies (#[trigger] others[k]).0 != others[p].0 by {
        assert(others[k] == inner[k - texts.len()]);
    }
}

/// Whether a list of rows has one with an identity.
pub open spec fn identified(rows: Seq<Fields>, identity: Text) -> bool {
    exists|r: int|
        0 <= r < rows.len() && has_key(#[trigger] rows[r], "_link"@) && value_at(
            rows[r],
            "_link"@,
        ) == Json::Str(identity)
}

/// An identity that is there stays there when rows are added.
pub proof fn lemma_identified_later(
    rules: Rules,
    before: Seq<(Text, Seq<Fields>)>,
    after: Seq<(Text, Seq<Fields>)>,
    neat: bool,
    table: Text,
    identity: Text,
)
    requires
        extends(rules, before, after, neat),
        identified(rows_in(before, table), identity),
    ensures
        identified(rows_in(after, table), identity),
{
    let rows = rows_in(before, table);
    let r = choose|r: int|
        0 <= r < rows.len() && has_key(#[trigger] rows[r], "_link"@) && value_at(
            rows[r],
            "_link"@,
        ) == Json::Str(identity);
    assert(rows.is_prefix_of(rows_in(after, table)));
    assert(rows_in(after, table)[r] == rows[r]);
}

/// The row of an object that gets one has the identity of the innermost array item around it.
pub proof fn law_row_has_an_identity(
    rules: Rules,
    store: Store,
    members: Fields,
    place: Place,
    as_inlined: bool,
)
    requires
        distinct(store.rows),
        tidy(Json::Object(members)),
        place.item_steps.len() == place.item_keys.len(),
        place.item_steps.len() > 0,
    ensures
        identified(
            rows_in(
                flatten(rules, store, members, place, true, as_inlined).0.rows,
                table_name(rules, place.keys),
            ),
            link_text(rules.number, place.item_steps.last()),
        ),
{
    let n = members.len();
    let (rest, row) = flatten(rules, store, members, place, false, as_inlined);
    lemma_flatten_extends(rules, store, members, place, false, as_inlined, true);
    let row = row->Some_0;
    lemma_linked(rules, row, place.item_steps, place.item_keys);
    let whole = linked(rules, row, place.item_steps, place.item_keys);
    let table = table_name(rules, place.keys);
    let list = rows_in(rest.rows, table).push(whole);
    lemma_put(rest.rows, table, list);
    let after = flatten(rules, store, members, place, true, as_inlined).0;
    assert(after.rows == put(rest.rows, table, list));
    assert(rows_in(after.rows, table) == list);
    assert(list[list.len() - 1] == whole);
}

/// Each item of an array of objects has a row in the table of the array, whose identity is the way
/// to the item.
pub proof fn law_items_have_rows(
    rules: Rules,
    store: Store,
    items: Seq<Json>,
    place: Place,
    key: Text,
    n: nat,
    i: nat,
)
    requires
        distinct(store.rows),
        all_objects(items),
        tidy(Json::Array(items)),
        place.item_steps.len() == place.item_keys.len(),
        i < n <= items.len(),
    ensures
        identified(
            rows_in(
                flatten_items(rules, store, items, place, key, n).rows,
                table_name(rules, place.keys.push(key)),
            ),
            link_text(rules.number, place.item(key, i).steps),
        ),
    decreases n,
{
    let m = (n - 1) as nat;
    let there = place.item(key, m);
    let before = flatten_items(rules, store, items, place, key, m);
    let after = flatten_items(rules, store, items, place, key, n);
    lemma_flatten_items_extends(rules, store, items, place, key, m, true);
    lemma_tidy_item(items, n - 1);
    match items[n - 1] {
        Json::Object(inner) => {
            lemma_flatten_extends(rules, before, inner, there, true, false, true);
            if i == m {
                law_row_has_an_identity(rules, before, inner, there, false);
            } else {
                law_items_have_rows(rules, store, items, place, key, m, i);
                lemma_identified_later(
                    rules,
                    before.rows,
                    after.rows,
                    true,
                    table_name(rules, place.keys.push(key)),
                    link_text(rules.number, place.item(key, i).steps),
                );
            }
        },
        _ => {},
    }
}

/// The arrays that come later only add rows.
proof fn lemma_arrays_later(
    rules: Rules,
    store: Store,
    members: Fields,
    place: Place,
    m: nat,
    n: nat,
)
    requires
        m <= n <= members.len(),
        distinct(store.rows),
        tidy(Json::Object(members)),
        place.item_steps.len() == place.item_keys.len(),
    ensures
        extends(
            rules,
            flatten_arrays(rules, store, members, place, false, m).rows,
            flatten_arrays(rules, store, members, place, false, n).rows,
            true,
        ),
    decreases n,
{
    let start = flatten_arrays(rules, store, members, place, false, m);
    let after = flatten_arrays(rules, store, members, place, false, n);
    lemma_flatten_arrays_extends(rules, store, members, place, false, m, true);
    lemma_extends_self(rules, start.rows, true);
    if m < n {
        let p = (n - 1) as nat;
        let before = flatten_arrays(rules, store, members, place, false, p);
        lemma_arrays_later(rules, store, members, place, m, p);
        lemma_flatten_arrays_extends(rules, store, members, place, false, p, true);
        lemma_tidy_member(members, n - 1);
        let key = members[n - 1].0;
        if let Json::Array(items) = members[n - 1].1 {
            if all_objects(items) {
                let noted = with_array(rules, before, place.keys.push(key), items.len());
                lemma_flatten_items_extends(rules, noted, items, place, key, items.len(), true);
                lemma_extends_twice(rules, start.rows, before.rows, after.rows, true);
            }
        }
    }
}

/// Each object in an array of a document has a row in the table of the array, whose identity is the
/// way to it.
pub proof fn law_items_of_a_document_have_rows(
    rules: Rules,
    store: Store,
    members: Fields,
    m: int,
    i: nat,
)
    requires
        distinct(store.rows),
        tidy(Json::Object(members)),
        0 <= m < members.len(),
        members[m].1 matches Json::Array(items) && all_objects(items) && i < items.len(),
    ensures
        identified(
            rows_in(
                after_document(rules, store, members).rows,
                table_name(rules, seq![members[m].0]),
            ),
            link_text(rules.number, seq![Step::Key(members[m].0), Step::Index(i)]),
        ),
{
    let place = Place::root();
    let key = members[m].0;
    let items = members[m].1->Array_0;
    let n = members.len();
    let before = flatten_arrays(rules, store, members, place, false, m as nat);
    let here = flatten_arrays(rules, store, members, place, false, (m + 1) as nat);
    let middle = flatten_arrays(rules, store, members, place, false, n);
    let table = table_name(rules, seq![key]);
    let identity = link_text(rules.number, seq![Step::Key(key), Step::Index(i)]);
    assert(place.keys.push(key) =~= seq![key]);
    assert(place.item(key, i).steps =~= seq![Step::Key(key), Step::Index(i)]);
    lemma_flatten_arrays_extends(rules, store, members, place, false, m as nat, true);
    lemma_tidy_member(members, m);
    let noted = with_array(rules, before, place.keys.push(key), items.len());
    law_items_have_rows(rules, noted, items, place, key, items.len(), i);
    assert(identified(rows_in(here.rows, table), identity));
    lemma_arrays_later(rules, store, members, place, (m + 1) as nat, n);
    lemma_identified_later(rules, here.rows, middle.rows, true, table, identity);
    lemma_flatten_objects_extends(rules, middle, store.one_to_many, members, place, n, true);
    let (rest, inner) = flatten_objects(rules, middle, store.one_to_many, members, place, n);
    lemma_identified_later(rules, middle.rows, rest.rows, true, table, identity);
    lemma_flat_row(rules, store.one_to_many, place.keys, members, inner);
    let row = flat_row(rules, store.one_to_many, place.keys, members, inner);
    lemma_with_row_extends(rules, rest, row, place, true);
    lemma_identified_later(
        rules,
        rest.rows,
        after_document(rules, store, members).rows,
        true,
        table,
        identity,
    );
}

/// Each object in an array of an object has a row, wherever the object stands and whether or not it has
/// a row of its own, but for an object that is the only item of an array and was put into a row.
pub proof fn law_items_of_an_object_have_rows(
    rules: Rules,
    store: Store,
    members: Fields,
    place: Place,
    emit: bool,
    m: int,
    i: nat,
)
    requires
        distinct(store.rows),
        tidy(Json::Object(members)),
        place.item_steps.len() == place.item_keys.len(),
        0 <= m < members.len(),
        members[m].1 matches Json::Array(items) && i < items.len() && forall|j: int|
            0 <= j < items.len() ==> #[trigger] items[j] is Object,
    ensures
        identified(
            rows_in(
                flatten(rules, store, members, place, emit, false).0.rows,
                table_name(rules, place.keys.push(members[m].0)),
            ),
            link_text(
                rules.number,
                place.steps.push(Step::Key(members[m].0)).push(Step::Index(i)),
            ),
        ),
{
    let key = members[m].0;
    let items = members[m].1->Array_0;
    assert(all_objects(items));
    let n = members.len();
    let before = flatten_arrays(rules, store, members, place, false, m as nat);
    let here = flatten_arrays(rules, store, members, place, false, (m + 1) as nat);
    let middle = flatten_arrays(rules, store, members, place, false, n);
    let table = table_name(rules, place.keys.push(key));
    let identity = link_text(rules.number, place.item(key, i).steps);
    lemma_flatten_arrays_extends(rules, store, members, place, false, m as nat, true);
    lemma_tidy_member(members, m);
    let noted = with_array(rules, before, place.keys.push(key), items.len());
    law_items_have_rows(rules, noted, items, place, key, items.len(), i);
    assert(identified(rows_in(here.rows, table), identity));
    lemma_arrays_later(rules, store, members, place, (m + 1) as nat, n);
    lemma_identified_later(rules, here.rows, middle.rows, true, table, identity);
    lemma_flatten_objects_extends(rules, middle, store.one_to_many, members, place, n, true);
    let (rest, inner) = flatten_objects(rules, middle, store.one_to_many, members, place, n);
    lemma_identified_later(rules, middle.rows, rest.rows, true, table, identity);
    if emit {
        lemma_flat_row(rules, store.one_to_many, place.keys, members, inner);
        let row = flat_row(rules, store.one_to_many, place.keys, members, inner);
        lemma_with_row_extends(rules, rest, row, place, true);
        let whole = flatten(rules, store, members, place, emit, false).0;
        lemma_identified_later(rules, rest.rows, whole.rows, true, table, identity);
    }
}

/// The members of an object in an object are put into the row of the outer one, each under the key
/// of the inner object, the separator and its own key, unless the inner object has a row of its
/// own. So are those of the only item of an array, where arrays of one item are put into the row.
pub proof fn law_nested_members_go_up(
    rules: Rules,
    store: Store,
    one_to_many: Seq<Seq<Text>>,
    members: Fields,
    place: Place,
    n: nat,
    i: int,
    j: int,
)
    requires
        0 <= i < n <= members.len(),
        nested(rules, one_to_many, place.keys, members[i]) is Some,
        !rules.emit.contains(place.keys.push(members[i].0)),
        0 <= j < nested_row(rules, store, one_to_many, members, place, i).len(),
    ensures
        ({
            let member = nested_row(rules, store, one_to_many, members, place, i)[j];
            flatten_objects(rules, store, one_to_many, members, place, n).1.contains(
                (members[i].0 + rules.separator + member.0, member.1),
            )
        }),
    decreases n,
{
    let row = nested_row(rules, store, one_to_many, members, place, i);
    let entry = (members[i].0 + rules.separator + row[j].0, row[j].1);
    let m = (n - 1) as nat;
    let earlier = flatten_objects(rules, store, one_to_many, members, place, m).1;
    let all = flatten_objects(rules, store, one_to_many, members, place, n).1;
    if i < m {
        law_nested_members_go_up(rules, store, one_to_many, members, place, m, i, j);
        let p = choose|p: int| 0 <= p < earlier.len() && earlier[p] == entry;
        assert(all[p] == entry);
    } else {
        assert(all[earlier.len() + j] == entry);
    }
}

/// The row of the object that a member is or holds.
pub open spec fn nested_row(
    rules: Rules,
    store: Store,
    one_to_many: Seq<Seq<Text>>,
    members: Fields,
    place: Place,
    i: int,
) -> Fields {
    flatten(
        rules,
        flatten_objects(rules, store, one_to_many, members, place, i as nat).0,
        nested(rules, one_to_many, place.keys, members[i])->Some_0,
        place.member(members[i].0),
        false,
        members[i].1 is Array,
    ).1->Some_0
}

/// The row of an object inside several array items is in its table, has the identity of the
/// innermost of them, and holds the identity of each outer one in the column for its array. Arrays
/// whose columns have the same name, or that of the main table, are left aside.
pub proof fn law_row_in_its_table_links_to_the_items_around(
    rules: Rules,
    store: Store,
    members: Fields,
    place: Place,
    as_inlined: bool,
    k: int,
)
    requires
        distinct(store.rows),
        tidy(Json::Object(members)),
        place.item_steps.len() == place.item_keys.len(),
        0 <= k < place.item_steps.len() - 1,
        forall|j: int|
            k < j < place.item_keys.len() - 1 ==> link_name(rules, #[trigger] place.item_keys[j])
                != link_name(rules, place.item_keys[k]),
        join(place.item_keys[k], rules.separator) != rules.main,
    ensures
        ({
            let rows = rows_in(
                flatten(rules, store, members, place, true, as_inlined).0.rows,
                table_name(rules, place.keys),
            );
            exists|r: int|
                0 <= r < rows.len() && value_at(#[trigger] rows[r], "_link"@) == Json::Str(
                    link_text(rules.number, place.item_steps.last()),
                ) && has_key(rows[r], link_name(rules, place.item_keys[k])) && value_at(
                    rows[r],
                    link_name(rules, place.item_keys[k]),
                ) == Json::Str(link_text(rules.number, place.item_steps[k]))
        }),
{
    let (rest, row) = flatten(rules, store, members, place, false, as_inlined);
    lemma_flatten_extends(rules, store, members, place, false, as_inlined, true);
    let row = row->Some_0;
    let steps = place.item_steps;
    let keys = place.item_keys;
    lemma_linked(rules, row, steps, keys);
    lemma_linked(rules, row, steps.take(k + 1), keys.take(k + 1));
    assert(steps.take(k + 1).last() == steps[k]);
    law_rows_link_to_the_items_around(rules, row, row, steps, keys, k);
    let whole = linked(rules, row, steps, keys);
    let table = table_name(rules, place.keys);
    let list = rows_in(rest.rows, table).push(whole);
    lemma_put(rest.rows, table, list);
    let after = flatten(rules, store, members, place, true, as_inlined).0;
    assert(after.rows == put(rest.rows, table, list));
    assert(rows_in(after.rows, table) == list);
    assert(list[list.len() - 1] == whole);
}

} // verus!

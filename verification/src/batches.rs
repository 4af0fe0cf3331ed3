//! Documents can be flattened in batches: what a document adds does not depend on the rows that are
//! there.

use crate::flatten::{
    all_objects, flatten, flatten_arrays, flatten_items, flatten_objects, linked, nested, rows_in,
    table_name, with_array, with_row, Place, Rules, Store,
};
use crate::laws::after_document;
use crate::metadata::Table;
use crate::rows::{after_rows, records, Intake};
use crate::spool::emptied;
use crate::table_laws::law_batches_do_not_matter;
use crate::text::Text;
use crate::value::{
    distinct, has_key, lemma_place_of, lemma_put, lemma_same_keys, put, Fields, Json,
};
use vstd::prelude::*;

verus! {

/// The same tables at the same places, none twice.
pub open spec fn same_tables(a: Seq<(Text, Seq<Fields>)>, b: Seq<(Text, Seq<Fields>)>) -> bool {
    &&& a.len() == b.len()
    &&& forall|i: int| 0 <= i < a.len() ==> (#[trigger] a[i]).0 == b[i].0
    &&& distinct(a)
    &&& distinct(b)
}

/// The rows of a table behind those that were there before.
pub open spec fn added(
    before: Seq<(Text, Seq<Fields>)>,
    after: Seq<(Text, Seq<Fields>)>,
    table: Text,
) -> Seq<Fields> {
    rows_in(after, table).skip(rows_in(before, table).len() as int)
}

/// Whether the same was added twice: to rows `a`, which became `c`, and to rows `b`, which became
/// `d`.
pub open spec fn same_added(
    a: Seq<(Text, Seq<Fields>)>,
    c: Seq<(Text, Seq<Fields>)>,
    b: Seq<(Text, Seq<Fields>)>,
    d: Seq<(Text, Seq<Fields>)>,
) -> bool {
    &&& same_tables(c, d)
    &&& forall|table: Text| #[trigger] rows_in(a, table).is_prefix_of(rows_in(c, table))
    &&& forall|table: Text| #[trigger] rows_in(b, table).is_prefix_of(rows_in(d, table))
    &&& forall|table: Text| #[trigger] added(a, c, table) == added(b, d, table)
}

/// Whether two stores differ at most in the rows of their tables.
pub open spec fn same_but_rows(s: Store, r: Store) -> bool {
    &&& same_tables(s.rows, r.rows)
    &&& s.one_to_many == r.one_to_many
    &&& s.one_to_one == r.one_to_one
}

proof fn lemma_nothing_added(a: Seq<(Text, Seq<Fields>)>, b: Seq<(Text, Seq<Fields>)>)
    requires
        same_tables(a, b),
    ensures
        same_added(a, a, b, b),
{
    assert forall|table: Text| #[trigger] rows_in(a, table).is_prefix_of(rows_in(a, table)) by {
        let list = rows_in(a, table);
        assert(list =~= list.subrange(0, list.len() as int));
    }
    assert forall|table: Text| #[trigger] rows_in(b, table).is_prefix_of(rows_in(b, table)) by {
        let list = rows_in(b, table);
        assert(list =~= list.subrange(0, list.len() as int));
    }
    assert forall|table: Text| #[trigger] added(a, a, table) == added(b, b, table) by {
        assert(added(a, a, table) =~= added(b, b, table));
    }
}

proof fn lemma_added_twice(
    a: Seq<(Text, Seq<Fields>)>,
    c: Seq<(Text, Seq<Fields>)>,
    e: Seq<(Text, Seq<Fields>)>,
    b: Seq<(Text, Seq<Fields>)>,
    d: Seq<(Text, Seq<Fields>)>,
    f: Seq<(Text, Seq<Fields>)>,
)
    requires
        same_added(a, c, b, d),
        same_added(c, e, d, f),
    ensures
        same_added(a, e, b, f),
{
    assert forall|table: Text| #[trigger] rows_in(a, table).is_prefix_of(rows_in(e, table)) by {
        assert(rows_in(a, table).is_prefix_of(rows_in(c, table)));
        assert(rows_in(c, table).is_prefix_of(rows_in(e, table)));
        assert(rows_in(a, table) =~= rows_in(e, table).subrange(
            0,
            rows_in(a, table).len() as int,
        ));
    }
    assert forall|table: Text| #[trigger] rows_in(b, table).is_prefix_of(rows_in(f, table)) by {
        assert(rows_in(b, table).is_prefix_of(rows_in(d, table)));
        assert(rows_in(d, table).is_prefix_of(rows_in(f, table)));
        assert(rows_in(b, table) =~= rows_in(f, table).subrange(
            0,
            rows_in(b, table).len() as int,
        ));
    }
    assert forall|table: Text| #[trigger] added(a, e, table) == added(b, f, table) by {
        assert(rows_in(a, table).is_prefix_of(rows_in(c, table)));
        assert(rows_in(c, table).is_prefix_of(rows_in(e, table)));
        assert(rows_in(b, table).is_prefix_of(rows_in(d, table)));
        assert(rows_in(d, table).is_prefix_of(rows_in(f, table)));
        assert(added(a, c, table) == added(b, d, table));
        assert(added(c, e, table) == added(d, f, table));
        assert(added(a, e, table) =~= added(a, c, table) + added(c, e, table));
        assert(added(b, f, table) =~= added(b, d, table) + added(d, f, table));
    }
}

/// A row that is given to its table is added whatever rows there are.
proof fn lemma_row_added(rules: Rules, s: Store, r: Store, row: Fields, place: Place)
    requires
        same_but_rows(s, r),
    ensures
        ({
            let c = with_row(rules, s, row, place.keys, place.item_steps, place.item_keys);
            let d = with_row(rules, r, row, place.keys, place.item_steps, place.item_keys);
            same_but_rows(c, d) && same_added(s.rows, c.rows, r.rows, d.rows)
        }),
{
    let table = table_name(rules, place.keys);
    let whole = linked(rules, row, place.item_steps, place.item_keys);
    let a = s.rows;
    let b = r.rows;
    let c = put(a, table, rows_in(a, table).push(whole));
    let d = put(b, table, rows_in(b, table).push(whole));
    lemma_put(a, table, rows_in(a, table).push(whole));
    lemma_put(b, table, rows_in(b, table).push(whole));
    lemma_same_keys(a, b, table);
    lemma_place_of(a, table);
    assert forall|i: int| 0 <= i < c.len() implies (#[trigger] c[i]).0 == d[i].0 by {
        if i < a.len() {
            assert(a[i].0 == b[i].0);
        }
    }
    assert forall|other: Text| #[trigger] rows_in(a, other).is_prefix_of(rows_in(c, other)) by {
        if other != table {
            assert(has_key(c, other) == has_key(a, other));
        }
        assert(rows_in(a, other) =~= rows_in(c, other).subrange(
            0,
            rows_in(a, other).len() as int,
        ));
    }
    assert forall|other: Text| #[trigger] rows_in(b, other).is_prefix_of(rows_in(d, other)) by {
        if other != table {
            assert(has_key(d, other) == has_key(b, other));
        }
        assert(rows_in(b, other) =~= rows_in(d, other).subrange(
            0,
            rows_in(b, other).len() as int,
        ));
    }
    assert forall|other: Text| #[trigger] added(a, c, other) == added(b, d, other) by {
        if other != table {
            assert(has_key(c, other) == has_key(a, other));
            assert(has_key(d, other) == has_key(b, other));
        }
        assert(added(a, c, other) =~= added(b, d, other));
    }
}

/// What flattening an object adds, and the row that it gives, do not depend on the rows that are
/// there.
pub proof fn law_rows_do_not_matter(
    rules: Rules,
    s: Store,
    r: Store,
    members: Fields,
    place: Place,
    emit: bool,
    as_inlined: bool,
)
    requires
        same_but_rows(s, r),
    ensures
        ({
            let c = flatten(rules, s, members, place, emit, as_inlined);
            let d = flatten(rules, r, members, place, emit, as_inlined);
            &&& same_but_rows(c.0, d.0)
            &&& same_added(s.rows, c.0.rows, r.rows, d.0.rows)
            &&& c.1 == d.1
        }),
    decreases members, 2int, 0int,
{
    let n = members.len();
    lemma_arrays_added(rules, s, r, members, place, as_inlined, n);
    let s1 = flatten_arrays(rules, s, members, place, as_inlined, n);
    let r1 = flatten_arrays(rules, r, members, place, as_inlined, n);
    lemma_objects_added(rules, s1, r1, s.one_to_many, members, place, n);
    let s2 = flatten_objects(rules, s1, s.one_to_many, members, place, n).0;
    let r2 = flatten_objects(rules, r1, s.one_to_many, members, place, n).0;
    lemma_added_twice(s.rows, s1.rows, s2.rows, r.rows, r1.rows, r2.rows);
    if emit {
        let row = flatten(rules, s, members, place, false, as_inlined).1->Some_0;
        lemma_row_added(rules, s2, r2, row, place);
        let s3 = with_row(rules, s2, row, place.keys, place.item_steps, place.item_keys);
        let r3 = with_row(rules, r2, row, place.keys, place.item_steps, place.item_keys);
        lemma_added_twice(s.rows, s2.rows, s3.rows, r.rows, r2.rows, r3.rows);
    }
}

proof fn lemma_arrays_added(
    rules: Rules,
    s: Store,
    r: Store,
    members: Fields,
    place: Place,
    as_inlined: bool,
    n: nat,
)
    requires
        n <= members.len(),
        same_but_rows(s, r),
    ensures
        ({
            let c = flatten_arrays(rules, s, members, place, as_inlined, n);
            let d = flatten_arrays(rules, r, members, place, as_inlined, n);
            same_but_rows(c, d) && same_added(s.rows, c.rows, r.rows, d.rows)
        }),
    decreases members, 1int, n,
{
    lemma_nothing_added(s.rows, r.rows);
    if n > 0 {
        let m = (n - 1) as nat;
        lemma_arrays_added(rules, s, r, members, place, as_inlined, m);
        let s1 = flatten_arrays(rules, s, members, place, as_inlined, m);
        let r1 = flatten_arrays(rules, r, members, place, as_inlined, m);
        let key = members[n - 1].0;
        if let Json::Array(items) = members[n - 1].1 {
            if all_objects(items) {
                let s2 = with_array(rules, s1, place.keys.push(key), items.len());
                let r2 = with_array(rules, r1, place.keys.push(key), items.len());
                if !as_inlined {
                    lemma_items_added(rules, s2, r2, items, place, key, items.len());
                    let s3 = flatten_items(rules, s2, items, place, key, items.len());
                    let r3 = flatten_items(rules, r2, items, place, key, items.len());
                    lemma_added_twice(s.rows, s1.rows, s3.rows, r.rows, r1.rows, r3.rows);
                }
            }
        }
    }
}

proof fn lemma_items_added(
    rules: Rules,
    s: Store,
    r: Store,
    items: Seq<Json>,
    place: Place,
    key: Text,
    n: nat,
)
    requires
        n <= items.len(),
        same_but_rows(s, r),
    ensures
        ({
            let c = flatten_items(rules, s, items, place, key, n);
            let d = flatten_items(rules, r, items, place, key, n);
            same_but_rows(c, d) && same_added(s.rows, c.rows, r.rows, d.rows)
        }),
    decreases items, 3int, n,
{
    lemma_nothing_added(s.rows, r.rows);
    if n > 0 {
        let m = (n - 1) as nat;
        lemma_items_added(rules, s, r, items, place, key, m);
        let s1 = flatten_items(rules, s, items, place, key, m);
        let r1 = flatten_items(rules, r, items, place, key, m);
        if let Json::Object(inner) = items[n - 1] {
            let there = place.item(key, m);
            law_rows_do_not_matter(rules, s1, r1, inner, there, true, false);
            let s2 = flatten(rules, s1, inner, there, true, false).0;
            let r2 = flatten(rules, r1, inner, there, true, false).0;
            lemma_added_twice(s.rows, s1.rows, s2.rows, r.rows, r1.rows, r2.rows);
        }
    }
}

proof fn lemma_objects_added(
    rules: Rules,
    s: Store,
    r: Store,
    one_to_many: Seq<Seq<Text>>,
    members: Fields,
    place: Place,
    n: nat,
)
    requires
        n <= members.len(),
        same_but_rows(s, r),
    ensures
        ({
            let c = flatten_objects(rules, s, one_to_many, members, place, n);
            let d = flatten_objects(rules, r, one_to_many, members, place, n);
            &&& same_but_rows(c.0, d.0)
            &&& same_added(s.rows, c.0.rows, r.rows, d.0.rows)
            &&& c.1 == d.1
        }),
    decreases members, 1int, n,
{
    lemma_nothing_added(s.rows, r.rows);
    if n > 0 {
        let m = (n - 1) as nat;
        lemma_objects_added(rules, s, r, one_to_many, members, place, m);
        let s1 = flatten_objects(rules, s, one_to_many, members, place, m).0;
        let r1 = flatten_objects(rules, r, one_to_many, members, place, m).0;
        let key = members[n - 1].0;
        if let Some(object) = nested(rules, one_to_many, place.keys, members[n - 1]) {
            let emit = rules.emit.contains(place.keys.push(key));
            let there = place.member(key);
            let as_inlined = members[n - 1].1 is Array;
            law_rows_do_not_matter(rules, s1, r1, object, there, emit, as_inlined);
            let s2 = flatten(rules, s1, object, there, emit, as_inlined).0;
            let r2 = flatten(rules, r1, object, there, emit, as_inlined).0;
            lemma_added_twice(s.rows, s1.rows, s2.rows, r.rows, r1.rows, r2.rows);
        }
    }
}

/// What is gathered when the rows have been taken.
pub open spec fn taken(store: Store) -> Store {
    Store { rows: emptied(store.rows), ..store }
}

/// Batching does not matter: whether the rows are taken after each of two documents or once after
/// both, every table comes out the same, with the same records in the same order, and what is
/// gathered then is the same.
pub proof fn law_documents_may_be_batched(
    rules: Rules,
    store: Store,
    members: Fields,
    intake: Intake,
    table: Table,
    name: Text,
)
    requires
        distinct(store.rows),
    ensures
        ({
            let at_once = after_document(rules, store, members);
            let apart = after_document(rules, taken(store), members);
            let first = rows_in(store.rows, name);
            let second = rows_in(apart.rows, name);
            &&& rows_in(at_once.rows, name) == first + second
            &&& after_rows(intake, table, rows_in(at_once.rows, name)) == after_rows(
                intake,
                after_rows(intake, table, first),
                second,
            )
            &&& records(intake, table, rows_in(at_once.rows, name)) == records(
                intake,
                table,
                first,
            ) + records(intake, after_rows(intake, table, first), second)
            &&& taken(at_once) == taken(apart)
        }),
{
    let at_once = after_document(rules, store, members);
    let apart = after_document(rules, taken(store), members);
    assert(same_tables(store.rows, emptied(store.rows)));
    law_rows_do_not_matter(rules, store, taken(store), members, Place::root(), true, false);
    let first = rows_in(store.rows, name);
    let second = rows_in(apart.rows, name);
    lemma_place_of(emptied(store.rows), name);
    assert(rows_in(emptied(store.rows), name).len() == 0);
    assert(added(store.rows, at_once.rows, name) == added(
        emptied(store.rows),
        apart.rows,
        name,
    ));
    assert(first.is_prefix_of(rows_in(at_once.rows, name)));
    assert(added(emptied(store.rows), apart.rows, name) =~= second);
    assert(rows_in(at_once.rows, name) =~= first + second);
    law_batches_do_not_matter(intake, table, first, second);
    assert(emptied(at_once.rows) =~= emptied(apart.rows)) by {
        assert forall|i: int| 0 <= i < at_once.rows.len() implies #[trigger] emptied(at_once.rows)[i]
            == emptied(apart.rows)[i] by {
            assert(at_once.rows[i].0 == apart.rows[i].0);
        }
    }
}

} // verus!

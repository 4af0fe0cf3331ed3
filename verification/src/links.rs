//! Links: in each table they tell all rows apart, and none of them leads nowhere.

use crate::extend::{
    extends, flat, lemma_flat_row, lemma_flatten_arrays_extends, lemma_flatten_extends,
    lemma_flatten_items_extends, lemma_flatten_objects_extends, lemma_link_names, lemma_linked,
    lemma_put_all, lemma_with_row_extends,
};
use crate::flatten::{
    all_objects, array_texts, flat_row, flatten, flatten_arrays, flatten_items, flatten_objects,
    gone_arrays, gone_objects, lemma_without_all, link_text, linked, nested, rows_in, table_name,
    under, with_array, with_links, with_row, without_all, Place, Rules, Store,
};
use crate::laws::{
    after_document, identified, law_document_has_a_row, law_links_tell_documents_apart,
    law_row_has_an_identity, lemma_array_text_from, lemma_decimal_digits, lemma_decimal_injective,
    lemma_identified_later, lemma_links_distinct, link_name,
};
use crate::path::{step_texts, Step};
use crate::text::{decimal, join, Text};
use crate::value::{
    distinct, has_key, lemma_put, lemma_tidy_item, lemma_tidy_member, put, tidy, value_at, Fields,
    Json,
};
use vstd::prelude::*;

verus! {

/// Whether all keys in a value are of a kind.
pub open spec fn all_keys(value: Json, ok: spec_fn(Text) -> bool) -> bool
    decreases value,
{
    match value {
        Json::Array(items) => forall|i: int|
            0 <= i < items.len() ==> all_keys(#[trigger] items[i], ok),
        Json::Object(members) => forall|i: int|
            0 <= i < members.len() ==> ok((#[trigger] members[i]).0) && all_keys(members[i].1, ok),
        _ => true,
    }
}

proof fn lemma_keys_of_member(members: Fields, ok: spec_fn(Text) -> bool, i: int)
    requires
        all_keys(Json::Object(members), ok),
        0 <= i < members.len(),
    ensures
        ok(members[i].0),
        all_keys(members[i].1, ok),
{
    reveal_with_fuel(all_keys, 2);
    let whole = Json::Object(members);
    assert(whole->Object_0[i] == members[i]);
}

proof fn lemma_keys_of_item(items: Seq<Json>, ok: spec_fn(Text) -> bool, i: int)
    requires
        all_keys(Json::Array(items), ok),
        0 <= i < items.len(),
    ensures
        all_keys(items[i], ok),
{
    reveal_with_fuel(all_keys, 2);
    let whole = Json::Array(items);
    assert(whole->Array_0[i] == items[i]);
}

/// A key that cannot be mistaken in a link: it has no dot in it, and is not a number.
pub open spec fn plain_key(key: Text) -> bool {
    !key.contains('.') && forall|n: nat| key != #[trigger] decimal(n)
}

/// Whether all keys in a value are plain.
pub open spec fn plain_keys(value: Json) -> bool {
    all_keys(value, |key: Text| plain_key(key))
}

/// A key without dots and digits is plain.
pub proof fn law_keys_without_dots_and_digits_are_plain(key: Text)
    requires
        key.len() > 0,
        forall|i: int|
            0 <= i < key.len() ==> #[trigger] key[i] != '.' && !('0' <= key[i] <= '9'),
    ensures
        plain_key(key),
{
    assert forall|n: nat| key != #[trigger] decimal(n) by {
        lemma_decimal_digits(n);
        if key == decimal(n) {
            assert('0' <= decimal(n)[0] <= '9');
        }
    }
}

/// All keys on the way are plain.
pub open spec fn plain_steps(steps: Seq<Step>) -> bool {
    forall|i: int|
        0 <= i < steps.len() ==> ((#[trigger] steps[i]) matches Step::Key(key) ==> plain_key(key))
}

/// The identity of a row: the number of the document, and the way to the array item in it, if the
/// row is one of an array item.
pub open spec fn identity(number: nat, steps: Seq<Step>) -> Text {
    if steps.len() == 0 {
        decimal(number)
    } else {
        link_text(number, steps)
    }
}

/// Parts without dots are found again in what they are joined to by dots.
proof fn lemma_join_injective(a: Seq<Text>, b: Seq<Text>)
    requires
        a.len() > 0,
        b.len() > 0,
        forall|i: int| 0 <= i < a.len() ==> !(#[trigger] a[i]).contains('.'),
        forall|i: int| 0 <= i < b.len() ==> !(#[trigger] b[i]).contains('.'),
        join(a, "."@) == join(b, "."@),
    ensures
        a == b,
    decreases a.len(),
{
    reveal_strlit(".");
    let x = join(a, "."@);
    let y = join(b, "."@);
    let m = a[0].len() as int;
    let n = b[0].len() as int;
    assert(!a[0].contains('.') && !b[0].contains('.'));
    assert(a[0] =~= x.take(m));
    assert(b[0] =~= y.take(n));
    if a.len() > 1 {
        assert(x[m] == '.');
    }
    if b.len() > 1 {
        assert(y[n] == '.');
    }
    if a.len() > 1 && m < n {
        assert(b[0][m] == '.');
    }
    if b.len() > 1 && n < m {
        assert(a[0][n] == '.');
    }
    if a.len() == 1 && b.len() > 1 {
        assert(a[0].len() == x.len());
        assert(a[0][n] == '.');
    }
    if b.len() == 1 && a.len() > 1 {
        assert(b[0][m] == '.');
    }
    assert(m == n);
    assert(a[0] == b[0]);
    if a.len() > 1 {
        let c = a.skip(1);
        let d = b.skip(1);
        assert(join(c, "."@) =~= x.skip(m + 1));
        assert(join(d, "."@) =~= y.skip(n + 1));
        assert forall|i: int| 0 <= i < c.len() implies !(#[trigger] c[i]).contains('.') by {
            assert(!a[i + 1].contains('.'));
        }
        assert forall|i: int| 0 <= i < d.len() implies !(#[trigger] d[i]).contains('.') by {
            assert(!b[i + 1].contains('.'));
        }
        lemma_join_injective(c, d);
        assert(a =~= seq![a[0]] + c);
        assert(b =~= seq![b[0]] + d);
    } else {
        assert(a =~= b);
    }
}

/// In a document, different ways give different identities, where the keys are plain.
pub proof fn law_identities_tell_ways_apart(number: nat, a: Seq<Step>, b: Seq<Step>)
    requires
        plain_steps(a),
        plain_steps(b),
        identity(number, a) == identity(number, b),
    ensures
        a == b,
{
    reveal_strlit(".");
    let start = decimal(number) + "."@;
    if a.len() > 0 && b.len() > 0 {
        let x = step_texts(a);
        let y = step_texts(b);
        assert(join(x, "."@) =~= identity(number, a).skip(start.len() as int));
        assert(join(y, "."@) =~= identity(number, b).skip(start.len() as int));
        assert forall|i: int| 0 <= i < x.len() implies !(#[trigger] x[i]).contains('.') by {
            lemma_step_without_dot(a, i);
        }
        assert forall|i: int| 0 <= i < y.len() implies !(#[trigger] y[i]).contains('.') by {
            lemma_step_without_dot(b, i);
        }
        lemma_join_injective(x, y);
        assert(x.len() == a.len() && y.len() == b.len());
        assert forall|i: int| 0 <= i < a.len() implies a[i] == b[i] by {
            assert(x[i] == y[i]);
            match (a[i], b[i]) {
                (Step::Index(m), Step::Index(n)) => {
                    lemma_decimal_injective(m, n);
                },
                (Step::Key(key), Step::Index(n)) => {
                    assert(key != decimal(n));
                },
                (Step::Index(n), Step::Key(key)) => {
                    assert(key != decimal(n));
                },
                _ => {},
            }
        }
        assert(a =~= b);
    } else if a.len() > 0 {
        assert(identity(number, a).len() > decimal(number).len());
    } else if b.len() > 0 {
        assert(identity(number, b).len() > decimal(number).len());
    } else {
        assert(a =~= b);
    }
}

proof fn lemma_step_without_dot(steps: Seq<Step>, i: int)
    requires
        plain_steps(steps),
        0 <= i < steps.len(),
    ensures
        !step_texts(steps)[i].contains('.'),
{
    let text = step_texts(steps)[i];
    if let Step::Index(n) = steps[i] {
        lemma_decimal_digits(n);
        if text.contains('.') {
            let j = choose|j: int| 0 <= j < text.len() && text[j] == '.';
            assert('0' <= decimal(n)[j] <= '9');
        }
    }
}

/// The identity that a row has.
pub open spec fn link_of(row: Fields) -> Json {
    value_at(row, "_link"@)
}

/// Whether the rows that were added have identities of ways in a region, and those in one table all
/// have different ones.
spec fn covers(
    number: nat,
    before: Seq<(Text, Seq<Fields>)>,
    after: Seq<(Text, Seq<Fields>)>,
    region: spec_fn(Seq<Step>) -> bool,
) -> bool {
    &&& forall|table: Text| #[trigger] rows_in(before, table).is_prefix_of(rows_in(after, table))
    &&& forall|table: Text, i: int|
        rows_in(before, table).len() <= i < rows_in(after, table).len() ==> in_region(
            number,
            region,
            #[trigger] rows_in(after, table)[i],
        )
    &&& forall|table: Text, i: int, j: int|
        rows_in(before, table).len() <= i < j < rows_in(after, table).len() ==> link_of(
            #[trigger] rows_in(after, table)[i],
        ) != link_of(#[trigger] rows_in(after, table)[j])
}

/// Whether a row has the identity of a way in a region.
spec fn in_region(number: nat, region: spec_fn(Seq<Step>) -> bool, row: Fields) -> bool {
    exists|s: Seq<Step>| #[trigger]
        region(s) && plain_steps(s) && link_of(row) == Json::Str(identity(number, s))
}

proof fn lemma_covers_nothing(
    number: nat,
    rows: Seq<(Text, Seq<Fields>)>,
    region: spec_fn(Seq<Step>) -> bool,
)
    ensures
        covers(number, rows, rows, region),
{
    assert forall|table: Text| #[trigger] rows_in(rows, table).is_prefix_of(
        rows_in(rows, table),
    ) by {
        let list = rows_in(rows, table);
        assert(list =~= list.subrange(0, list.len() as int));
    }
}

proof fn lemma_covers_more(
    number: nat,
    a: Seq<(Text, Seq<Fields>)>,
    b: Seq<(Text, Seq<Fields>)>,
    small: spec_fn(Seq<Step>) -> bool,
    large: spec_fn(Seq<Step>) -> bool,
)
    requires
        covers(number, a, b, small),
        forall|s: Seq<Step>| #[trigger] small(s) ==> large(s),
    ensures
        covers(number, a, b, large),
{
    assert forall|table: Text, i: int|
        rows_in(a, table).len() <= i < rows_in(b, table).len() implies in_region(
        number,
        large,
        #[trigger] rows_in(b, table)[i],
    ) by {
        let row = rows_in(b, table)[i];
        assert(in_region(number, small, row));
        let s = choose|s: Seq<Step>| #[trigger]
            small(s) && plain_steps(s) && link_of(row) == Json::Str(identity(number, s));
        assert(large(s));
    }
}

proof fn lemma_covers_both(
    number: nat,
    a: Seq<(Text, Seq<Fields>)>,
    b: Seq<(Text, Seq<Fields>)>,
    c: Seq<(Text, Seq<Fields>)>,
    one: spec_fn(Seq<Step>) -> bool,
    other: spec_fn(Seq<Step>) -> bool,
    all: spec_fn(Seq<Step>) -> bool,
)
    requires
        covers(number, a, b, one),
        covers(number, b, c, other),
        forall|s: Seq<Step>| #[trigger] one(s) ==> all(s) && !other(s),
        forall|s: Seq<Step>| #[trigger] other(s) ==> all(s),
    ensures
        covers(number, a, c, all),
{
    assert forall|table: Text| #[trigger] rows_in(a, table).is_prefix_of(rows_in(c, table)) by {
        assert(rows_in(a, table).is_prefix_of(rows_in(b, table)));
        assert(rows_in(b, table).is_prefix_of(rows_in(c, table)));
        assert(rows_in(a, table) =~= rows_in(c, table).subrange(
            0,
            rows_in(a, table).len() as int,
        ));
    }
    assert forall|table: Text, i: int|
        rows_in(a, table).len() <= i < rows_in(c, table).len() implies in_region(
        number,
        all,
        #[trigger] rows_in(c, table)[i],
    ) by {
        let row = rows_in(c, table)[i];
        assert(rows_in(b, table).is_prefix_of(rows_in(c, table)));
        if i < rows_in(b, table).len() {
            assert(rows_in(b, table)[i] == row);
            assert(in_region(number, one, row));
            let s = choose|s: Seq<Step>| #[trigger]
                one(s) && plain_steps(s) && link_of(row) == Json::Str(identity(number, s));
            assert(all(s));
        } else {
            assert(in_region(number, other, row));
            let s = choose|s: Seq<Step>| #[trigger]
                other(s) && plain_steps(s) && link_of(row) == Json::Str(identity(number, s));
            assert(all(s));
        }
    }
    assert forall|table: Text, i: int, j: int|
        rows_in(a, table).len() <= i < j < rows_in(c, table).len() implies link_of(
        #[trigger] rows_in(c, table)[i],
    ) != link_of(#[trigger] rows_in(c, table)[j]) by {
        let x = rows_in(c, table)[i];
        let y = rows_in(c, table)[j];
        let n = rows_in(b, table).len();
        assert(rows_in(b, table).is_prefix_of(rows_in(c, table)));
        if j < n {
            assert(rows_in(b, table)[i] == x && rows_in(b, table)[j] == y);
        } else if i < n {
            assert(rows_in(b, table)[i] == x);
            assert(in_region(number, one, x));
            assert(in_region(number, other, y));
            let s = choose|s: Seq<Step>| #[trigger]
                one(s) && plain_steps(s) && link_of(x) == Json::Str(identity(number, s));
            let t = choose|t: Seq<Step>| #[trigger]
                other(t) && plain_steps(t) && link_of(y) == Json::Str(identity(number, t));
            if link_of(x) == link_of(y) {
                law_identities_tell_ways_apart(number, s, t);
            }
        }
    }
}

/// The ways that the rows of an object have: its own, if it has a row, and those through its
/// members.
spec fn ways(place: Place, emit: bool) -> spec_fn(Seq<Step>) -> bool {
    |s: Seq<Step>|
        place.steps.is_prefix_of(s) && (s == place.steps && emit || s.len() > place.steps.len()
            && s[place.steps.len() as int] is Key)
}

/// The ways through the members that are arrays, among the first `n`.
spec fn array_ways(place: Place, members: Fields, n: int) -> spec_fn(Seq<Step>) -> bool {
    |s: Seq<Step>| through(place, members, n, s) && s[(place.steps.len() + 1) as int] is Index
}

/// The ways through the members that are objects, among the first `n`.
spec fn object_ways(place: Place, members: Fields, n: int) -> spec_fn(Seq<Step>) -> bool {
    |s: Seq<Step>| through(place, members, n, s) && s[(place.steps.len() + 1) as int] is Key
}

/// Whether a way goes through one of the first `n` members, and further.
spec fn through(place: Place, members: Fields, n: int, s: Seq<Step>) -> bool {
    &&& s.len() >= place.steps.len() + 2
    &&& place.steps.is_prefix_of(s)
    &&& exists|j: int|
        0 <= j < n && s[place.steps.len() as int] == Step::Key((#[trigger] members[j]).0)
}

/// The ways through the first `n` items of an array.
spec fn item_ways(place: Place, key: Text, n: int) -> spec_fn(Seq<Step>) -> bool {
    |s: Seq<Step>|
        {
            &&& s.len() >= place.steps.len() + 2
            &&& place.steps.is_prefix_of(s)
            &&& s[place.steps.len() as int] == Step::Key(key)
            &&& s[(place.steps.len() + 1) as int] matches Step::Index(i) && i < n
        }
}

/// Only the way of an object itself.
spec fn own_way(place: Place) -> spec_fn(Seq<Step>) -> bool {
    |s: Seq<Step>| s == place.steps
}

/// Whether an object at a place can have a row that tells its way: it is the document, or an array
/// item.
spec fn tells_way(place: Place) -> bool {
    if place.item_steps.len() == 0 {
        place.steps.len() == 0
    } else {
        place.item_steps.last() == place.steps && place.steps.len() > 0
    }
}

/// What the laws on links ask of an object and its place.
spec fn orderly(rules: Rules, rows: Seq<(Text, Seq<Fields>)>, value: Json, place: Place) -> bool {
    &&& rules.emit.len() == 0
    &&& distinct(rows)
    &&& tidy(value)
    &&& plain_keys(value)
    &&& plain_steps(place.steps)
    &&& place.item_steps.len() == place.item_keys.len()
}

proof fn lemma_row_covers(rules: Rules, store: Store, row: Fields, place: Place)
    requires
        distinct(store.rows),
        flat(row),
        plain_steps(place.steps),
        place.item_steps.len() == place.item_keys.len(),
        tells_way(place),
    ensures
        covers(
            rules.number,
            store.rows,
            with_row(rules, store, row, place.keys, place.item_steps, place.item_keys).rows,
            own_way(place),
        ),
{
    let table = table_name(rules, place.keys);
    let whole = linked(rules, row, place.item_steps, place.item_keys);
    let before = store.rows;
    let list = rows_in(before, table).push(whole);
    let after = put(before, table, list);
    lemma_put(before, table, list);
    lemma_linked(rules, row, place.item_steps, place.item_keys);
    lemma_with_row_extends(rules, store, row, place, true);
    let region = own_way(place);
    assert(region(place.steps));
    assert(in_region(rules.number, region, whole));
    assert forall|other: Text, i: int|
        rows_in(before, other).len() <= i < rows_in(after, other).len() implies in_region(
        rules.number,
        region,
        #[trigger] rows_in(after, other)[i],
    ) by {
        if other != table {
            assert(has_key(after, other) == has_key(before, other));
        }
    }
    assert forall|other: Text, i: int, j: int|
        rows_in(before, other).len() <= i < j < rows_in(after, other).len() implies link_of(
        #[trigger] rows_in(after, other)[i],
    ) != link_of(#[trigger] rows_in(after, other)[j]) by {
        if other != table {
            assert(has_key(after, other) == has_key(before, other));
        }
    }
}

proof fn lemma_flatten_covers(
    rules: Rules,
    store: Store,
    members: Fields,
    place: Place,
    emit: bool,
    as_inlined: bool,
)
    requires
        orderly(rules, store.rows, Json::Object(members), place),
        emit ==> tells_way(place),
    ensures
        covers(
            rules.number,
            store.rows,
            flatten(rules, store, members, place, emit, as_inlined).0.rows,
            ways(place, emit),
        ),
    decreases members, 2int, 0int,
{
    let n = members.len();
    let number = rules.number;
    let middle = flatten_arrays(rules, store, members, place, as_inlined, n);
    lemma_flatten_arrays_extends(rules, store, members, place, as_inlined, n, true);
    lemma_arrays_cover(rules, store, members, place, as_inlined, n);
    lemma_flatten_objects_extends(rules, middle, store.one_to_many, members, place, n, true);
    lemma_objects_cover(rules, middle, store.one_to_many, members, place, n);
    let (rest, inner) = flatten_objects(rules, middle, store.one_to_many, members, place, n);
    let arrays = array_ways(place, members, n as int);
    let objects = object_ways(place, members, n as int);
    let below = ways(place, false);
    lemma_covers_both(number, store.rows, middle.rows, rest.rows, arrays, objects, below);
    if emit {
        let row = flat_row(rules, store.one_to_many, place.keys, members, inner);
        lemma_tidy_distinct(members);
        lemma_flat_row(rules, store.one_to_many, place.keys, members, inner);
        lemma_row_covers(rules, rest, row, place);
        let after = with_row(rules, rest, row, place.keys, place.item_steps, place.item_keys);
        let own = own_way(place);
        let all = ways(place, true);
        assert forall|s: Seq<Step>| #[trigger] own(s) implies all(s) by {
            assert(place.steps =~= s.subrange(0, place.steps.len() as int));
        }
        lemma_covers_both(number, store.rows, rest.rows, after.rows, below, own, all);
    }
}

proof fn lemma_tidy_distinct(members: Fields)
    requires
        tidy(Json::Object(members)),
    ensures
        distinct(members),
{
}

proof fn lemma_arrays_cover(
    rules: Rules,
    store: Store,
    members: Fields,
    place: Place,
    as_inlined: bool,
    n: nat,
)
    requires
        n <= members.len(),
        orderly(rules, store.rows, Json::Object(members), place),
    ensures
        covers(
            rules.number,
            store.rows,
            flatten_arrays(rules, store, members, place, as_inlined, n).rows,
            array_ways(place, members, n as int),
        ),
    decreases members, 1int, n,
{
    let number = rules.number;
    let all = array_ways(place, members, n as int);
    lemma_covers_nothing(number, store.rows, all);
    if n > 0 {
        let m = (n - 1) as nat;
        let less = array_ways(place, members, m as int);
        let before = flatten_arrays(rules, store, members, place, as_inlined, m);
        lemma_arrays_cover(rules, store, members, place, as_inlined, m);
        lemma_flatten_arrays_extends(rules, store, members, place, as_inlined, m, true);
        lemma_tidy_member(members, n - 1);
        lemma_keys_of_member(members, |key: Text| plain_key(key), n - 1);
        let key = members[n - 1].0;
        assert forall|s: Seq<Step>| #[trigger] less(s) implies all(s) by {
            let j = choose|j: int|
                0 <= j < m && s[place.steps.len() as int] == Step::Key((#[trigger] members[j]).0);
            assert(0 <= j < n);
        }
        lemma_covers_more(number, store.rows, before.rows, less, all);
        if let Json::Array(items) = members[n - 1].1 {
            if all_objects(items) && !as_inlined {
                let noted = with_array(rules, before, place.keys.push(key), items.len());
                let after = flatten_items(rules, noted, items, place, key, items.len());
                lemma_items_cover(rules, noted, items, place, key, items.len());
                let here = item_ways(place, key, items.len() as int);
                assert forall|s: Seq<Step>| #[trigger] less(s) implies all(s) && !here(s) by {
                    let j = choose|j: int|
                        0 <= j < m && s[place.steps.len() as int] == Step::Key(
                            (#[trigger] members[j]).0,
                        );
                    assert(members[j].0 != members[n - 1].0);
                }
                assert forall|s: Seq<Step>| #[trigger] here(s) implies all(s) by {
                    assert(s[place.steps.len() as int] == Step::Key(members[n - 1].0));
                }
                lemma_covers_both(number, store.rows, before.rows, after.rows, less, here, all);
            }
        }
    }
}

proof fn lemma_items_cover(
    rules: Rules,
    store: Store,
    items: Seq<Json>,
    place: Place,
    key: Text,
    n: nat,
)
    requires
        n <= items.len(),
        orderly(rules, store.rows, Json::Array(items), place),
        plain_key(key),
    ensures
        covers(
            rules.number,
            store.rows,
            flatten_items(rules, store, items, place, key, n).rows,
            item_ways(place, key, n as int),
        ),
    decreases items, 3int, n,
{
    let number = rules.number;
    let all = item_ways(place, key, n as int);
    lemma_covers_nothing(number, store.rows, all);
    if n > 0 {
        let m = (n - 1) as nat;
        let less = item_ways(place, key, m as int);
        let before = flatten_items(rules, store, items, place, key, m);
        lemma_items_cover(rules, store, items, place, key, m);
        lemma_flatten_items_extends(rules, store, items, place, key, m, true);
        lemma_tidy_item(items, n - 1);
        lemma_keys_of_item(items, |key: Text| plain_key(key), n - 1);
        lemma_covers_more(number, store.rows, before.rows, less, all);
        if let Json::Object(inner) = items[n - 1] {
            let there = place.item(key, m);
            let here = ways(there, true);
            assert(plain_steps(there.steps)) by {
                assert forall|i: int| 0 <= i < there.steps.len() implies ((
                #[trigger] there.steps[i]) matches Step::Key(k) ==> plain_key(k)) by {
                    if i < place.steps.len() {
                        assert(there.steps[i] == place.steps[i]);
                    }
                }
            }
            lemma_flatten_covers(rules, before, inner, there, true, false);
            let after = flatten(rules, before, inner, there, true, false).0;
            let len = place.steps.len() as int;
            assert(there.steps[len] == Step::Key(key) && there.steps[len + 1] == Step::Index(m));
            assert forall|s: Seq<Step>| #[trigger] here(s) implies all(s) by {
                assert(s[len] == there.steps[len] && s[len + 1] == there.steps[len + 1]);
                assert forall|i: int| 0 <= i < len implies s[i] == place.steps[i] by {
                    assert(s[i] == there.steps[i]);
                }
                assert(place.steps =~= s.subrange(0, len));
            }
            assert forall|s: Seq<Step>| #[trigger] less(s) implies all(s) && !here(s) by {
                if here(s) {
                    assert(s[len + 1] == there.steps[len + 1]);
                }
            }
            lemma_covers_both(number, store.rows, before.rows, after.rows, less, here, all);
        }
    }
}

proof fn lemma_objects_cover(
    rules: Rules,
    store: Store,
    one_to_many: Seq<Seq<Text>>,
    members: Fields,
    place: Place,
    n: nat,
)
    requires
        n <= members.len(),
        orderly(rules, store.rows, Json::Object(members), place),
    ensures
        covers(
            rules.number,
            store.rows,
            flatten_objects(rules, store, one_to_many, members, place, n).0.rows,
            object_ways(place, members, n as int),
        ),
    decreases members, 1int, n,
{
    let number = rules.number;
    let all = object_ways(place, members, n as int);
    lemma_covers_nothing(number, store.rows, all);
    if n > 0 {
        let m = (n - 1) as nat;
        let less = object_ways(place, members, m as int);
        let before = flatten_objects(rules, store, one_to_many, members, place, m).0;
        lemma_objects_cover(rules, store, one_to_many, members, place, m);
        lemma_flatten_objects_extends(rules, store, one_to_many, members, place, m, true);
        lemma_tidy_member(members, n - 1);
        lemma_keys_of_member(members, |key: Text| plain_key(key), n - 1);
        let key = members[n - 1].0;
        assert forall|s: Seq<Step>| #[trigger] less(s) implies all(s) by {
            let j = choose|j: int|
                0 <= j < m && s[place.steps.len() as int] == Step::Key((#[trigger] members[j]).0);
            assert(0 <= j < n);
        }
        lemma_covers_more(number, store.rows, before.rows, less, all);
        if let Some(object) = nested(rules, one_to_many, place.keys, members[n - 1]) {
            if let Json::Array(items) = members[n - 1].1 {
                lemma_tidy_item(items, 0);
                lemma_keys_of_item(items, |key: Text| plain_key(key), 0);
            }
            let there = place.member(key);
            let here = ways(there, false);
            let as_inlined = members[n - 1].1 is Array;
            assert(plain_steps(there.steps)) by {
                assert forall|i: int| 0 <= i < there.steps.len() implies ((
                #[trigger] there.steps[i]) matches Step::Key(k) ==> plain_key(k)) by {
                    if i < place.steps.len() {
                        assert(there.steps[i] == place.steps[i]);
                    }
                }
            }
            assert(!rules.emit.contains(place.keys.push(key)));
            lemma_flatten_covers(rules, before, object, there, false, as_inlined);
            let after = flatten(rules, before, object, there, false, as_inlined).0;
            let len = place.steps.len() as int;
            assert(there.steps[len] == Step::Key(key));
            assert forall|s: Seq<Step>| #[trigger] here(s) implies all(s) by {
                assert(s[len] == there.steps[len]);
                assert forall|i: int| 0 <= i < len implies s[i] == place.steps[i] by {
                    assert(s[i] == there.steps[i]);
                }
                assert(place.steps =~= s.subrange(0, len));
                assert(s[len] == Step::Key(members[n - 1].0));
            }
            assert forall|s: Seq<Step>| #[trigger] less(s) implies all(s) && !here(s) by {
                let j = choose|j: int|
                    0 <= j < m && s[len] == Step::Key((#[trigger] members[j]).0);
                assert(members[j].0 != members[n - 1].0);
                if here(s) {
                    assert(s[len] == there.steps[len]);
                }
            }
            lemma_covers_both(number, store.rows, before.rows, after.rows, less, here, all);
        }
    }
}

/// In each table no two rows have the same identity, and every identity is one of a document with a
/// number below `number`.
pub open spec fn unique_links(rows: Seq<(Text, Seq<Fields>)>, number: nat) -> bool {
    &&& forall|table: Text, i: int|
        0 <= i < rows_in(rows, table).len() ==> of_earlier(
            number,
            #[trigger] rows_in(rows, table)[i],
        )
    &&& forall|table: Text, i: int, j: int|
        0 <= i < j < rows_in(rows, table).len() ==> link_of(#[trigger] rows_in(rows, table)[i])
            != link_of(#[trigger] rows_in(rows, table)[j])
}

/// Whether a row is identified as one of a document with a number below `number`.
pub open spec fn of_earlier(number: nat, row: Fields) -> bool {
    exists|m: nat, s: Seq<Step>|
        m < number && link_of(row) == Json::Str(#[trigger] identity(m, s))
}

/// Where there are no rows, their links are unique.
pub proof fn law_links_are_unique_at_the_start(number: nat)
    ensures
        unique_links(Seq::empty(), number),
{
    assert forall|table: Text| #[trigger]
        rows_in(Seq::<(Text, Seq<Fields>)>::empty(), table).len() == 0 by {}
}

/// `_link` is a key: a document whose keys hold no dots and are no numbers keeps the identities in
/// each table unique, where no objects have rows of their own.
pub proof fn law_links_are_unique(rules: Rules, store: Store, members: Fields)
    requires
        rules.emit.len() == 0,
        distinct(store.rows),
        tidy(Json::Object(members)),
        plain_keys(Json::Object(members)),
        unique_links(store.rows, rules.number),
    ensures
        unique_links(after_document(rules, store, members).rows, rules.number + 1),
{
    let place = Place::root();
    let before = store.rows;
    let after = after_document(rules, store, members).rows;
    let number = rules.number;
    let region = ways(place, true);
    lemma_flatten_covers(rules, store, members, place, true, false);
    assert forall|table: Text, i: int| 0 <= i < rows_in(after, table).len() implies of_earlier(
        number + 1,
        #[trigger] rows_in(after, table)[i],
    ) by {
        let row = rows_in(after, table)[i];
        assert(rows_in(before, table).is_prefix_of(rows_in(after, table)));
        if i < rows_in(before, table).len() {
            assert(rows_in(before, table)[i] == row);
            assert(of_earlier(number, row));
            let (m, s) = choose|m: nat, s: Seq<Step>|
                m < number && link_of(row) == Json::Str(#[trigger] identity(m, s));
            assert(m < number + 1);
        } else {
            assert(in_region(number, region, row));
            let s = choose|s: Seq<Step>| #[trigger]
                region(s) && plain_steps(s) && link_of(row) == Json::Str(identity(number, s));
            assert(number < number + 1 && link_of(row) == Json::Str(identity(number, s)));
        }
    }
    assert forall|table: Text, i: int, j: int|
        0 <= i < j < rows_in(after, table).len() implies link_of(
        #[trigger] rows_in(after, table)[i],
    ) != link_of(#[trigger] rows_in(after, table)[j]) by {
        let x = rows_in(after, table)[i];
        let y = rows_in(after, table)[j];
        let n = rows_in(before, table).len();
        assert(rows_in(before, table).is_prefix_of(rows_in(after, table)));
        if j < n {
            assert(rows_in(before, table)[i] == x && rows_in(before, table)[j] == y);
        } else if i < n {
            assert(rows_in(before, table)[i] == x);
            assert(of_earlier(number, x));
            let (m, s) = choose|m: nat, s: Seq<Step>|
                m < number && link_of(x) == Json::Str(#[trigger] identity(m, s));
            assert(in_region(number, region, y));
            let t = choose|t: Seq<Step>| #[trigger]
                region(t) && plain_steps(t) && link_of(y) == Json::Str(identity(number, t));
            law_links_tell_documents_apart(m, number, s, t);
            law_links_tell_documents_apart(number, m, t, s);
        }
    }
}

/// A key that no column for a link can be mistaken for: it is not empty and does not begin with an
/// underscore.
pub open spec fn open_key(key: Text) -> bool {
    key.len() > 0 && key[0] != '_'
}

/// Whether all keys in a value are such.
pub open spec fn open_keys(value: Json) -> bool {
    all_keys(value, |key: Text| open_key(key))
}

/// All columns of a row have such names.
spec fn open_row(row: Fields) -> bool {
    forall|key: Text| #[trigger] has_key(row, key) ==> open_key(key)
}

/// The row of an object with such keys has such columns, where what the objects in it put into it
/// has.
proof fn lemma_open_row(
    rules: Rules,
    one_to_many: Seq<Seq<Text>>,
    keys: Seq<Text>,
    members: Fields,
    inner: Fields,
)
    requires
        distinct(members),
        open_keys(Json::Object(members)),
        forall|j: int| 0 <= j < inner.len() ==> open_key((#[trigger] inner[j]).0),
    ensures
        open_row(flat_row(rules, one_to_many, keys, members, inner)),
{
    let gone = gone_arrays(members) + gone_objects(rules, one_to_many, keys, members);
    let left = without_all(members, gone);
    let texts = array_texts(members);
    let others = texts + inner;
    let row = flat_row(rules, one_to_many, keys, members, inner);
    lemma_without_all(members, gone);
    lemma_put_all(left, others);
    assert forall|key: Text| #[trigger] has_key(row, key) implies open_key(key) by {
        if has_key(others, key) {
            let j = choose|j: int| 0 <= j < others.len() && #[trigger] others[j].0 == key;
            if j < texts.len() {
                let p = lemma_array_text_from(members, j);
                lemma_keys_of_member(members, |key: Text| open_key(key), p);
                assert(members[p].0 == texts[j].0);
                assert(others[j] == texts[j]);
            } else {
                assert(others[j] == inner[j - texts.len()]);
            }
        } else {
            assert(has_key(left, key));
            assert(has_key(members, key));
            let p = choose|p: int| 0 <= p < members.len() && #[trigger] members[p].0 == key;
            lemma_keys_of_member(members, |key: Text| open_key(key), p);
        }
    }
}

/// Whether a link is the identity of one of the array items around a place, in the column for its
/// array.
spec fn pending(rules: Rules, place: Place, t: Text, v: Text) -> bool {
    exists|k: int|
        0 <= k < place.item_keys.len() && t == join(#[trigger] place.item_keys[k], rules.separator)
            && v == link_text(rules.number, place.item_steps[k])
}

/// Whether a link in a row leads somewhere: to the document, to an array item around a place, or to
/// a row that is there.
spec fn leads(
    rules: Rules,
    place: Place,
    rows: Seq<(Text, Seq<Fields>)>,
    t: Text,
    link: Json,
) -> bool {
    &&& link is Str
    &&& {
        ||| t == rules.main && link->Str_0 == decimal(rules.number)
        ||| pending(rules, place, t, link->Str_0)
        ||| identified(rows_in(rows, rules.prefix + t), link->Str_0)
    }
}

/// Whether all links in a row lead somewhere.
spec fn grounded(
    rules: Rules,
    place: Place,
    rows: Seq<(Text, Seq<Fields>)>,
    row: Fields,
) -> bool {
    forall|t: Text| #[trigger]
        has_key(row, "_link_"@ + t) ==> leads(
            rules,
            place,
            rows,
            t,
            value_at(row, "_link_"@ + t),
        )
}

/// Whether all links in the rows that were added lead somewhere.
spec fn all_grounded(
    rules: Rules,
    place: Place,
    before: Seq<(Text, Seq<Fields>)>,
    after: Seq<(Text, Seq<Fields>)>,
) -> bool {
    forall|table: Text, i: int|
        rows_in(before, table).len() <= i < rows_in(after, table).len() ==> grounded(
            rules,
            place,
            after,
            #[trigger] rows_in(after, table)[i],
        )
}

/// Links that lead somewhere still do so when rows are added.
proof fn lemma_grounded_later(
    rules: Rules,
    place: Place,
    before: Seq<(Text, Seq<Fields>)>,
    after: Seq<(Text, Seq<Fields>)>,
    row: Fields,
)
    requires
        extends(rules, before, after, true),
        grounded(rules, place, before, row),
    ensures
        grounded(rules, place, after, row),
{
    assert forall|t: Text| #[trigger] has_key(row, "_link_"@ + t) implies leads(
        rules,
        place,
        after,
        t,
        value_at(row, "_link_"@ + t),
    ) by {
        let link = value_at(row, "_link_"@ + t);
        assert(leads(rules, place, before, t, link));
        if identified(rows_in(before, rules.prefix + t), link->Str_0) {
            lemma_identified_later(
                rules,
                before,
                after,
                true,
                rules.prefix + t,
                link->Str_0,
            );
        }
    }
}

proof fn lemma_grounded_twice(
    rules: Rules,
    place: Place,
    a: Seq<(Text, Seq<Fields>)>,
    b: Seq<(Text, Seq<Fields>)>,
    c: Seq<(Text, Seq<Fields>)>,
)
    requires
        all_grounded(rules, place, a, b),
        all_grounded(rules, place, b, c),
        extends(rules, b, c, true),
    ensures
        all_grounded(rules, place, a, c),
{
    assert forall|table: Text, i: int|
        rows_in(a, table).len() <= i < rows_in(c, table).len() implies grounded(
        rules,
        place,
        c,
        #[trigger] rows_in(c, table)[i],
    ) by {
        assert(rows_in(b, table).is_prefix_of(rows_in(c, table)));
        if i < rows_in(b, table).len() {
            assert(rows_in(b, table)[i] == rows_in(c, table)[i]);
            lemma_grounded_later(rules, place, b, c, rows_in(b, table)[i]);
        }
    }
}

/// A link in a row with links was there before, or is the identity of an array item around the row.
proof fn lemma_link_from(
    rules: Rules,
    row: Fields,
    item_steps: Seq<Seq<Step>>,
    item_keys: Seq<Seq<Text>>,
    n: nat,
    last: nat,
    t: Text,
)
    requires
        distinct(row),
        has_key(with_links(rules, row, item_steps, item_keys, n, last), "_link_"@ + t),
        !has_key(row, "_link_"@ + t),
    ensures
        exists|k: int|
            0 <= k < n && t == join(#[trigger] item_keys[k], rules.separator) && value_at(
                with_links(rules, row, item_steps, item_keys, n, last),
                "_link_"@ + t,
            ) == Json::Str(link_text(rules.number, item_steps[k])),
    decreases n,
{
    if n > 0 {
        let m = (n - 1) as nat;
        let name = "_link_"@ + t;
        let earlier = with_links(rules, row, item_steps, item_keys, m, last);
        let after = with_links(rules, row, item_steps, item_keys, n, last);
        let link = Json::Str(link_text(rules.number, item_steps[n - 1]));
        lemma_links_distinct(rules, row, item_steps, item_keys, m, last);
        lemma_link_names(t);
        let here = if n == last {
            "_link"@
        } else {
            link_name(rules, item_keys[n - 1])
        };
        lemma_put(earlier, here, link);
        if name == here {
            assert(t =~= name.skip("_link_"@.len() as int));
            assert(join(item_keys[n - 1], rules.separator) =~= here.skip("_link_"@.len() as int));
            assert(t == join(item_keys[n - 1], rules.separator));
        } else {
            assert(has_key(earlier, name) == has_key(after, name));
            lemma_link_from(rules, row, item_steps, item_keys, m, last, t);
            let k = choose|k: int|
                0 <= k < m && t == join(#[trigger] item_keys[k], rules.separator) && value_at(
                    earlier,
                    name,
                ) == Json::Str(link_text(rules.number, item_steps[k]));
            assert(value_at(after, name) == value_at(earlier, name));
            assert(0 <= k < n);
        }
    }
}

/// The links of a row with open columns lead to the document and the array items around it.
proof fn lemma_linked_grounded(
    rules: Rules,
    row: Fields,
    place: Place,
    rows: Seq<(Text, Seq<Fields>)>,
)
    requires
        flat(row),
        open_row(row),
        place.item_steps.len() == place.item_keys.len(),
    ensures
        grounded(rules, place, rows, linked(rules, row, place.item_steps, place.item_keys)),
{
    reveal_strlit("_link_");
    reveal_strlit("_link");
    let steps = place.item_steps;
    let keys = place.item_keys;
    let number = Json::Str(decimal(rules.number));
    let n = steps.len();
    let whole = linked(rules, row, steps, keys);
    lemma_put(row, "_link"@, number);
    let start = if n == 0 {
        put(row, "_link"@, number)
    } else {
        row
    };
    let middle = with_links(rules, start, steps, keys, n, n);
    lemma_links_distinct(rules, start, steps, keys, n, n);
    let main = "_link_"@ + rules.main;
    lemma_put(middle, main, number);
    assert forall|t: Text| #[trigger] has_key(whole, "_link_"@ + t) implies leads(
        rules,
        place,
        rows,
        t,
        value_at(whole, "_link_"@ + t),
    ) by {
        let name = "_link_"@ + t;
        lemma_link_names(t);
        assert(name[0] == '_');
        assert(!has_key(row, name));
        assert(has_key(start, name) == has_key(row, name));
        if name == main {
            assert(t =~= name.skip("_link_"@.len() as int));
            assert(rules.main =~= main.skip("_link_"@.len() as int));
        } else {
            assert(has_key(middle, name) == has_key(whole, name));
            assert(value_at(whole, name) == value_at(middle, name));
            lemma_link_from(rules, start, steps, keys, n, n, t);
            let k = choose|k: int|
                0 <= k < n && t == join(#[trigger] keys[k], rules.separator) && value_at(
                    middle,
                    name,
                ) == Json::Str(link_text(rules.number, steps[k]));
            assert(pending(rules, place, t, value_at(whole, name)->Str_0));
        }
    }
}

/// What the law on links that lead somewhere asks of an object and its place.
spec fn openly(rows: Seq<(Text, Seq<Fields>)>, value: Json, place: Place) -> bool {
    &&& distinct(rows)
    &&& tidy(value)
    &&& open_keys(value)
    &&& place.item_steps.len() == place.item_keys.len()
}

proof fn lemma_row_grounded(rules: Rules, store: Store, row: Fields, place: Place)
    requires
        distinct(store.rows),
        flat(row),
        open_row(row),
        place.item_steps.len() == place.item_keys.len(),
    ensures
        all_grounded(
            rules,
            place,
            store.rows,
            with_row(rules, store, row, place.keys, place.item_steps, place.item_keys).rows,
        ),
{
    let table = table_name(rules, place.keys);
    let whole = linked(rules, row, place.item_steps, place.item_keys);
    let before = store.rows;
    let list = rows_in(before, table).push(whole);
    let after = put(before, table, list);
    lemma_put(before, table, list);
    lemma_linked_grounded(rules, row, place, after);
    assert forall|other: Text, i: int|
        rows_in(before, other).len() <= i < rows_in(after, other).len() implies grounded(
        rules,
        place,
        after,
        #[trigger] rows_in(after, other)[i],
    ) by {
        if other != table {
            assert(has_key(after, other) == has_key(before, other));
        }
    }
}

proof fn lemma_flatten_grounded(
    rules: Rules,
    store: Store,
    members: Fields,
    place: Place,
    emit: bool,
    as_inlined: bool,
)
    requires
        openly(store.rows, Json::Object(members), place),
    ensures
        all_grounded(
            rules,
            place,
            store.rows,
            flatten(rules, store, members, place, emit, as_inlined).0.rows,
        ),
        flatten(rules, store, members, place, emit, as_inlined).1 matches Some(row) ==> open_row(
            row,
        ),
    decreases members, 2int, 0int,
{
    let n = members.len();
    let middle = flatten_arrays(rules, store, members, place, as_inlined, n);
    lemma_flatten_arrays_extends(rules, store, members, place, as_inlined, n, true);
    lemma_arrays_grounded(rules, store, members, place, as_inlined, n);
    lemma_flatten_objects_extends(rules, middle, store.one_to_many, members, place, n, true);
    lemma_objects_grounded(rules, middle, store.one_to_many, members, place, n);
    let (rest, inner) = flatten_objects(rules, middle, store.one_to_many, members, place, n);
    lemma_grounded_twice(rules, place, store.rows, middle.rows, rest.rows);
    let row = flat_row(rules, store.one_to_many, place.keys, members, inner);
    lemma_tidy_distinct(members);
    lemma_flat_row(rules, store.one_to_many, place.keys, members, inner);
    lemma_open_row(rules, store.one_to_many, place.keys, members, inner);
    if emit {
        lemma_row_grounded(rules, rest, row, place);
        lemma_with_row_extends(rules, rest, row, place, true);
        let after = with_row(rules, rest, row, place.keys, place.item_steps, place.item_keys);
        lemma_grounded_twice(rules, place, store.rows, rest.rows, after.rows);
    }
}

proof fn lemma_arrays_grounded(
    rules: Rules,
    store: Store,
    members: Fields,
    place: Place,
    as_inlined: bool,
    n: nat,
)
    requires
        n <= members.len(),
        openly(store.rows, Json::Object(members), place),
    ensures
        all_grounded(
            rules,
            place,
            store.rows,
            flatten_arrays(rules, store, members, place, as_inlined, n).rows,
        ),
    decreases members, 1int, n,
{
    if n > 0 {
        let m = (n - 1) as nat;
        let before = flatten_arrays(rules, store, members, place, as_inlined, m);
        lemma_arrays_grounded(rules, store, members, place, as_inlined, m);
        lemma_flatten_arrays_extends(rules, store, members, place, as_inlined, m, true);
        lemma_tidy_member(members, n - 1);
        lemma_keys_of_member(members, |key: Text| open_key(key), n - 1);
        let key = members[n - 1].0;
        if let Json::Array(items) = members[n - 1].1 {
            if all_objects(items) && !as_inlined {
                let noted = with_array(rules, before, place.keys.push(key), items.len());
                let after = flatten_items(rules, noted, items, place, key, items.len());
                lemma_items_grounded(rules, noted, items, place, key, items.len());
                lemma_flatten_items_extends(rules, noted, items, place, key, items.len(), true);
                lemma_grounded_twice(rules, place, store.rows, before.rows, after.rows);
            }
        }
    }
}

proof fn lemma_items_grounded(
    rules: Rules,
    store: Store,
    items: Seq<Json>,
    place: Place,
    key: Text,
    n: nat,
)
    requires
        n <= items.len(),
        openly(store.rows, Json::Array(items), place),
    ensures
        all_grounded(
            rules,
            place,
            store.rows,
            flatten_items(rules, store, items, place, key, n).rows,
        ),
    decreases items, 3int, n,
{
    if n > 0 {
        let m = (n - 1) as nat;
        let before = flatten_items(rules, store, items, place, key, m);
        lemma_items_grounded(rules, store, items, place, key, m);
        lemma_flatten_items_extends(rules, store, items, place, key, m, true);
        lemma_tidy_item(items, n - 1);
        lemma_keys_of_item(items, |key: Text| open_key(key), n - 1);
        if let Json::Object(inner) = items[n - 1] {
            let there = place.item(key, m);
            let after = flatten(rules, before, inner, there, true, false).0;
            lemma_flatten_grounded(rules, before, inner, there, true, false);
            lemma_flatten_extends(rules, before, inner, there, true, false, true);
            law_row_has_an_identity(rules, before, inner, there, false);
            assert forall|table: Text, i: int|
                rows_in(before.rows, table).len() <= i < rows_in(
                    after.rows,
                    table,
                ).len() implies grounded(
                rules,
                place,
                after.rows,
                #[trigger] rows_in(after.rows, table)[i],
            ) by {
                let row = rows_in(after.rows, table)[i];
                assert(grounded(rules, there, after.rows, row));
                lemma_item_is_there(rules, place, key, m, after.rows, row);
            }
            lemma_grounded_twice(rules, place, store.rows, before.rows, after.rows);
        }
    }
}

/// Once an array item has its row, links to it lead to a row that is there.
proof fn lemma_item_is_there(
    rules: Rules,
    place: Place,
    key: Text,
    m: nat,
    rows: Seq<(Text, Seq<Fields>)>,
    row: Fields,
)
    requires
        place.item_steps.len() == place.item_keys.len(),
        grounded(rules, place.item(key, m), rows, row),
        identified(
            rows_in(rows, table_name(rules, place.item(key, m).keys)),
            link_text(rules.number, place.item(key, m).item_steps.last()),
        ),
    ensures
        grounded(rules, place, rows, row),
{
    let there = place.item(key, m);
    assert forall|t: Text| #[trigger] has_key(row, "_link_"@ + t) implies leads(
        rules,
        place,
        rows,
        t,
        value_at(row, "_link_"@ + t),
    ) by {
        let link = value_at(row, "_link_"@ + t);
        assert(leads(rules, there, rows, t, link));
        if pending(rules, there, t, link->Str_0) {
            let v = link->Str_0;
            let k = choose|k: int|
                0 <= k < there.item_keys.len() && t == join(
                    #[trigger] there.item_keys[k],
                    rules.separator,
                ) && v == link_text(rules.number, there.item_steps[k]);
            if k < place.item_keys.len() {
                assert(there.item_keys[k] == place.item_keys[k]);
                assert(there.item_steps[k] == place.item_steps[k]);
                assert(pending(rules, place, t, v));
            } else {
                assert(there.item_keys[k] == there.keys);
                assert(table_name(rules, there.keys) == rules.prefix + t);
            }
        }
    }
}

proof fn lemma_objects_grounded(
    rules: Rules,
    store: Store,
    one_to_many: Seq<Seq<Text>>,
    members: Fields,
    place: Place,
    n: nat,
)
    requires
        n <= members.len(),
        openly(store.rows, Json::Object(members), place),
    ensures
        all_grounded(
            rules,
            place,
            store.rows,
            flatten_objects(rules, store, one_to_many, members, place, n).0.rows,
        ),
        forall|j: int|
            0 <= j < flatten_objects(rules, store, one_to_many, members, place, n).1.len()
                ==> open_key(
                (#[trigger] flatten_objects(
                    rules,
                    store,
                    one_to_many,
                    members,
                    place,
                    n,
                ).1[j]).0,
            ),
    decreases members, 1int, n,
{
    if n > 0 {
        let m = (n - 1) as nat;
        let (before, inner) = flatten_objects(rules, store, one_to_many, members, place, m);
        let (after, more) = flatten_objects(rules, store, one_to_many, members, place, n);
        lemma_objects_grounded(rules, store, one_to_many, members, place, m);
        lemma_flatten_objects_extends(rules, store, one_to_many, members, place, m, true);
        lemma_tidy_member(members, n - 1);
        lemma_keys_of_member(members, |key: Text| open_key(key), n - 1);
        let key = members[n - 1].0;
        if let Some(object) = nested(rules, one_to_many, place.keys, members[n - 1]) {
            if let Json::Array(items) = members[n - 1].1 {
                lemma_tidy_item(items, 0);
                lemma_keys_of_item(items, |key: Text| open_key(key), 0);
            }
            let there = place.member(key);
            let emit = rules.emit.contains(place.keys.push(key));
            let as_inlined = members[n - 1].1 is Array;
            lemma_flatten_grounded(rules, before, object, there, emit, as_inlined);
            lemma_flatten_extends(rules, before, object, there, emit, as_inlined, true);
            assert forall|table: Text, i: int|
                rows_in(before.rows, table).len() <= i < rows_in(
                    after.rows,
                    table,
                ).len() implies grounded(
                rules,
                place,
                after.rows,
                #[trigger] rows_in(after.rows, table)[i],
            ) by {
                let row = rows_in(after.rows, table)[i];
                assert(grounded(rules, there, after.rows, row));
                lemma_same_items(rules, place, there, after.rows, row);
            }
            lemma_grounded_twice(rules, place, store.rows, before.rows, after.rows);
            if let Some(row) = flatten(rules, before, object, there, emit, as_inlined).1 {
                let added = under(key + rules.separator, row);
                assert forall|j: int| 0 <= j < more.len() implies open_key(
                    (#[trigger] more[j]).0,
                ) by {
                    if j < inner.len() {
                        assert(more[j] == inner[j]);
                    } else {
                        assert(more[j] == added[j - inner.len()]);
                        assert(more[j].0[0] == key[0]);
                    }
                }
            }
        }
    }
}

/// At a member the array items around are those around the object.
proof fn lemma_same_items(
    rules: Rules,
    place: Place,
    there: Place,
    rows: Seq<(Text, Seq<Fields>)>,
    row: Fields,
)
    requires
        there.item_keys == place.item_keys,
        there.item_steps == place.item_steps,
        grounded(rules, there, rows, row),
    ensures
        grounded(rules, place, rows, row),
{
    assert forall|t: Text| #[trigger] has_key(row, "_link_"@ + t) implies leads(
        rules,
        place,
        rows,
        t,
        value_at(row, "_link_"@ + t),
    ) by {
        let link = value_at(row, "_link_"@ + t);
        assert(leads(rules, there, rows, t, link));
        if pending(rules, there, t, link->Str_0) {
            let v = link->Str_0;
            let k = choose|k: int|
                0 <= k < there.item_keys.len() && t == join(
                    #[trigger] there.item_keys[k],
                    rules.separator,
                ) && v == link_text(rules.number, there.item_steps[k]);
            assert(t == join(place.item_keys[k], rules.separator));
            assert(pending(rules, place, t, v));
        }
    }
}

/// Whether every column `_link_` and a name holds, in every row, the identity of a row of the table
/// with that name behind the table prefix, or of the main table, if it has that name.
pub open spec fn no_dangling(main: Text, prefix: Text, rows: Seq<(Text, Seq<Fields>)>) -> bool {
    forall|table: Text, i: int|
        0 <= i < rows_in(rows, table).len() ==> not_dangling(
            main,
            prefix,
            rows,
            #[trigger] rows_in(rows, table)[i],
        )
}

/// Whether this holds of one row.
pub open spec fn not_dangling(
    main: Text,
    prefix: Text,
    rows: Seq<(Text, Seq<Fields>)>,
    row: Fields,
) -> bool {
    forall|t: Text| #[trigger]
        has_key(row, "_link_"@ + t) ==> {
            let link = value_at(row, "_link_"@ + t);
            &&& link is Str
            &&& {
                ||| t == main && identified(rows_in(rows, main), link->Str_0)
                ||| identified(rows_in(rows, prefix + t), link->Str_0)
            }
        }
}

/// No link leads nowhere: a document whose keys are not empty and do not begin with an underscore
/// keeps every column that links to a table holding nothing but identities of rows of that table,
/// at any depth.
pub proof fn law_no_link_dangles(rules: Rules, store: Store, members: Fields)
    requires
        distinct(store.rows),
        tidy(Json::Object(members)),
        open_keys(Json::Object(members)),
        no_dangling(rules.main, rules.prefix, store.rows),
    ensures
        no_dangling(
            rules.main,
            rules.prefix,
            after_document(rules, store, members).rows,
        ),
{
    let place = Place::root();
    let before = store.rows;
    let after = after_document(rules, store, members).rows;
    lemma_flatten_grounded(rules, store, members, place, true, false);
    lemma_flatten_extends(rules, store, members, place, true, false, true);
    law_document_has_a_row(rules, store, members);
    let mains = rows_in(after, rules.main);
    assert(mains[mains.len() - 1] == mains.last());
    assert(identified(mains, decimal(rules.number)));
    assert forall|table: Text, i: int| 0 <= i < rows_in(after, table).len() implies not_dangling(
        rules.main,
        rules.prefix,
        after,
        #[trigger] rows_in(after, table)[i],
    ) by {
        let row = rows_in(after, table)[i];
        assert(rows_in(before, table).is_prefix_of(rows_in(after, table)));
        if i < rows_in(before, table).len() {
            assert(rows_in(before, table)[i] == row);
            assert(not_dangling(rules.main, rules.prefix, before, row));
            lemma_not_dangling_later(rules, before, after, row);
        } else {
            assert(grounded(rules, place, after, row));
            assert forall|t: Text| #[trigger] has_key(row, "_link_"@ + t) implies {
                let link = value_at(row, "_link_"@ + t);
                &&& link is Str
                &&& {
                    ||| t == rules.main && identified(mains, link->Str_0)
                    ||| identified(rows_in(after, rules.prefix + t), link->Str_0)
                }
            } by {
                assert(leads(rules, place, after, t, value_at(row, "_link_"@ + t)));
            }
        }
    }
}

proof fn lemma_not_dangling_later(
    rules: Rules,
    before: Seq<(Text, Seq<Fields>)>,
    after: Seq<(Text, Seq<Fields>)>,
    row: Fields,
)
    requires
        extends(rules, before, after, true),
        not_dangling(rules.main, rules.prefix, before, row),
    ensures
        not_dangling(rules.main, rules.prefix, after, row),
{
    assert forall|t: Text| #[trigger] has_key(row, "_link_"@ + t) implies {
        let link = value_at(row, "_link_"@ + t);
        &&& link is Str
        &&& {
            ||| t == rules.main && identified(rows_in(after, rules.main), link->Str_0)
            ||| identified(rows_in(after, rules.prefix + t), link->Str_0)
        }
    } by {
        let v = value_at(row, "_link_"@ + t)->Str_0;
        if identified(rows_in(before, rules.prefix + t), v) {
            lemma_identified_later(rules, before, after, true, rules.prefix + t, v);
        } else {
            lemma_identified_later(rules, before, after, true, rules.main, v);
        }
    }
}

/// Where there are no rows, no link leads nowhere.
pub proof fn law_no_link_dangles_at_the_start(main: Text, prefix: Text)
    ensures
        no_dangling(main, prefix, Seq::empty()),
{
    assert forall|table: Text| #[trigger]
        rows_in(Seq::<(Text, Seq<Fields>)>::empty(), table).len() == 0 by {}
}

} // verus!

//! The tables that are written, in the order of their names.

use crate::files::FlatFiles;
use crate::metadata::Table;
use crate::text::{precedes, sorted_texts, texts, Text};
use crate::value::{distinct, has_key, lemma_place_of};
use vstd::prelude::*;
use vstd::seq_lib::group_to_multiset_ensures;

verus! {

/// No text precedes itself, and of two texts at most one precedes the other.
pub proof fn lemma_precedes_one_way(a: Text, b: Text)
    ensures
        !(precedes(a, b) && precedes(b, a)),
    decreases a.len(),
{
    if a.len() > 0 && b.len() > 0 && a[0] == b[0] {
        lemma_precedes_one_way(a.skip(1), b.skip(1));
    }
}

/// Of two different texts one precedes the other.
pub proof fn lemma_precedes_total(a: Text, b: Text)
    ensures
        a == b || precedes(a, b) || precedes(b, a),
    decreases a.len(),
{
    if a.len() == 0 && b.len() == 0 {
        assert(a =~= b);
    } else if a.len() > 0 && b.len() > 0 && a[0] == b[0] {
        lemma_precedes_total(a.skip(1), b.skip(1));
        if a.skip(1) == b.skip(1) {
            assert(a.len() == a.skip(1).len() + 1 && b.len() == b.skip(1).len() + 1);
            assert forall|i: int| 0 <= i < a.len() implies a[i] == b[i] by {
                if i > 0 {
                    assert(a.skip(1)[i - 1] == b.skip(1)[i - 1]);
                }
            }
            assert(a =~= b);
        }
    }
}

/// Each name precedes those behind it.
pub open spec fn ascending(names: Seq<Text>) -> bool {
    forall|i: int, j: int|
        0 <= i < j < names.len() ==> precedes(#[trigger] names[i], #[trigger] names[j])
}

/// Whether names are those of the entries, in their order.
pub open spec fn is_listing<V>(names: Seq<Text>, entries: Seq<(Text, V)>) -> bool {
    &&& ascending(names)
    &&& forall|name: Text| #[trigger] names.contains(name) <==> has_key(entries, name)
}

/// The names of entries, in their order.
pub open spec fn listing<V>(entries: Seq<(Text, V)>) -> Seq<Text> {
    choose|names: Seq<Text>| is_listing(names, entries)
}

/// There is one order of the same names.
pub proof fn lemma_ascending_unique(a: Seq<Text>, b: Seq<Text>)
    requires
        ascending(a),
        ascending(b),
        forall|name: Text| #[trigger] a.contains(name) <==> b.contains(name),
    ensures
        a == b,
    decreases a.len(),
{
    if a.len() == 0 {
        if b.len() > 0 {
            assert(b.contains(b[0]));
            assert(a.contains(b[0]));
        }
        assert(a =~= b);
    } else {
        assert(a.contains(a[0]));
        let j = choose|j: int| 0 <= j < b.len() && b[j] == a[0];
        assert(b.contains(b[0]));
        assert(a.contains(b[0]));
        let i = choose|i: int| 0 <= i < a.len() && a[i] == b[0];
        if i > 0 && j > 0 {
            assert(precedes(a[0], a[i]));
            assert(precedes(b[0], b[j]));
            lemma_precedes_one_way(a[0], b[0]);
        }
        assert(a[0] == b[0]);
        let c = a.skip(1);
        let d = b.skip(1);
        assert forall|x: int, y: int| 0 <= x < y < c.len() implies precedes(
            #[trigger] c[x],
            #[trigger] c[y],
        ) by {
            assert(precedes(a[x + 1], a[y + 1]));
        }
        assert forall|x: int, y: int| 0 <= x < y < d.len() implies precedes(
            #[trigger] d[x],
            #[trigger] d[y],
        ) by {
            assert(precedes(b[x + 1], b[y + 1]));
        }
        assert forall|name: Text| #[trigger] c.contains(name) <==> d.contains(name) by {
            if c.contains(name) {
                let x = choose|x: int| 0 <= x < c.len() && c[x] == name;
                assert(a[x + 1] == name);
                assert(precedes(a[0], a[x + 1]));
                assert(a.contains(name));
                assert(b.contains(name));
                let y = choose|y: int| 0 <= y < b.len() && b[y] == name;
                lemma_precedes_one_way(name, name);
                assert(d[y - 1] == name);
            }
            if d.contains(name) {
                let x = choose|x: int| 0 <= x < d.len() && d[x] == name;
                assert(b[x + 1] == name);
                assert(precedes(b[0], b[x + 1]));
                assert(b.contains(name));
                assert(a.contains(name));
                let y = choose|y: int| 0 <= y < a.len() && a[y] == name;
                lemma_precedes_one_way(name, name);
                assert(c[y - 1] == name);
            }
        }
        lemma_ascending_unique(c, d);
        assert forall|x: int| 0 <= x < a.len() implies a[x] == b[x] by {
            if x > 0 {
                assert(c[x - 1] == d[x - 1]);
            }
        }
        assert(c.len() == a.len() - 1 && d.len() == b.len() - 1);
        assert(a =~= b);
    }
}

/// Names that are those of the entries, in their order, are the listing.
pub proof fn lemma_listing<V>(names: Seq<Text>, entries: Seq<(Text, V)>)
    requires
        is_listing(names, entries),
    ensures
        listing(entries) == names,
        is_listing(listing(entries), entries),
{
    let chosen = listing(entries);
    assert(is_listing(chosen, entries));
    assert forall|name: Text| #[trigger] chosen.contains(name) <==> names.contains(name) by {
        assert(chosen.contains(name) <==> has_key(entries, name));
        assert(names.contains(name) <==> has_key(entries, name));
    }
    lemma_ascending_unique(chosen, names);
}

/// Distinct names whose order is nowhere wrong, and which are the names of the entries, are their
/// listing.
proof fn lemma_sorted_listing<V>(names: Seq<Text>, sorted: Seq<Text>, entries: Seq<(Text, V)>)
    requires
        distinct(entries),
        names.len() == entries.len(),
        forall|i: int| 0 <= i < names.len() ==> #[trigger] names[i] == entries[i].0,
        sorted.to_multiset() == names.to_multiset(),
        forall|i: int, j: int|
            0 <= i < j < sorted.len() ==> !precedes(#[trigger] sorted[j], #[trigger] sorted[i]),
    ensures
        is_listing(sorted, entries),
{
    broadcast use group_to_multiset_ensures;

    assert(names.no_duplicates()) by {
        assert forall|i: int, j: int| 0 <= i < names.len() && 0 <= j < names.len() && i
            != j implies names[i] != names[j] by {
            if i < j {
                assert(entries[i].0 != entries[j].0);
            } else {
                assert(entries[j].0 != entries[i].0);
            }
        }
    }
    names.lemma_multiset_has_no_duplicates();
    assert forall|i: int, j: int| 0 <= i < j < sorted.len() implies precedes(
        #[trigger] sorted[i],
        #[trigger] sorted[j],
    ) by {
        lemma_precedes_total(sorted[i], sorted[j]);
        if sorted[i] == sorted[j] {
            lemma_twice(sorted, i, j);
        }
    }
    assert forall|name: Text| #[trigger] sorted.contains(name) <==> has_key(entries, name) by {
        assert(sorted.contains(name) <==> sorted.to_multiset().count(name) > 0);
        assert(names.contains(name) <==> names.to_multiset().count(name) > 0);
        if names.contains(name) {
            let i = choose|i: int| 0 <= i < names.len() && names[i] == name;
            assert(entries[i].0 == name);
        }
        if has_key(entries, name) {
            let i = choose|i: int| 0 <= i < entries.len() && #[trigger] entries[i].0 == name;
            assert(names[i] == name);
        }
    }
}

/// A text at two places of a list occurs at least twice in it.
proof fn lemma_twice(list: Seq<Text>, i: int, j: int)
    requires
        0 <= i < j < list.len(),
        list[i] == list[j],
    ensures
        list.to_multiset().count(list[i]) >= 2,
{
    broadcast use group_to_multiset_ensures;

    let rest = list.remove(j);
    assert(rest[i] == list[i]);
    assert(rest.contains(list[i]));
    assert(rest.to_multiset() == list.to_multiset().remove(list[j]));
    assert(rest.to_multiset().count(list[i]) > 0);
}

/// Those of the tables that are written: they have rows and are not left out.
pub open spec fn only_written(tables: Seq<(Text, Table)>) -> Seq<(Text, Table)>
    decreases tables.len(),
{
    if tables.len() == 0 {
        Seq::empty()
    } else {
        let earlier = only_written(tables.drop_last());
        if tables.last().1.rows == 0 || tables.last().1.ignore {
            earlier
        } else {
            earlier.push(tables.last())
        }
    }
}

impl FlatFiles {
    /// What is known of tables.
    pub open spec fn known_tables(self, names: Seq<Text>) -> Seq<(Text, Table)> {
        Seq::new(names.len(), |i: int| (names[i], self.known(names[i])))
    }

    /// The tables that are written, in the order of their names.
    pub open spec fn written(self) -> Seq<(Text, Table)> {
        only_written(self.known_tables(listing(self.table_metadata.view())))
    }

    /// The names of the tables that have records, in the order in which they came.
    pub open spec fn record_names(self) -> Seq<Text> {
        Seq::new(self.tmp_csvs.view().len(), |i: int| self.tmp_csvs.view()[i].0)
    }

    /// The tables whose records are written.
    pub open spec fn written_records(self) -> Seq<(Text, Table)> {
        only_written(self.known_tables(self.record_names()))
    }

    /// The tables that entries of a list of places stand for.
    pub open spec fn tables_at(self, places: Seq<usize>) -> Seq<(Text, Table)> {
        Seq::new(
            places.len(),
            |k: int|
                (
                    self.table_metadata.view()[places[k] as int].0,
                    self.table_metadata.view()[places[k] as int].1.table(),
                ),
        )
    }

    /// The places of those of the named tables that are written.
    fn places_of_written(&self, names: &Vec<String>) -> (places: Vec<usize>)
        requires
            forall|i: int|
                0 <= i < names@.len() ==> has_key(
                    self.table_metadata.view(),
                    (#[trigger] names@[i])@,
                ),
        ensures
            forall|k: int|
                0 <= k < places@.len() ==> (#[trigger] places@[k]) < self.table_metadata.view().len(),
            self.tables_at(places@) == only_written(self.known_tables(texts(names@))),
    {
        let ghost all = self.known_tables(texts(names@));
        let mut places: Vec<usize> = Vec::new();
        assert(all.take(0) =~= Seq::<(Text, Table)>::empty());
        assert(self.tables_at(places@) =~= only_written(all.take(0)));
        for i in 0..names.len()
            invariant
                all == self.known_tables(texts(names@)),
                forall|j: int|
                    0 <= j < names@.len() ==> has_key(
                        self.table_metadata.view(),
                        (#[trigger] names@[j])@,
                    ),
                forall|k: int|
                    0 <= k < places@.len() ==> (#[trigger] places@[k])
                        < self.table_metadata.view().len(),
                self.tables_at(places@) == only_written(all.take(i as int)),
        {
            let ghost before = places@;
            proof {
                lemma_place_of(self.table_metadata.view(), names@[i as int]@);
                assert(all.take(i + 1).drop_last() =~= all.take(i as int));
                assert(all[i as int].0 == names@[i as int]@);
            }
            if let Some(place) = self.table_metadata.find(&names[i]) {
                let metadata = self.table_metadata.value(place);
                if metadata.rows == 0 || metadata.ignore {
                } else {
                    places.push(place);
                    assert(self.tables_at(places@) =~= self.tables_at(before).push(all[i as int]));
                }
            }
        }
        assert(all.take(all.len() as int) =~= all);
        places
    }

    /// Gives the places of the tables that are written, in the order of their names.
    pub fn written_places(&self) -> (places: Vec<usize>)
        ensures
            forall|k: int|
                0 <= k < places@.len() ==> (#[trigger] places@[k]) < self.table_metadata.view().len(),
            self.tables_at(places@) == self.written(),
            is_listing(listing(self.table_metadata.view()), self.table_metadata.view()),
    {
        let ghost entries = self.table_metadata.view();
        let mut names: Vec<String> = Vec::new();
        let n = self.table_metadata.len();
        for i in 0..n
            invariant
                entries == self.table_metadata.view(),
                n == entries.len(),
                names@.len() == i,
                forall|j: int| 0 <= j < i ==> (#[trigger] names@[j])@ == entries[j].0,
        {
            names.push(self.table_metadata.name(i).clone());
        }
        let ghost unsorted = texts(names@);
        let sorted = sorted_texts(names);
        proof {
            lemma_sorted_listing(unsorted, texts(sorted@), entries);
            lemma_listing(texts(sorted@), entries);
            assert forall|i: int| 0 <= i < sorted@.len() implies has_key(
                entries,
                (#[trigger] sorted@[i])@,
            ) by {
                assert(texts(sorted@)[i] == sorted@[i]@);
                assert(texts(sorted@).contains(sorted@[i]@));
            }
        }
        self.places_of_written(&sorted)
    }

    /// Gives the places of the tables whose records are written.
    pub fn record_places(&self) -> (places: Vec<usize>)
        requires
            self.wf(),
        ensures
            forall|k: int|
                0 <= k < places@.len() ==> (#[trigger] places@[k]) < self.table_metadata.view().len(),
            self.tables_at(places@) == self.written_records(),
    {
        let mut names: Vec<String> = Vec::new();
        let n = self.tmp_csvs.len();
        for i in 0..n
            invariant
                n == self.tmp_csvs.view().len(),
                names@.len() == i,
                forall|j: int|
                    0 <= j < i ==> (#[trigger] names@[j])@ == self.tmp_csvs.view()[j].0,
        {
            names.push(self.tmp_csvs.name(i).clone());
        }
        proof {
            assert(texts(names@) =~= self.record_names());
            assert forall|i: int| 0 <= i < names@.len() implies has_key(
                self.table_metadata.view(),
                (#[trigger] names@[i])@,
            ) by {
                assert(self.tmp_csvs.view()[i].0 == names@[i]@);
                assert(has_key(self.tmp_csvs.view(), names@[i]@));
            }
        }
        self.places_of_written(&names)
    }
}

} // verus!

//! Columns: those that are given beforehand, those that are left out, and their order.

use crate::files::FlatFiles;
use crate::metadata::{Table, TableMetadata};
use crate::path::{key_paths, KeyPath};
use crate::spool::{join_path, tmp_file_name};
use crate::text::{join, starts_with, texts, Text};
use crate::value::{
    distinct, has_key, lemma_entry_found, lemma_place_of, lemma_put, put, value_at, NameMap,
};
use vstd::prelude::*;

verus! {

/// A column that is given beforehand.
#[derive(Debug)]
pub struct FieldsRecord {
    pub table_name: String,
    pub field_name: String,
    pub field_type: String,
    pub field_title: Option<String>,
}

impl FieldsRecord {
    /// The title of the column: the one given, else its name.
    pub open spec fn title(self) -> Text {
        match self.field_title {
            Some(title) => title@,
            None => self.field_name@,
        }
    }
}

/// A table with a column that no row holds yet.
pub open spec fn with_field(table: Table, record: FieldsRecord) -> Table {
    Table {
        fields: table.fields.push(record.field_name@),
        field_counts: table.field_counts.push(0),
        field_type: table.field_type.push(record.field_type@),
        ignore_fields: table.ignore_fields.push(false),
        field_titles: table.field_titles.push(record.title()),
        ..table
    }
}

/// A table with those of the given columns that are for it, in their order.
pub open spec fn with_fields(table: Table, records: Seq<FieldsRecord>, name: Text) -> Table
    decreases records.len(),
{
    if records.len() == 0 {
        table
    } else {
        let before = with_fields(table, records.drop_last(), name);
        if records.last().table_name@ == name {
            with_field(before, records.last())
        } else {
            before
        }
    }
}

/// Whether some given column is for a table.
pub open spec fn names_table(records: Seq<FieldsRecord>, name: Text) -> bool {
    exists|i: int| 0 <= i < records.len() && (#[trigger] records[i]).table_name@ == name
}

/// Whether a column belongs to an array that turned out to have more than one item, while its
/// table does not.
pub open spec fn outgrown(label: Text, field: Text, names: Seq<Text>) -> bool {
    exists|k: int|
        0 <= k < names.len() && (#[trigger] names[k]).is_prefix_of(label + field)
            && !names[k].is_prefix_of(label)
}

/// The table with the columns marked that are left out, and itself marked where it is left out.
pub open spec fn marked(table: Table, names: Seq<Text>, ignore: bool) -> Table {
    Table {
        ignore: table.ignore || ignore,
        ignore_fields: Seq::new(
            table.ignore_fields.len(),
            |i: int| table.ignore_fields[i] || outgrown(table.label, table.fields[i], names),
        ),
        ..table
    }
}

/// The names that paths have as tables, before the table prefix.
pub open spec fn path_names(paths: Seq<Seq<Text>>, separator: Text) -> Seq<Text> {
    Seq::new(paths.len(), |k: int| join(paths[k], separator))
}

/// Whether a table is that of one of some arrays.
pub open spec fn is_table_of(
    paths: Seq<Seq<Text>>,
    prefix: Text,
    separator: Text,
    name: Text,
) -> bool {
    exists|k: int| 0 <= k < paths.len() && prefix + join(#[trigger] paths[k], separator) == name
}

/// The rank of a column: links come first, then the columns that a schema orders, then the others.
pub open spec fn rank(order_map: Seq<(Text, usize)>, label: Text, field: Text) -> usize {
    if "_link"@.is_prefix_of(field) {
        0
    } else if has_key(order_map, label + field) {
        value_at(order_map, label + field)
    } else {
        usize::MAX
    }
}

/// The ranks of the columns of a table.
pub open spec fn ranks(order_map: Seq<(Text, usize)>, table: Table) -> Seq<usize> {
    Seq::new(table.fields.len(), |i: int| rank(order_map, table.label, table.fields[i]))
}

/// Whether a column goes before another one: it has the smaller rank, or the same and came first.
pub open spec fn goes_before(ranks: Seq<usize>, a: usize, b: usize) -> bool {
    ranks[a as int] < ranks[b as int] || ranks[a as int] == ranks[b as int] && a < b
}

/// Whether a sequence is the order of the columns.
pub open spec fn is_order(ranks: Seq<usize>, order: Seq<usize>) -> bool {
    &&& order.len() == ranks.len()
    &&& forall|i: int| 0 <= i < order.len() ==> #[trigger] order[i] < ranks.len()
    &&& forall|i: int, j: int|
        0 <= i < j < order.len() ==> goes_before(ranks, #[trigger] order[i], #[trigger] order[j])
}

/// Orders columns by their ranks.
pub fn column_order(ranks: &Vec<usize>) -> (order: Vec<usize>)
    ensures
        is_order(ranks@, order@),
{
    let mut order: Vec<usize> = Vec::new();
    for n in 0..ranks.len()
        invariant
            is_order(ranks@.take(n as int), order@),
    {
        let mut p: usize = order.len();
        while p > 0 && ranks[order[p - 1]] > ranks[n]
            invariant
                n < ranks@.len(),
                p <= order@.len(),
                is_order(ranks@.take(n as int), order@),
                forall|j: int|
                    p <= j < order@.len() ==> ranks@[(#[trigger] order@[j]) as int] > ranks@[n as int],
            decreases p,
        {
            p = p - 1;
        }
        let ghost before = order@;
        order.insert(p, n);
        proof {
            let less = ranks@.take(n as int);
            let more = ranks@.take(n + 1);
            assert forall|i: int| 0 <= i < before.len() implies #[trigger] before[i] < n && less[
            before[i] as int] == more[before[i] as int] by {}
            if p > 0 {
                assert(before[p - 1] < n);
            }
            assert forall|i: int, j: int| 0 <= i < j < order@.len() implies goes_before(
                more,
                #[trigger] order@[i],
                #[trigger] order@[j],
            ) by {
                let a = if i < p { i } else { i - 1 };
                let b = if j < p { j } else { j - 1 };
                if i != p && j != p {
                    assert(order@[i] == before[a] && order@[j] == before[b]);
                    assert(goes_before(less, before[a], before[b]));
                } else if j == p {
                    assert(order@[i] == before[i]);
                    if i < p - 1 {
                        assert(goes_before(less, before[i], before[p - 1]));
                    }
                } else {
                    assert(order@[j] == before[b]);
                }
            }
        }
    }
    assert(ranks@.take(ranks@.len() as int) =~= ranks@);
    order
}

impl FlatFiles {
    /// The tables that are known.
    pub open spec fn tables(self) -> Seq<(Text, Table)> {
        Seq::new(
            self.table_metadata.view().len(),
            |i: int|
                (self.table_metadata.view()[i].0, self.table_metadata.view()[i].1.table()),
        )
    }

    /// Takes a column that is given beforehand into its table.
    fn use_field(&mut self, record: &FieldsRecord)
        requires
            has_key(old(self).table_metadata.view(), record.table_name@) || old(self).labels(
                record.table_name@,
            ),
        ensures
            *final(self) == (FlatFiles {
                table_metadata: final(self).table_metadata,
                ..*old(self)
            }),
            final(self).table_metadata.view() == put(
                old(self).table_metadata.view(),
                record.table_name@,
                value_at(final(self).table_metadata.view(), record.table_name@),
            ),
            final(self).known(record.table_name@) == with_field(
                old(self).known(record.table_name@),
                *record,
            ),
            distinct(old(self).table_metadata.view()),
    {
        let ghost tables = self.table_metadata.view();
        let ghost given = *record;
        let ghost name = record.table_name@;
        let ghost known = self.known(name);
        let _ = self.table_metadata.len();
        proof {
            lemma_place_of(tables, name);
        }
        let place = self.table_metadata.find(&record.table_name);
        let mut metadata = match place {
            Some(i) => {
                let nothing = TableMetadata::new("", "", "", "", "".to_owned());
                self.table_metadata.replace(i, nothing)
            },
            None => TableMetadata::new(
                record.table_name.as_str(),
                self.main_table_name.as_str(),
                self.path_separator.as_str(),
                self.table_prefix.as_str(),
                join_path(
                    self.output_path.as_str(),
                    tmp_file_name(record.table_name.as_str()).as_str(),
                ),
            ),
        };
        let title = match &record.field_title {
            Some(title) => title.clone(),
            None => record.field_name.clone(),
        };
        metadata.fields.push(record.field_name.clone());
        metadata.field_counts.push(0);
        metadata.field_type.push(record.field_type.clone());
        metadata.ignore_fields.push(false);
        metadata.field_titles.push(title);
        proof {
            lemma_put(tables, name, metadata);
            let now = metadata.table();
            assert(now.fields =~= known.fields.push(given.field_name@));
            assert(now.field_counts =~= known.field_counts.push(0));
            assert(now.field_type =~= known.field_type.push(given.field_type@));
            assert(now.field_titles =~= known.field_titles.push(given.title()));
        }
        match place {
            Some(i) => {
                self.table_metadata.replace(i, metadata);
            },
            None => {
                self.table_metadata.insert(record.table_name.clone(), metadata);
            },
        }
        assert(self.table_metadata.view() =~= put(tables, name, metadata));
    }

    /// Takes the columns that are given beforehand into their tables, and notes whether rows may
    /// add others.
    pub fn use_fields_csv(&mut self, records: Vec<FieldsRecord>, only_fields: bool)
        requires
            forall|i: int|
                0 <= i < records@.len() ==> has_key(
                    old(self).table_metadata.view(),
                    (#[trigger] records@[i]).table_name@,
                ) || old(self).labels(records@[i].table_name@),
        ensures
            *final(self) == (FlatFiles {
                only_fields: old(self).only_fields || only_fields,
                table_metadata: final(self).table_metadata,
                ..*old(self)
            }),
            forall|name: Text| #[trigger]
                has_key(final(self).table_metadata.view(), name) <==> has_key(
                    old(self).table_metadata.view(),
                    name,
                ) || names_table(records@, name),
            forall|name: Text| #[trigger]
                final(self).known(name) == with_fields(old(self).known(name), records@, name),
            old(self).wf() ==> final(self).wf(),
    {
        let ghost start = *self;
        let ghost all = records@;
        if only_fields {
            self.only_fields = true;
        }
        let n = records.len();
        let _ = self.table_metadata.len();
        assert(distinct(start.table_metadata.view()));
        assert(all.take(0) =~= Seq::<FieldsRecord>::empty());
        for done in 0..n
            invariant
                n == all.len(),
                all == records@,
                forall|i: int|
                    0 <= i < all.len() ==> has_key(
                        start.table_metadata.view(),
                        (#[trigger] all[i]).table_name@,
                    ) || start.labels(all[i].table_name@),
                *self == (FlatFiles {
                    only_fields: start.only_fields || only_fields,
                    table_metadata: self.table_metadata,
                    ..start
                }),
                distinct(self.table_metadata.view()),
                forall|name: Text| #[trigger]
                    has_key(self.table_metadata.view(), name) <==> has_key(
                        start.table_metadata.view(),
                        name,
                    ) || names_table(all.take(done as int), name),
                forall|name: Text| #[trigger]
                    self.known(name) == with_fields(start.known(name), all.take(done as int), name),
                start.wf() ==> self.wf(),
        {
            let ghost before = *self;
            let ghost record = all[done as int];
            let ghost here = record.table_name@;
            self.use_field(&records[done]);
            proof {
                let after = *self;
                let new = value_at(after.table_metadata.view(), here);
                lemma_put(before.table_metadata.view(), here, new);
                assert(all.take(done + 1).drop_last() =~= all.take(done as int));
                assert(all.take(done + 1).last() == record);
                assert forall|name: Text| #[trigger]
                    has_key(after.table_metadata.view(), name) <==> has_key(
                        start.table_metadata.view(),
                        name,
                    ) || names_table(all.take(done + 1), name) by {
                    lemma_one_record(all, done as int, name);
                    if name != here {
                        assert(has_key(before.table_metadata.view(), name) == has_key(
                            after.table_metadata.view(),
                            name,
                        ));
                    }
                }
                assert forall|name: Text| #[trigger]
                    after.known(name) == with_fields(
                        start.known(name),
                        all.take(done + 1),
                        name,
                    ) by {
                    assert(before.known(name) == with_fields(
                        start.known(name),
                        all.take(done as int),
                        name,
                    ));
                    if name != here {
                        assert(has_key(before.table_metadata.view(), name) == has_key(
                            after.table_metadata.view(),
                            name,
                        ));
                        assert(after.known(name) == before.known(name));
                    }
                }
                if before.wf() {
                    lemma_field_keeps_wf(before, after, here, record);
                }
            }
        }
        assert(all.take(all.len() as int) =~= all);
    }
}

/// Among the first columns and the next one are those for a table.
proof fn lemma_one_record(records: Seq<FieldsRecord>, n: int, name: Text)
    requires
        0 <= n < records.len(),
    ensures
        names_table(records.take(n + 1), name) <==> names_table(records.take(n), name)
            || records[n].table_name@ == name,
{
    let more = records.take(n + 1);
    let less = records.take(n);
    if names_table(more, name) {
        let i = choose|i: int| 0 <= i < more.len() && (#[trigger] more[i]).table_name@ == name;
        if i < n {
            assert(less[i].table_name@ == name);
        }
    }
    if names_table(less, name) {
        let i = choose|i: int| 0 <= i < less.len() && (#[trigger] less[i]).table_name@ == name;
        assert(more[i].table_name@ == name);
    }
    assert(more[n] == records[n]);
}

/// A column that is given beforehand leaves what always holds as it is.
proof fn lemma_field_keeps_wf(before: FlatFiles, after: FlatFiles, name: Text, record: FieldsRecord)
    requires
        before.wf(),
        after == (FlatFiles { table_metadata: after.table_metadata, ..before }),
        distinct(before.table_metadata.view()),
        after.table_metadata.view() == put(
            before.table_metadata.view(),
            name,
            value_at(after.table_metadata.view(), name),
        ),
        after.known(name) == with_field(before.known(name), record),
        has_key(before.table_metadata.view(), name) || before.labels(name),
    ensures
        after.wf(),
{
    let tables = before.table_metadata.view();
    let new = value_at(after.table_metadata.view(), name);
    lemma_put(tables, name, new);
    lemma_place_of(tables, name);
    let known = before.known(name);
    assert(known.wf());
    assert(with_field(known, record).wf());
    assert forall|j: int| 0 <= j < after.table_metadata.view().len() implies after.labels(
        (#[trigger] after.table_metadata.view()[j]).0,
    ) by {
        let there = after.table_metadata.view()[j].0;
        if j < tables.len() {
            assert(tables[j].0 == there);
            assert(before.labels(tables[j].0));
        }
    }
    assert forall|j: int| 0 <= j < after.table_metadata.view().len() implies (
    #[trigger] after.table_metadata.view()[j]).1.table().wf() by {
        let entry = after.table_metadata.view()[j];
        if entry.0 != name {
            assert(tables[j] == entry);
        } else {
            lemma_entry_found(after.table_metadata.view(), j);
        }
    }
    assert forall|table: Text| #[trigger] has_key(after.tmp_csvs.view(), table) implies has_key(
        after.table_metadata.view(),
        table,
    ) by {
        assert(has_key(before.table_metadata.view(), table));
    }
    assert forall|i: int| 0 <= i < after.table_rows.view().len() implies after.labels(
        (#[trigger] after.table_rows.view()[i]).0,
    ) by {
        assert(before.labels(before.table_rows.view()[i].0));
    }
}

/// Whether a table differs from another one at most in its order, which has grown by the order of
/// all its columns.
pub open spec fn ordered(order_map: Seq<(Text, usize)>, before: Table, after: Table) -> bool {
    &&& after == Table { order: after.order, ..before }
    &&& after.order.len() == before.order.len() + before.fields.len()
    &&& after.order.take(before.order.len() as int) == before.order
    &&& is_order(ranks(order_map, before), after.order.skip(before.order.len() as int))
}

/// The names that paths have as tables, after a prefix.
fn table_names(paths: &Vec<KeyPath>, prefix: &str, separator: &str) -> (names: Vec<String>)
    ensures
        names@.len() == paths@.len(),
        forall|k: int|
            0 <= k < paths@.len() ==> (#[trigger] names@[k])@ == prefix@ + join(
                key_paths(paths@)[k],
                separator@,
            ),
{
    let mut names: Vec<String> = Vec::new();
    for k in 0..paths.len()
        invariant
            names@.len() == k,
            forall|j: int|
                0 <= j < k ==> (#[trigger] names@[j])@ == prefix@ + join(
                    key_paths(paths@)[j],
                    separator@,
                ),
    {
        names.push(prefix.to_owned().concat(paths[k].join(separator).as_str()));
    }
    names
}

/// Whether a column belongs to an array that turned out to have more than one item, while its
/// table does not.
fn is_outgrown(label: &String, field: &String, names: &Vec<String>) -> (found: bool)
    ensures
        found == outgrown(label@, field@, texts(names@)),
{
    let full_path = label.clone().concat(field.as_str());
    for k in 0..names.len()
        invariant
            full_path@ == label@ + field@,
            forall|j: int|
                0 <= j < k ==> !((#[trigger] texts(names@)[j]).is_prefix_of(label@ + field@)
                    && !texts(names@)[j].is_prefix_of(label@)),
    {
        if starts_with(full_path.as_str(), names[k].as_str()) && !starts_with(
            label.as_str(),
            names[k].as_str(),
        ) {
            assert(texts(names@)[k as int] == names@[k as int]@);
            return true;
        }
    }
    false
}

impl TableMetadata {
    /// Marks the columns that are left out.
    fn mark_fields(&mut self, names: &Vec<String>)
        requires
            old(self).table().wf(),
        ensures
            final(self).table() == marked(old(self).table(), texts(names@), false),
    {
        let ghost before = self.table();
        let n = self.fields.len();
        for i in 0..n
            invariant
                before.wf(),
                n == before.fields.len(),
                self.table() == (Table { ignore_fields: self.ignore_fields@, ..before }),
                self.ignore_fields@.len() == n,
                self.fields@.len() == n,
                forall|j: int|
                    0 <= j < i ==> #[trigger] self.ignore_fields@[j] == (before.ignore_fields[j]
                        || outgrown(before.label, before.fields[j], texts(names@))),
                forall|j: int|
                    i <= j < n ==> #[trigger] self.ignore_fields@[j] == before.ignore_fields[j],
        {
            assert(before.fields[i as int] == self.fields@[i as int]@);
            if is_outgrown(&self.table_name_with_separator, &self.fields[i], names) {
                self.ignore_fields.set(i, true);
            }
            assert(self.table() =~= (Table { ignore_fields: self.ignore_fields@, ..before }));
        }
        assert(self.table() =~= marked(before, texts(names@), false));
    }

    /// Puts the order of the columns behind the order that is there.
    fn order_fields(&mut self, order_map: &NameMap<usize>)
        requires
            old(self).table().wf(),
        ensures
            ordered(order_map.view(), old(self).table(), final(self).table()),
            final(self).table().wf(),
    {
        let ghost before = self.table();
        let ghost all = ranks(order_map.view(), before);
        let mut list: Vec<usize> = Vec::new();
        for i in 0..self.fields.len()
            invariant
                before == self.table(),
                all == ranks(order_map.view(), before),
                list@ == all.take(i as int),
        {
            let full_path = self.table_name_with_separator.clone().concat(self.fields[i].as_str());
            let order: usize = if starts_with(self.fields[i].as_str(), "_link") {
                0
            } else {
                match order_map.get(&full_path) {
                    Some(order) => *order,
                    None => usize::MAX,
                }
            };
            assert(before.fields[i as int] == self.fields@[i as int]@);
            list.push(order);
            assert(list@ =~= all.take(i + 1));
        }
        assert(list@ =~= all);
        let order = column_order(&list);
        for i in 0..order.len()
            invariant
                before.wf(),
                is_order(all, order@),
                all.len() == before.fields.len(),
                self.table() == (Table { order: before.order + order@.take(i as int), ..before }),
        {
            self.order.push(order[i]);
            assert(self.table() =~= (Table {
                order: before.order + order@.take(i + 1),
                ..before
            }));
        }
        proof {
            let after = self.table();
            assert(order@.take(order@.len() as int) =~= order@);
            assert(after.order.take(before.order.len() as int) =~= before.order);
            assert(after.order.skip(before.order.len() as int) =~= order@);
            assert forall|i: int| 0 <= i < after.order.len() implies #[trigger] after.order[i]
                < after.fields.len() by {
                if i < before.order.len() {
                    assert(after.order[i] == before.order[i]);
                } else {
                    assert(after.order[i] == order@[i - before.order.len()]);
                }
            }
        }
    }
}

/// Tables that stay well formed under their names leave what always holds as it is.
proof fn lemma_tables_keep_wf(before: FlatFiles, after: FlatFiles)
    requires
        before.wf(),
        after == (FlatFiles { table_metadata: after.table_metadata, ..before }),
        after.tables().len() == before.tables().len(),
        forall|i: int|
            0 <= i < before.tables().len() ==> (#[trigger] after.tables()[i]).0
                == before.tables()[i].0 && after.tables()[i].1.wf(),
    ensures
        after.wf(),
{
    let tables = before.table_metadata.view();
    let new = after.table_metadata.view();
    assert forall|i: int| 0 <= i < new.len() implies (#[trigger] new[i]).1.table().wf() by {
        assert(after.tables()[i].1.wf());
    }
    assert forall|i: int| 0 <= i < new.len() implies after.labels((#[trigger] new[i]).0) by {
        assert(after.tables()[i].0 == before.tables()[i].0);
        assert(before.labels(tables[i].0));
    }
    assert forall|table: Text| #[trigger] has_key(after.tmp_csvs.view(), table) implies has_key(
        new,
        table,
    ) by {
        assert(has_key(tables, table));
        let i = choose|i: int| 0 <= i < tables.len() && #[trigger] tables[i].0 == table;
        assert(after.tables()[i].0 == before.tables()[i].0);
        assert(new[i].0 == table);
    }
    assert forall|i: int| 0 <= i < after.table_rows.view().len() implies after.labels(
        (#[trigger] after.table_rows.view()[i]).0,
    ) by {
        assert(before.labels(before.table_rows.view()[i].0));
    }
}

impl FlatFiles {
    /// The tables with the columns and the tables marked that are left out: the columns of arrays
    /// that turned out to have more than one item, outside the tables of these arrays, and the
    /// tables of the arrays that never had.
    pub open spec fn marked_tables(self) -> Seq<(Text, Table)> {
        let store = self.store();
        Seq::new(
            self.tables().len(),
            |i: int|
                (
                    self.tables()[i].0,
                    marked(
                        self.tables()[i].1,
                        path_names(store.one_to_many, self.path_separator@),
                        is_table_of(
                            store.one_to_one,
                            self.table_prefix@,
                            self.path_separator@,
                            self.tables()[i].0,
                        ),
                    ),
                ),
        )
    }

    /// Marks the columns and the tables that are left out of the output.
    pub fn mark_ignore(&mut self)
        requires
            old(self).wf(),
        ensures
            *final(self) == (FlatFiles {
                table_metadata: final(self).table_metadata,
                ..*old(self)
            }),
            final(self).tables() == old(self).marked_tables(),
            final(self).wf(),
    {
        let ghost start = *self;
        let ghost goal = self.marked_tables();
        let ghost store = self.store();
        let many = table_names(&self.one_to_many_arrays, "", self.path_separator.as_str());
        let one = table_names(
            &self.one_to_one_arrays,
            self.table_prefix.as_str(),
            self.path_separator.as_str(),
        );
        proof {
            reveal_strlit("");
            assert(texts(many@) =~= path_names(store.one_to_many, self.path_separator@)) by {
                assert forall|k: int| 0 <= k < many@.len() implies texts(many@)[k] == path_names(
                    store.one_to_many,
                    self.path_separator@,
                )[k] by {
                    assert(many@[k]@ == ""@ + join(
                        store.one_to_many[k],
                        self.path_separator@,
                    ));
                    assert(texts(many@)[k] =~= join(store.one_to_many[k], self.path_separator@));
                }
            }
        }
        let n = self.table_metadata.len();
        for i in 0..n
            invariant
                start.wf(),
                n == start.tables().len(),
                goal == start.marked_tables(),
                store == start.store(),
                texts(many@) == path_names(store.one_to_many, start.path_separator@),
                one@.len() == store.one_to_one.len(),
                forall|k: int|
                    0 <= k < one@.len() ==> (#[trigger] one@[k])@ == start.table_prefix@ + join(
                        store.one_to_one[k],
                        start.path_separator@,
                    ),
                *self == (FlatFiles { table_metadata: self.table_metadata, ..start }),
                self.tables().len() == n,
                forall|j: int| 0 <= j < i ==> #[trigger] self.tables()[j] == goal[j],
                forall|j: int|
                    i <= j < n ==> #[trigger] self.table_metadata.view()[j]
                        == start.table_metadata.view()[j],
        {
            let ghost now = *self;
            let ghost here = i as int;
            let nothing = TableMetadata::new("", "", "", "", "".to_owned());
            let mut metadata = self.table_metadata.replace(i, nothing);
            assert(now.table_metadata.view()[here] == start.table_metadata.view()[here]);
            metadata.mark_fields(&many);
            let mut found = false;
            for k in 0..one.len()
                invariant
                    found <==> exists|j: int|
                        0 <= j < k && (#[trigger] one@[j])@ == self.table_metadata.view()[here].0,
                    i < self.table_metadata.view().len(),
                    here == i,
            {
                if one[k] == *self.table_metadata.name(i) {
                    found = true;
                    assert(one@[k as int]@ == self.table_metadata.view()[here].0);
                }
            }
            if found {
                metadata.ignore = true;
            }
            proof {
                let name = start.tables()[here].0;
                let paths = store.one_to_one;
                let ours = is_table_of(paths, start.table_prefix@, start.path_separator@, name);
                if found {
                    let j = choose|j: int| 0 <= j < one@.len() && (#[trigger] one@[j])@ == name;
                    assert(start.table_prefix@ + join(paths[j], start.path_separator@) == name);
                }
                if ours {
                    let k = choose|k: int|
                        0 <= k < paths.len() && start.table_prefix@ + join(
                            #[trigger] paths[k],
                            start.path_separator@,
                        ) == name;
                    assert(one@[k]@ == name);
                }
                assert(found == ours);
                assert(metadata.table() =~= marked(
                    start.tables()[here].1,
                    texts(many@),
                    ours,
                ));
            }
            self.table_metadata.replace(i, metadata);
            proof {
                assert forall|j: int| 0 <= j < i + 1 implies #[trigger] self.tables()[j]
                    == goal[j] by {
                    if j < i {
                        assert(now.tables()[j] == goal[j]);
                    }
                }
                assert forall|j: int| i + 1 <= j < n implies #[trigger] self.table_metadata.view()[j]
                    == start.table_metadata.view()[j] by {
                    assert(now.table_metadata.view()[j] == start.table_metadata.view()[j]);
                }
            }
        }
        proof {
            assert(self.tables() =~= goal);
            assert forall|i: int| 0 <= i < n implies (#[trigger] self.tables()[i]).0
                == start.tables()[i].0 && self.tables()[i].1.wf() by {
                assert(start.table_metadata.view()[i].1.table().wf());
                let before = start.tables()[i].1;
                let after = self.tables()[i].1;
                assert forall|c: int|
                    0 <= c < after.fields.len() implies #[trigger] after.field_counts[c]
                    <= after.rows by {
                    assert(before.field_counts[c] <= before.rows);
                }
            }
            lemma_tables_keep_wf(start, *self);
        }
    }

    /// Puts the order of the columns of each table behind the order that is there.
    pub fn determine_order(&mut self)
        requires
            old(self).wf(),
        ensures
            *final(self) == (FlatFiles {
                table_metadata: final(self).table_metadata,
                ..*old(self)
            }),
            final(self).tables().len() == old(self).tables().len(),
            forall|i: int|
                0 <= i < old(self).tables().len() ==> {
                    &&& (#[trigger] final(self).tables()[i]).0 == old(self).tables()[i].0
                    &&& ordered(
                        old(self).order_map.view(),
                        old(self).tables()[i].1,
                        final(self).tables()[i].1,
                    )
                },
            final(self).wf(),
    {
        let ghost start = *self;
        let n = self.table_metadata.len();
        for i in 0..n
            invariant
                start.wf(),
                n == start.tables().len(),
                *self == (FlatFiles { table_metadata: self.table_metadata, ..start }),
                self.tables().len() == n,
                forall|j: int|
                    0 <= j < i ==> {
                        &&& (#[trigger] self.tables()[j]).0 == start.tables()[j].0
                        &&& self.tables()[j].1.wf()
                        &&& ordered(
                            start.order_map.view(),
                            start.tables()[j].1,
                            self.tables()[j].1,
                        )
                    },
                forall|j: int|
                    i <= j < n ==> #[trigger] self.table_metadata.view()[j]
                        == start.table_metadata.view()[j],
        {
            let ghost now = *self;
            let nothing = TableMetadata::new("", "", "", "", "".to_owned());
            let mut metadata = self.table_metadata.replace(i, nothing);
            assert(now.table_metadata.view()[i as int] == start.table_metadata.view()[i as int]);
            metadata.order_fields(&self.order_map);
            self.table_metadata.replace(i, metadata);
            proof {
                assert forall|j: int| 0 <= j < i + 1 implies {
                    &&& (#[trigger] self.tables()[j]).0 == start.tables()[j].0
                    &&& self.tables()[j].1.wf()
                    &&& ordered(start.order_map.view(), start.tables()[j].1, self.tables()[j].1)
                } by {
                    if j < i {
                        assert(now.tables()[j].0 == start.tables()[j].0);
                        assert(self.tables()[j] == now.tables()[j]);
                    }
                }
                assert forall|j: int| i + 1 <= j < n implies #[trigger] self.table_metadata.view()[j]
                    == start.table_metadata.view()[j] by {
                    assert(now.table_metadata.view()[j] == start.table_metadata.view()[j]);
                }
            }
        }
        proof {
            lemma_tables_keep_wf(start, *self);
        }
    }
}

} // verus!

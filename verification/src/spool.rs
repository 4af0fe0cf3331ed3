//! How the gathered rows become records of their tables.

use crate::convert::pattern_of;
use crate::extend::extends;
use crate::files::{row_list, FlatFiles, TmpCSVWriter};
use crate::flatten::rows_in;
use crate::metadata::{blank, can_label, label, Table, TableMetadata};
use crate::rows::{after_rows, records, Intake};
use crate::table_laws::law_columns_stay;
use crate::text::{cuts_at, ends_with, lemma_after_prefix, same_text, texts, Text};
use crate::value::{
    distinct, has_key, lemma_entry_found, lemma_place_of, lemma_put, put, value_at, Fields, NameMap,
    Object,
};
use regex::Regex;
use vstd::prelude::*;

verus! {

/// The cells of each record of a list.
pub open spec fn cell_lists(list: Seq<Vec<String>>) -> Seq<Seq<Text>> {
    Seq::new(list.len(), |i: int| texts(list[i]@))
}

/// The records that wait to be written, where the records of a table are written at all.
pub open spec fn waiting(writer: TmpCSVWriter) -> Option<Seq<Seq<Text>>> {
    match writer {
        TmpCSVWriter::Disk(list) => Some(cell_lists(list@)),
        TmpCSVWriter::Nowhere => None,
    }
}

/// The file below the output directory that takes the records of a table as they come.
pub open spec fn tmp_file(table: Text) -> Text {
    "tmp/"@ + table + ".csv"@
}

/// Names the file below the output directory that takes the records of a table as they come.
pub fn tmp_file_name(table: &str) -> (name: String)
    ensures
        name@ == tmp_file(table@),
{
    "tmp/".to_owned().concat(table).concat(".csv")
}

/// A path below a directory: behind the directory and a slash, unless the directory is empty or
/// ends with a slash already.
pub open spec fn path_below(directory: Text, below: Text) -> Text {
    if directory.len() == 0 || directory.last() == '/' {
        directory + below
    } else {
        directory + "/"@ + below
    }
}

/// Makes a path below a directory.
pub fn join_path(directory: &str, below: &str) -> (path: String)
    ensures
        path@ == path_below(directory@, below@),
{
    if directory.is_empty() || ends_with(directory, '/') {
        directory.to_owned().concat(below)
    } else {
        directory.to_owned().concat("/").concat(below)
    }
}

/// Every table has lost its rows.
pub open spec fn emptied(rows: Seq<(Text, Seq<Fields>)>) -> Seq<(Text, Seq<Fields>)> {
    Seq::new(rows.len(), |i: int| (rows[i].0, Seq::<Fields>::empty()))
}

impl FlatFiles {
    /// What the taking of rows goes by.
    pub open spec fn intake(self) -> Intake {
        Intake {
            only_fields: self.only_fields,
            titles: self.field_titles_map.view(),
            pattern: pattern_of(self.date_regexp),
        }
    }

    /// The label of a table.
    pub open spec fn label_of(self, table: Text) -> Text {
        label(table, self.main_table_name@, self.path_separator@, self.table_prefix@)
    }

    /// Whether a table can have a label.
    pub open spec fn labels(self, table: Text) -> bool {
        can_label(table, self.main_table_name@, self.path_separator@, self.table_prefix@)
    }

    /// What is known of a table; of a new one, nothing but its label and its file.
    pub open spec fn known(self, table: Text) -> Table {
        if has_key(self.table_metadata.view(), table) {
            value_at(self.table_metadata.view(), table).table()
        } else {
            blank(self.label_of(table), path_below(self.output_path@, tmp_file(table)))
        }
    }

    /// The records of a table that wait to be written, if the records of the table are written.
    /// Those of a new table are, where the records are needed for an output.
    pub open spec fn unwritten(self, table: Text) -> Option<Seq<Seq<Text>>> {
        if has_key(self.tmp_csvs.view(), table) {
            waiting(value_at(self.tmp_csvs.view(), table))
        } else if self.csv || self.xlsx {
            Some(Seq::empty())
        } else {
            None
        }
    }

    /// What always holds: the tables that are known are well formed, they and every table with rows
    /// can have a label, and no table has records of which nothing else is known.
    pub open spec fn wf(self) -> bool {
        &&& forall|i: int|
            0 <= i < self.table_metadata.view().len() ==> (
            #[trigger] self.table_metadata.view()[i]).1.table().wf()
        &&& forall|i: int|
            0 <= i < self.table_metadata.view().len() ==> self.labels(
                (#[trigger] self.table_metadata.view()[i]).0,
            )
        &&& forall|i: int|
            0 <= i < self.table_rows.view().len() ==> self.labels(
                (#[trigger] self.table_rows.view()[i]).0,
            )
        &&& forall|table: Text| #[trigger]
            has_key(self.tmp_csvs.view(), table) ==> has_key(self.table_metadata.view(), table)
    }

    /// Whether the numbers of rows stay within their bounds when the gathered rows are taken.
    pub open spec fn rows_fit(self) -> bool {
        forall|i: int|
            0 <= i < self.table_rows.view().len() ==> self.known(
                (#[trigger] self.table_rows.view()[i]).0,
            ).rows + self.table_rows.view()[i].1@.len() <= u32::MAX
    }
}

impl FlatFiles {
    /// Tells whether a table can have a label.
    pub fn can_label_table(&self, table: &String) -> (can: bool)
        ensures
            can == self.labels(table@),
    {
        let whole = table.clone().concat(self.path_separator.as_str());
        same_text(table.as_str(), self.main_table_name.as_str()) || self.table_prefix.as_str().is_empty()
            || cuts_at(whole.as_str(), self.table_prefix.as_str().as_bytes().len())
    }

    /// Tells whether the numbers of rows stay within their bounds when the gathered rows are taken.
    pub fn rows_will_fit(&self) -> (fit: bool)
        ensures
            fit == self.rows_fit(),
    {
        let n = self.table_rows.len();
        for i in 0..n
            invariant
                n == self.table_rows.view().len(),
                forall|j: int|
                    0 <= j < i ==> self.known((#[trigger] self.table_rows.view()[j]).0).rows
                        + self.table_rows.view()[j].1@.len() <= u32::MAX,
        {
            let known: u32 = match self.table_metadata.get(self.table_rows.name(i)) {
                Some(metadata) => metadata.rows,
                None => 0,
            };
            let new: usize = self.table_rows.value(i).len();
            if new > (u32::MAX - known) as usize {
                assert(self.known(self.table_rows.view()[i as int].0).rows == known);
                return false;
            }
        }
        true
    }
}

/// A table that the rules name can have a label.
proof fn lemma_named_label(main: Text, separator: Text, prefix: Text, name: Text)
    requires
        name == main || prefix.is_prefix_of(name),
    ensures
        can_label(name, main, separator, prefix),
{
    if name != main {
        let rest = name.skip(prefix.len() as int);
        lemma_after_prefix(prefix, rest + separator);
        assert(name + separator =~= prefix + (rest + separator));
    }
}

/// Rows that a document adds leave what always holds as it is.
pub proof fn lemma_rows_keep_wf(before: FlatFiles, after: FlatFiles)
    requires
        before.wf(),
        after == (FlatFiles {
            row_number: after.row_number,
            ..before.with_store_of(after)
        }),
        extends(before.rules(), before.store().rows, after.store().rows, false),
    ensures
        after.wf(),
{
    let old_rows = before.store().rows;
    let new_rows = after.store().rows;
    assert forall|i: int| 0 <= i < after.table_rows.view().len() implies after.labels(
        (#[trigger] after.table_rows.view()[i]).0,
    ) by {
        let name = after.table_rows.view()[i].0;
        assert(new_rows[i].0 == name);
        assert(has_key(new_rows, name));
        if has_key(old_rows, name) {
            let j = choose|j: int| 0 <= j < old_rows.len() && #[trigger] old_rows[j].0 == name;
            assert(before.table_rows.view()[j].0 == name);
        } else {
            lemma_named_label(
                before.main_table_name@,
                before.path_separator@,
                before.table_prefix@,
                name,
            );
        }
    }
}

/// The first rows without the last of them, and the last of them.
proof fn lemma_next_row(rows: Seq<Fields>, i: int)
    requires
        0 <= i < rows.len(),
    ensures
        rows.take(i + 1).drop_last() == rows.take(i),
        rows.take(i + 1).last() == rows[i],
{
    assert(rows.take(i + 1).drop_last() =~= rows.take(i));
}

/// Takes rows into a table, and gives their records to its writer.
fn take_rows(
    metadata: &mut TableMetadata,
    writer: &mut TmpCSVWriter,
    rows: Vec<Object>,
    only_fields: bool,
    titles: &NameMap<String>,
    date_re: &Regex,
)
    requires
        old(metadata).table().wf(),
        old(metadata).rows + rows@.len() <= u32::MAX,
    ensures
        ({
            let intake = Intake {
                only_fields,
                titles: titles.view(),
                pattern: pattern_of(*date_re),
            };
            let start = old(metadata).table();
            &&& final(metadata).table() == after_rows(intake, start, row_list(rows@))
            &&& waiting(*final(writer)) == match waiting(*old(writer)) {
                Some(list) => Some(list + records(intake, start, row_list(rows@))),
                None => None,
            }
        }),
        final(metadata).table().wf(),
{
    let ghost start = metadata.table();
    let ghost first = waiting(*writer);
    let ghost all = row_list(rows@);
    let ghost intake = Intake { only_fields, titles: titles.view(), pattern: pattern_of(*date_re) };
    let mut rows = rows;
    let n = rows.len();
    proof {
        assert(all.take(0) =~= Seq::<Fields>::empty());
        if let Some(list) = first {
            assert(list + records(intake, start, all.take(0)) =~= list);
        }
    }
    for i in 0..n
        invariant
            n == rows@.len(),
            n == all.len(),
            intake == (Intake { only_fields, titles: titles.view(), pattern: pattern_of(*date_re) }),
            forall|j: int| i <= j < n ==> #[trigger] row_list(rows@)[j] == all[j],
            metadata.table().wf(),
            metadata.rows + (n - i) <= u32::MAX,
            metadata.table() == after_rows(intake, start, all.take(i as int)),
            waiting(*writer) == match first {
                Some(list) => Some(list + records(intake, start, all.take(i as int))),
                None => None,
            },
    {
        let ghost now_rows = rows@;
        let ghost now = records(intake, start, all.take(i as int));
        let ghost before = *writer;
        let mut row: Object = NameMap::new();
        std::mem::swap(&mut rows[i], &mut row);
        proof {
            assert(row_list(now_rows)[i as int] == all[i as int]);
            lemma_next_row(all, i as int);
            assert forall|j: int| i < j < n implies #[trigger] row_list(rows@)[j] == all[j] by {
                assert(row_list(now_rows)[j] == all[j]);
            }
        }
        let cells = metadata.take_row(row, only_fields, titles, date_re);
        assert(texts(cells@).len() == cells@.len());
        if cells.len() > 0 {
            if let TmpCSVWriter::Disk(list) = writer {
                list.push(cells);
            }
        }
        proof {
            let later = records(intake, start, all.take(i + 1));
            if let TmpCSVWriter::Disk(list) = before {
                if texts(cells@).len() > 0 {
                    assert(waiting(*writer)->Some_0 =~= cell_lists(list@).push(texts(cells@)));
                    assert(waiting(*writer)->Some_0 =~= first->Some_0 + later);
                }
            }
        }
    }
    assert(all.take(n as int) =~= all);
}

/// Among the first `i + 1` tables are the first `i` and the next one.
proof fn lemma_next_table<V>(tables: Seq<(Text, V)>, i: int)
    requires
        distinct(tables),
        0 <= i < tables.len(),
    ensures
        !has_key(tables.take(i), tables[i].0),
        has_key(tables.take(i + 1), tables[i].0),
        value_at(tables.take(i + 1), tables[i].0) == tables[i].1,
        forall|name: Text|
            name != tables[i].0 ==> #[trigger] has_key(tables.take(i + 1), name) == has_key(
                tables.take(i),
                name,
            ),
        forall|name: Text|
            name != tables[i].0 && has_key(tables.take(i), name) ==> #[trigger] value_at(
                tables.take(i + 1),
                name,
            ) == value_at(tables.take(i), name),
{
    let a = tables.take(i);
    assert(tables.take(i + 1) =~= a.push(tables[i]));
    if has_key(a, tables[i].0) {
        let j = choose|j: int| 0 <= j < a.len() && #[trigger] a[j].0 == tables[i].0;
        assert(tables[j].0 != tables[i].0);
    }
    lemma_put(a, tables[i].0, tables[i].1);
    assert(put(a, tables[i].0, tables[i].1) =~= tables.take(i + 1));
}

impl FlatFiles {
    /// Takes rows into a table, which is made where it is not known yet.
    fn create_table_rows(&mut self, table: &String, rows: Vec<Object>)
        requires
            old(self).labels(table@),
            old(self).known(table@).wf(),
            old(self).known(table@).rows + rows@.len() <= u32::MAX,
        ensures
            *final(self) == (FlatFiles {
                tmp_csvs: final(self).tmp_csvs,
                table_metadata: final(self).table_metadata,
                ..*old(self)
            }),
            final(self).table_metadata.view() == put(
                old(self).table_metadata.view(),
                table@,
                value_at(final(self).table_metadata.view(), table@),
            ),
            final(self).tmp_csvs.view() == put(
                old(self).tmp_csvs.view(),
                table@,
                value_at(final(self).tmp_csvs.view(), table@),
            ),
            final(self).known(table@) == after_rows(
                old(self).intake(),
                old(self).known(table@),
                row_list(rows@),
            ),
            final(self).known(table@).wf(),
            final(self).unwritten(table@) == match old(self).unwritten(table@) {
                Some(list) => Some(
                    list + records(old(self).intake(), old(self).known(table@), row_list(rows@)),
                ),
                None => None,
            },
            distinct(old(self).table_metadata.view()),
            distinct(old(self).tmp_csvs.view()),
    {
        let ghost tables = self.table_metadata.view();
        let ghost writers = self.tmp_csvs.view();
        let _ = self.table_metadata.len();
        let _ = self.tmp_csvs.len();
        proof {
            lemma_place_of(tables, table@);
            lemma_place_of(writers, table@);
        }
        let writer_place = self.tmp_csvs.find(table);
        let mut writer = match writer_place {
            Some(i) => self.tmp_csvs.replace(i, TmpCSVWriter::Nowhere),
            None => {
                if self.csv || self.xlsx {
                    TmpCSVWriter::Disk(Vec::new())
                } else {
                    TmpCSVWriter::Nowhere
                }
            },
        };
        assert(cell_lists(Seq::<Vec<String>>::empty()) =~= Seq::<Seq<Text>>::empty());
        let metadata_place = self.table_metadata.find(table);
        let mut metadata = match metadata_place {
            Some(i) => {
                let nothing = TableMetadata::new("", "", "", "", "".to_owned());
                self.table_metadata.replace(i, nothing)
            },
            None => TableMetadata::new(
                table.as_str(),
                self.main_table_name.as_str(),
                self.path_separator.as_str(),
                self.table_prefix.as_str(),
                join_path(self.output_path.as_str(), tmp_file_name(table.as_str()).as_str()),
            ),
        };
        take_rows(
            &mut metadata,
            &mut writer,
            rows,
            self.only_fields,
            &self.field_titles_map,
            &self.date_regexp,
        );
        proof {
            lemma_put(tables, table@, metadata);
            lemma_put(writers, table@, writer);
        }
        match metadata_place {
            Some(i) => {
                self.table_metadata.replace(i, metadata);
            },
            None => {
                self.table_metadata.insert(table.clone(), metadata);
            },
        }
        match writer_place {
            Some(i) => {
                self.tmp_csvs.replace(i, writer);
            },
            None => {
                self.tmp_csvs.insert(table.clone(), writer);
            },
        }
        assert(self.table_metadata.view() =~= put(tables, table@, metadata));
        assert(self.tmp_csvs.view() =~= put(writers, table@, writer));
    }

    /// Takes the gathered rows into their tables: the columns are brought up to date, the records
    /// of the rows join those that wait to be written, and the tables lose the rows.
    pub fn create_rows(&mut self)
        requires
            old(self).wf(),
            old(self).rows_fit(),
        ensures
            *final(self) == (FlatFiles {
                table_rows: final(self).table_rows,
                tmp_csvs: final(self).tmp_csvs,
                table_metadata: final(self).table_metadata,
                ..*old(self)
            }),
            final(self).store().rows == emptied(old(self).store().rows),
            forall|table: Text| #[trigger]
                has_key(final(self).table_metadata.view(), table) <==> has_key(
                    old(self).table_metadata.view(),
                    table,
                ) || has_key(old(self).store().rows, table),
            forall|table: Text| #[trigger]
                has_key(final(self).tmp_csvs.view(), table) <==> has_key(
                    old(self).tmp_csvs.view(),
                    table,
                ) || has_key(old(self).store().rows, table),
            forall|table: Text| #[trigger]
                final(self).known(table) == after_rows(
                    old(self).intake(),
                    old(self).known(table),
                    rows_in(old(self).store().rows, table),
                ),
            forall|table: Text| #[trigger]
                final(self).unwritten(table) == match old(self).unwritten(table) {
                    Some(list) => Some(
                        list + records(
                            old(self).intake(),
                            old(self).known(table),
                            rows_in(old(self).store().rows, table),
                        ),
                    ),
                    None => None,
                },
            forall|table: Text| #[trigger]
                final(self).known(table).wf() && old(self).known(table).fields.is_prefix_of(
                    final(self).known(table).fields,
                ),
            final(self).wf(),
    {
        let ghost start = *self;
        let ghost rows = self.store().rows;
        let ghost names = self.table_rows.view();
        let n = self.table_rows.len();
        assert(distinct(rows));
        proof {
            assert(rows.take(0) =~= Seq::<(Text, Seq<Fields>)>::empty());
            assert forall|table: Text| #[trigger]
                start.unwritten(table) == match start.unwritten(table) {
                    Some(list) => Some(
                        list + records(
                            start.intake(),
                            start.known(table),
                            rows_in(rows.take(0), table),
                        ),
                    ),
                    None => None,
                } by {
                if let Some(list) = start.unwritten(table) {
                    assert(list + Seq::<Seq<Text>>::empty() =~= list);
                }
            }
        }
        for i in 0..n
            invariant
                start.wf(),
                start.rows_fit(),
                rows == start.store().rows,
                names == start.table_rows.view(),
                distinct(rows),
                n == rows.len(),
                n == names.len(),
                *self == (FlatFiles {
                    table_rows: self.table_rows,
                    tmp_csvs: self.tmp_csvs,
                    table_metadata: self.table_metadata,
                    ..start
                }),
                self.table_rows.view().len() == n,
                forall|j: int| i <= j < n ==> #[trigger] self.table_rows.view()[j] == names[j],
                forall|j: int|
                    0 <= j < i ==> (#[trigger] self.table_rows.view()[j]).0 == names[j].0
                        && self.table_rows.view()[j].1@.len() == 0,
                forall|table: Text| #[trigger]
                    has_key(self.table_metadata.view(), table) <==> has_key(
                        start.table_metadata.view(),
                        table,
                    ) || has_key(rows.take(i as int), table),
                forall|table: Text| #[trigger]
                    has_key(self.tmp_csvs.view(), table) <==> has_key(
                        start.tmp_csvs.view(),
                        table,
                    ) || has_key(rows.take(i as int), table),
                forall|table: Text| #[trigger]
                    self.known(table) == after_rows(
                        start.intake(),
                        start.known(table),
                        rows_in(rows.take(i as int), table),
                    ),
                forall|table: Text| #[trigger]
                    self.unwritten(table) == match start.unwritten(table) {
                        Some(list) => Some(
                            list + records(
                                start.intake(),
                                start.known(table),
                                rows_in(rows.take(i as int), table),
                            ),
                        ),
                        None => None,
                    },
                forall|j: int|
                    0 <= j < self.table_metadata.view().len() ==> (
                    #[trigger] self.table_metadata.view()[j]).1.table().wf(),
        {
            let ghost before = *self;
            let ghost here = names[i as int].0;
            let ghost done = rows.take(i as int);
            let table = self.table_rows.name(i).clone();
            let new_rows = self.table_rows.replace(i, Vec::new());
            proof {
                assert(before.table_rows.view()[i as int] == names[i as int]);
                assert(rows[i as int] == (here, row_list(new_rows@)));
                lemma_next_table(rows, i as int);
                assert(self.known(here) == before.known(here));
                assert(self.unwritten(here) == before.unwritten(here));
                assert(rows_in(done, here) =~= Seq::<Fields>::empty());
                assert(before.known(here) == start.known(here));
                if has_key(before.table_metadata.view(), here) {
                    lemma_place_of(before.table_metadata.view(), here);
                }
            }
            let ghost middle = *self;
            self.create_table_rows(&table, new_rows);
            proof {
                let after = *self;
                let new_table = value_at(after.table_metadata.view(), here);
                let new_writer = value_at(after.tmp_csvs.view(), here);
                lemma_put(before.table_metadata.view(), here, new_table);
                lemma_put(before.tmp_csvs.view(), here, new_writer);
                let later = rows.take(i + 1);
                assert forall|table: Text| #[trigger]
                    after.known(table) == after_rows(
                        start.intake(),
                        start.known(table),
                        rows_in(later, table),
                    ) by {
                    if table != here {
                        assert(has_key(after.table_metadata.view(), table) == has_key(
                            before.table_metadata.view(),
                            table,
                        ));
                        assert(after.known(table) == before.known(table));
                        assert(rows_in(later, table) == rows_in(done, table));
                    }
                }
                assert forall|table: Text| #[trigger]
                    after.unwritten(table) == match start.unwritten(table) {
                        Some(list) => Some(
                            list + records(
                                start.intake(),
                                start.known(table),
                                rows_in(later, table),
                            ),
                        ),
                        None => None,
                    } by {
                    if table != here {
                        assert(has_key(after.tmp_csvs.view(), table) == has_key(
                            before.tmp_csvs.view(),
                            table,
                        ));
                        assert(after.unwritten(table) == before.unwritten(table));
                        assert(rows_in(later, table) == rows_in(done, table));
                    } else {
                        if let Some(list) = start.unwritten(table) {
                            assert(list + Seq::<Seq<Text>>::empty() =~= list);
                        }
                    }
                }
                assert forall|table: Text| #[trigger]
                    has_key(after.table_metadata.view(), table) <==> has_key(
                        start.table_metadata.view(),
                        table,
                    ) || has_key(later, table) by {
                    if table != here {
                        assert(has_key(later, table) == has_key(done, table));
                        assert(has_key(before.table_metadata.view(), table) == has_key(
                            after.table_metadata.view(),
                            table,
                        ));
                    }
                }
                assert forall|table: Text| #[trigger]
                    has_key(after.tmp_csvs.view(), table) <==> has_key(
                        start.tmp_csvs.view(),
                        table,
                    ) || has_key(later, table) by {
                    if table != here {
                        assert(has_key(later, table) == has_key(done, table));
                        assert(has_key(before.tmp_csvs.view(), table) == has_key(
                            after.tmp_csvs.view(),
                            table,
                        ));
                    }
                }
                assert forall|j: int| 0 <= j < after.table_metadata.view().len() implies (
                #[trigger] after.table_metadata.view()[j]).1.table().wf() by {
                    let entry = after.table_metadata.view()[j];
                    if entry.0 != here {
                        assert(before.table_metadata.view()[j] == entry);
                    } else {
                        lemma_entry_found(after.table_metadata.view(), j);
                    }
                }
            }
        }
        proof {
            assert(rows.take(n as int) =~= rows);
            assert(self.store().rows =~= emptied(rows)) by {
                assert forall|j: int| 0 <= j < n implies #[trigger] self.store().rows[j]
                    == emptied(rows)[j] by {
                    assert(self.table_rows.view()[j].0 == names[j].0);
                    assert(row_list(self.table_rows.view()[j].1@) =~= Seq::<Fields>::empty());
                }
            }
            assert forall|table: Text| #[trigger] has_key(
                self.tmp_csvs.view(),
                table,
            ) implies has_key(self.table_metadata.view(), table) by {
                if has_key(start.tmp_csvs.view(), table) {
                    assert(has_key(start.table_metadata.view(), table));
                }
            }
            assert forall|j: int| 0 <= j < n implies self.labels(
                (#[trigger] self.table_rows.view()[j]).0,
            ) by {
                assert(start.labels(names[j].0));
            }
            assert forall|j: int| 0 <= j < self.table_metadata.view().len() implies self.labels(
                (#[trigger] self.table_metadata.view()[j]).0,
            ) by {
                let table = self.table_metadata.view()[j].0;
                assert(has_key(self.table_metadata.view(), table));
                let tables = start.table_metadata.view();
                if has_key(tables, table) {
                    let p = choose|p: int| 0 <= p < tables.len() && #[trigger] tables[p].0 == table;
                    assert(start.labels(tables[p].0));
                } else {
                    assert(has_key(rows, table));
                    let p = choose|p: int| 0 <= p < rows.len() && #[trigger] rows[p].0 == table;
                    assert(start.labels(names[p].0));
                }
            }
            assert forall|table: Text| #[trigger]
                self.known(table).wf() && start.known(table).fields.is_prefix_of(
                    self.known(table).fields,
                ) by {
                lemma_place_of(start.table_metadata.view(), table);
                law_columns_stay(start.intake(), start.known(table), rows_in(rows, table));
                assert(self.known(table) == after_rows(
                    start.intake(),
                    start.known(table),
                    rows_in(rows, table),
                ));
            }
        }
    }
}

} // verus!

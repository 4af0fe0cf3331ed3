//! The tables as CSV files and as the sheets of a workbook.

use crate::files::FlatFiles;
use crate::metadata::{Table, TableMetadata};
use crate::setup::Error;
use crate::spool::{tmp_file, tmp_file_name};
use crate::text::{byte_len, can_cut, cuts_at, first_bytes, keep_bytes, same_text, texts, Text};
use vstd::prelude::*;

verus! {

/// Those columns of an order that are not left out.
pub open spec fn shown(ignore_fields: Seq<bool>, order: Seq<usize>) -> Seq<usize>
    decreases order.len(),
{
    if order.len() == 0 {
        Seq::empty()
    } else {
        let earlier = shown(ignore_fields, order.drop_last());
        if ignore_fields[order.last() as int] {
            earlier
        } else {
            earlier.push(order.last())
        }
    }
}

/// What a list holds for columns.
pub open spec fn picked<A>(list: Seq<A>, columns: Seq<usize>) -> Seq<A> {
    Seq::new(columns.len(), |k: int| list[columns[k] as int])
}

impl Table {
    /// The columns that are written, in their order.
    pub open spec fn columns(self) -> Seq<usize> {
        shown(self.ignore_fields, self.order)
    }

    /// The titles of the columns that are written.
    pub open spec fn titles(self) -> Seq<Text> {
        picked(self.field_titles, self.columns())
    }
}

/// The columns that are written are columns of the table.
pub proof fn lemma_shown_in_range(ignore_fields: Seq<bool>, order: Seq<usize>, n: nat)
    requires
        forall|i: int| 0 <= i < order.len() ==> #[trigger] order[i] < n,
    ensures
        forall|i: int|
            0 <= i < shown(ignore_fields, order).len() ==> #[trigger] shown(ignore_fields, order)[i]
                < n,
        shown(ignore_fields, order).len() <= order.len(),
    decreases order.len(),
{
    if order.len() > 0 {
        lemma_shown_in_range(ignore_fields, order.drop_last(), n);
    }
}

impl TableMetadata {
    /// Gives the columns that are written, in their order.
    pub fn shown_columns(&self) -> (columns: Vec<usize>)
        requires
            self.table().wf(),
        ensures
            columns@ == self.table().columns(),
            forall|k: int|
                0 <= k < columns@.len() ==> #[trigger] columns@[k] < self.table().fields.len(),
    {
        let ghost table = self.table();
        let mut columns: Vec<usize> = Vec::new();
        for i in 0..self.order.len()
            invariant
                table == self.table(),
                table.wf(),
                columns@ == shown(table.ignore_fields, table.order.take(i as int)),
        {
            assert(table.order.take(i + 1).drop_last() =~= table.order.take(i as int));
            assert(table.order[i as int] < table.fields.len());
            if !self.ignore_fields[self.order[i]] {
                columns.push(self.order[i]);
            }
        }
        proof {
            assert(table.order.take(table.order.len() as int) =~= table.order);
            lemma_shown_in_range(table.ignore_fields, table.order, table.fields.len());
        }
        columns
    }

    /// Gives the titles of columns.
    pub(crate) fn titles_of(&self, columns: &Vec<usize>) -> (titles: Vec<String>)
        requires
            forall|k: int|
                0 <= k < columns@.len() ==> #[trigger] columns@[k] < self.field_titles@.len(),
        ensures
            texts(titles@) == picked(self.table().field_titles, columns@),
    {
        let mut titles: Vec<String> = Vec::new();
        for k in 0..columns.len()
            invariant
                forall|j: int|
                    0 <= j < columns@.len() ==> #[trigger] columns@[j] < self.field_titles@.len(),
                titles@.len() == k,
                forall|j: int|
                    0 <= j < k ==> (#[trigger] titles@[j])@
                        == self.table().field_titles[columns@[j] as int],
        {
            titles.push(self.field_titles[columns[k]].clone());
        }
        assert(texts(titles@) =~= picked(self.table().field_titles, columns@));
        titles
    }
}

/// The file below the output directory that holds a table as CSV.
pub open spec fn csv_file(table: Text) -> Text {
    "csv/"@ + table + ".csv"@
}

/// Names the file below the output directory that holds a table as CSV.
pub fn csv_file_name(table: &str) -> (name: String)
    ensures
        name@ == csv_file(table@),
{
    "csv/".to_owned().concat(table).concat(".csv")
}

/// How a table is written as CSV: where its records come from, where they go to, the header, the
/// cells that are taken from each record, and after how many records it ends, if it does.
#[derive(Debug)]
pub struct CsvTable {
    pub source: String,
    pub target: String,
    pub header: Vec<String>,
    pub columns: Vec<usize>,
    pub preview: usize,
}

/// The cells of a record as sequences of bytes.
pub open spec fn byte_cells(row: Seq<Vec<u8>>) -> Seq<Seq<u8>> {
    Seq::new(row.len(), |i: int| row[i]@)
}

/// The cells of a record for columns, empty where the record is too short to have one.
pub open spec fn csv_cells(columns: Seq<usize>, row: Seq<Seq<u8>>) -> Seq<Seq<u8>> {
    Seq::new(
        columns.len(),
        |k: int|
            if columns[k] < row.len() {
                row[columns[k] as int]
            } else {
                Seq::empty()
            },
    )
}

impl CsvTable {
    /// Whether this is how a table is written.
    pub open spec fn writes(self, preview: usize, name: Text, table: Table) -> bool {
        &&& self.source@ == tmp_file(name)
        &&& self.target@ == csv_file(name)
        &&& texts(self.header@) == table.titles()
        &&& self.columns@ == table.columns()
        &&& self.preview == preview
    }

    /// Whether the output ends before the record of a number.
    pub open spec fn ends(self, num: nat) -> bool {
        self.preview != 0 && num == self.preview
    }

    /// Makes the output record of a record, the `num`th from zero, or tells that the output ends.
    pub fn record(&self, num: usize, row: &Vec<Vec<u8>>) -> (record: Option<Vec<Vec<u8>>>)
        ensures
            record is None <==> self.ends(num as nat),
            record matches Some(cells) ==> byte_cells(cells@) == csv_cells(
                self.columns@,
                byte_cells(row@),
            ),
    {
        if self.preview != 0 && num == self.preview {
            return None;
        }
        let mut cells: Vec<Vec<u8>> = Vec::new();
        for k in 0..self.columns.len()
            invariant
                cells@.len() == k,
                forall|j: int|
                    0 <= j < k ==> (#[trigger] cells@[j])@ == csv_cells(
                        self.columns@,
                        byte_cells(row@),
                    )[j],
        {
            let column = self.columns[k];
            if column >= row.len() {
                let empty: Vec<u8> = Vec::new();
                assert(empty@ =~= Seq::<u8>::empty());
                cells.push(empty);
            } else {
                let mut cell: Vec<u8> = Vec::new();
                cell.extend_from_slice(row[column].as_slice());
                assert(cell@ =~= row@[column as int]@);
                cells.push(cell);
            }
        }
        assert(byte_cells(cells@) =~= csv_cells(self.columns@, byte_cells(row@)));
        Some(cells)
    }
}

impl FlatFiles {
    /// Tells how the tables are written as CSV.
    pub fn write_csvs(&self) -> (tables: Vec<CsvTable>)
        requires
            self.wf(),
        ensures
            tables@.len() == self.written_records().len(),
            forall|k: int|
                0 <= k < tables@.len() ==> (#[trigger] tables@[k]).writes(
                    self.preview,
                    self.written_records()[k].0,
                    self.written_records()[k].1,
                ),
    {
        let ghost written = self.written_records();
        let places = self.record_places();
        let mut tables: Vec<CsvTable> = Vec::new();
        for k in 0..places.len()
            invariant
                self.wf(),
                written == self.tables_at(places@),
                forall|j: int|
                    0 <= j < places@.len() ==> (#[trigger] places@[j])
                        < self.table_metadata.view().len(),
                tables@.len() == k,
                forall|j: int|
                    0 <= j < k ==> (#[trigger] tables@[j]).writes(
                        self.preview,
                        written[j].0,
                        written[j].1,
                    ),
        {
            let place = places[k];
            let name = self.table_metadata.name(place);
            let metadata = self.table_metadata.value(place);
            assert(self.table_metadata.view()[place as int].1.table().wf());
            assert(written[k as int] == (name@, metadata.table()));
            let columns = metadata.shown_columns();
            let header = metadata.titles_of(&columns);
            tables.push(
                CsvTable {
                    source: tmp_file_name(name.as_str()),
                    target: csv_file_name(name.as_str()),
                    header,
                    columns,
                    preview: self.preview,
                },
            );
        }
        tables
    }
}

/// How a table becomes a sheet: its name, where its records come from, the header, the cells that
/// are taken from each record, and which of them are numbers where they can be read as such.
#[derive(Debug)]
pub struct Sheet {
    pub name: String,
    pub source: String,
    pub header: Vec<String>,
    pub columns: Vec<usize>,
    pub numeric: Vec<bool>,
}

/// A cell of a sheet. It holds a number where its text is to be and can be read as one.
#[derive(Debug, PartialEq)]
pub struct Cell {
    pub row: u32,
    pub column: u16,
    pub text: String,
    pub numeric: bool,
}

/// The name of the sheet of a table: no more than 31 bytes of the name of the table.
pub open spec fn sheet_name(table: Text) -> Text {
    if byte_len(table) <= 31 {
        table
    } else {
        first_bytes(table, 31)
    }
}

/// Whether the name of a table can be cut for the name of its sheet.
pub open spec fn can_name_sheet(table: Text) -> bool {
    byte_len(table) <= 31 || can_cut(table, 31)
}

/// Tells whether the name of a table can be cut for the name of its sheet.
pub fn can_cut_sheet_name(table: &String) -> (can: bool)
    ensures
        can == can_name_sheet(table@),
{
    table.as_str().as_bytes().len() <= 31 || cuts_at(table.as_str(), 31)
}

/// The texts that a record gives to a sheet, each with whether it is to be read as a number: those
/// of the columns that the record has, without gaps.
pub open spec fn sheet_cells(
    columns: Seq<usize>,
    numeric: Seq<bool>,
    row: Seq<Text>,
) -> Seq<(Text, bool)>
    decreases columns.len(),
{
    if columns.len() == 0 {
        Seq::empty()
    } else {
        let earlier = sheet_cells(columns.drop_last(), numeric, row);
        if columns.last() < row.len() {
            earlier.push((row[columns.last() as int], numeric[columns.len() - 1]))
        } else {
            earlier
        }
    }
}

impl Sheet {
    /// Whether this is how a table becomes a sheet.
    pub open spec fn writes(self, name: Text, table: Table) -> bool {
        &&& self.name@ == sheet_name(name)
        &&& self.source@ == tmp_file(name)
        &&& texts(self.header@) == table.titles()
        &&& self.columns@ == table.columns()
        &&& self.numeric@.len() == self.columns@.len()
        &&& forall|k: int|
            0 <= k < self.columns@.len() ==> #[trigger] self.numeric@[k] == (
            table.field_type[self.columns@[k] as int] == "number"@)
    }

    /// Makes the cells of a record, the `row_num`th from zero. They go to the row behind the header
    /// that has the same number.
    pub fn cells(&self, row_num: usize, row: &Vec<String>) -> (cells: Result<Vec<Cell>, Error>)
        requires
            self.numeric@.len() == self.columns@.len(),
            self.columns@.len() <= u16::MAX,
            row_num < usize::MAX,
        ensures
            ({
                let given = sheet_cells(self.columns@, self.numeric@, texts(row@));
                &&& cells is Err <==> row_num + 1 > u32::MAX && given.len() > 0
                &&& cells matches Err(e) ==> e is FlattererIntError
                &&& cells matches Ok(list) ==> {
                    &&& list@.len() == given.len()
                    &&& forall|k: int|
                        0 <= k < given.len() ==> {
                            &&& (#[trigger] list@[k]).row == row_num + 1
                            &&& list@[k].column == k
                            &&& list@[k].text@ == given[k].0
                            &&& list@[k].numeric == given[k].1
                        }
                }
            }),
    {
        let ghost columns = self.columns@;
        let ghost cells_row = texts(row@);
        let mut list: Vec<Cell> = Vec::new();
        let fits = row_num + 1 <= u32::MAX as usize;
        for k in 0..self.columns.len()
            invariant
                columns == self.columns@,
                cells_row == texts(row@),
                self.numeric@.len() == columns.len(),
                columns.len() <= u16::MAX,
                row_num < usize::MAX,
                fits == (row_num + 1 <= u32::MAX),
                list@.len() <= k,
                !fits ==> list@.len() == 0,
                list@.len() == sheet_cells(columns.take(k as int), self.numeric@, cells_row).len(),
                forall|j: int|
                    0 <= j < list@.len() ==> {
                        let given = sheet_cells(columns.take(k as int), self.numeric@, cells_row);
                        &&& (#[trigger] list@[j]).row == row_num + 1
                        &&& list@[j].column == j
                        &&& list@[j].text@ == given[j].0
                        &&& list@[j].numeric == given[j].1
                    },
        {
            let column = self.columns[k];
            assert(columns.take(k + 1).drop_last() =~= columns.take(k as int));
            if column < row.len() {
                if !fits {
                    proof {
                        lemma_sheet_cells_grow(columns, self.numeric@, cells_row, k + 1);
                    }
                    return Err(Error::FlattererIntError);
                }
                list.push(
                    Cell {
                        row: (row_num + 1) as u32,
                        column: list.len() as u16,
                        text: row[column].clone(),
                        numeric: self.numeric[k],
                    },
                );
            }
        }
        assert(columns.take(columns.len() as int) =~= columns);
        Ok(list)
    }
}

/// More columns give no fewer cells.
proof fn lemma_sheet_cells_grow(columns: Seq<usize>, numeric: Seq<bool>, row: Seq<Text>, n: int)
    requires
        0 <= n <= columns.len(),
    ensures
        sheet_cells(columns.take(n), numeric, row).len() <= sheet_cells(
            columns,
            numeric,
            row,
        ).len(),
    decreases columns.len() - n,
{
    if n < columns.len() {
        lemma_sheet_cells_grow(columns, numeric, row, n + 1);
        assert(columns.take(n + 1).drop_last() =~= columns.take(n));
    } else {
        assert(columns.take(n) =~= columns);
    }
}

impl FlatFiles {
    /// Tells how the tables become the sheets of a workbook.
    pub fn write_xlsx(&self) -> (sheets: Vec<Sheet>)
        requires
            self.wf(),
            forall|k: int|
                0 <= k < self.written_records().len() ==> can_name_sheet(
                    (#[trigger] self.written_records()[k]).0,
                ),
        ensures
            sheets@.len() == self.written_records().len(),
            forall|k: int|
                0 <= k < sheets@.len() ==> (#[trigger] sheets@[k]).writes(
                    self.written_records()[k].0,
                    self.written_records()[k].1,
                ),
    {
        let ghost written = self.written_records();
        let places = self.record_places();
        let mut sheets: Vec<Sheet> = Vec::new();
        for k in 0..places.len()
            invariant
                self.wf(),
                written == self.tables_at(places@),
                forall|j: int|
                    0 <= j < places@.len() ==> (#[trigger] places@[j])
                        < self.table_metadata.view().len(),
                forall|j: int|
                    0 <= j < written.len() ==> can_name_sheet((#[trigger] written[j]).0),
                sheets@.len() == k,
                forall|j: int|
                    0 <= j < k ==> (#[trigger] sheets@[j]).writes(written[j].0, written[j].1),
        {
            let place = places[k];
            let name = self.table_metadata.name(place);
            let metadata = self.table_metadata.value(place);
            assert(self.table_metadata.view()[place as int].1.table().wf());
            assert(written[k as int] == (name@, metadata.table()));
            let columns = metadata.shown_columns();
            let header = metadata.titles_of(&columns);
            let mut numeric: Vec<bool> = Vec::new();
            for c in 0..columns.len()
                invariant
                    forall|j: int|
                        0 <= j < columns@.len() ==> #[trigger] columns@[j]
                            < metadata.field_type@.len(),
                    numeric@.len() == c,
                    forall|j: int|
                        0 <= j < c ==> #[trigger] numeric@[j] == (
                        metadata.table().field_type[columns@[j] as int] == "number"@),
            {
                numeric.push(same_text(metadata.field_type[columns[c]].as_str(), "number"));
            }
            sheets.push(
                Sheet {
                    name: keep_bytes(name.as_str(), 31),
                    source: tmp_file_name(name.as_str()),
                    header,
                    columns,
                    numeric,
                },
            );
        }
        sheets
    }
}

} // verus!

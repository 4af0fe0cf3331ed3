//! What holds of the output: of what is left out, of the order of the columns, and of what the files
//! and scripts say of the same tables.

use crate::columns::{goes_before, ordered, path_names, ranks, with_fields, FieldsRecord};
use crate::files::FlatFiles;
use crate::finish::{write_steps, WriteStep};
use crate::flatten::table_name;
use crate::listing::only_written;
use crate::metadata::Table;
use crate::package::{
    data_package, field_jsons, field_list, field_records, lemma_package_keys, resource_json,
};
use crate::path::key_paths;
use crate::rows::{after_rows, Intake};
use crate::sheets::{
    can_name_sheet, csv_cells, lemma_shown_in_range, sheet_cells, sheet_name, shown, CsvTable,
    Sheet,
};
use crate::spool::path_below;
use crate::sql::{
    column_lines, copy_commands, create_statement, create_statements, import_commands, SqlTypes,
};
use crate::table_laws::{
    holders, law_counts_are_numbers_of_rows, law_order_holds_every_column_once, rows_distinct,
};
use crate::text::{decimal, join, lowercase, precedes, texts, Text};
use crate::value::{distinct, has_key, lemma_entry_found, value_at, Fields, Json};
use vstd::prelude::*;
use vstd::utf8::{
    decode_utf8_encode_utf8, encode_utf8, encode_utf8_valid_utf8, valid_utf8_split,
};

verus! {

/// In every table, the columns of an array that turned out to have more than one item are left out:
/// where the name of the array is the label of the table and something more, all the columns that
/// begin with what is more.
pub proof fn law_columns_of_larger_arrays_are_left_out(
    files: FlatFiles,
    i: int,
    k: int,
    more: Text,
    c: int,
)
    requires
        0 <= i < files.tables().len(),
        0 <= c < files.tables()[i].1.ignore_fields.len(),
        0 <= k < files.one_to_many_arrays@.len(),
        join(key_paths(files.one_to_many_arrays@)[k], files.path_separator@)
            == files.tables()[i].1.label + more,
        more.len() > 0,
        more.is_prefix_of(files.tables()[i].1.fields[c]),
    ensures
        files.marked_tables()[i].1.ignore_fields[c],
{
    let table = files.tables()[i].1;
    let field = table.fields[c];
    let names = path_names(files.store().one_to_many, files.path_separator@);
    let name = table.label + more;
    assert(names[k] == name);
    assert(field =~= more + field.skip(more.len() as int));
    assert(table.label + field =~= name + field.skip(more.len() as int));
    assert(names[k].is_prefix_of(table.label + field));
    assert(!names[k].is_prefix_of(table.label));
}

/// No other column is newly left out: one whose full path begins with the name of no such array,
/// but for those whose name the label of the table itself begins with.
pub proof fn law_other_columns_are_not_left_out(files: FlatFiles, i: int, c: int)
    requires
        0 <= i < files.tables().len(),
        0 <= c < files.tables()[i].1.ignore_fields.len(),
        forall|k: int|
            0 <= k < files.one_to_many_arrays@.len() ==> {
                let name = join(
                    #[trigger] key_paths(files.one_to_many_arrays@)[k],
                    files.path_separator@,
                );
                let table = files.tables()[i].1;
                name.is_prefix_of(table.label + table.fields[c]) ==> name.is_prefix_of(table.label)
            },
    ensures
        files.marked_tables()[i].1.ignore_fields[c] == files.tables()[i].1.ignore_fields[c],
{
    let names = path_names(files.store().one_to_many, files.path_separator@);
    assert forall|k: int| 0 <= k < names.len() implies names[k] == join(
        #[trigger] key_paths(files.one_to_many_arrays@)[k],
        files.path_separator@,
    ) by {}
    let table = files.tables()[i].1;
    assert forall|k: int| 0 <= k < names.len() && (#[trigger] names[k]).is_prefix_of(
        table.label + table.fields[c],
    ) implies names[k].is_prefix_of(table.label) by {
        let path = key_paths(files.one_to_many_arrays@)[k];
    }
}

/// Marking leaves a table out if it is the one that takes the rows of an array that never had more
/// than one item, and no other table, and changes nothing else of the tables.
pub proof fn law_tables_of_single_items_are_left_out(files: FlatFiles, i: int)
    requires
        0 <= i < files.tables().len(),
    ensures
        files.marked_tables().len() == files.tables().len(),
        files.marked_tables()[i].0 == files.tables()[i].0,
        files.marked_tables()[i].1 == (Table {
            ignore: files.marked_tables()[i].1.ignore,
            ignore_fields: files.marked_tables()[i].1.ignore_fields,
            ..files.tables()[i].1
        }),
        files.tables()[i].1.ignore ==> files.marked_tables()[i].1.ignore,
        forall|k: int|
            0 <= k < files.one_to_one_arrays@.len() && table_name(
                files.rules(),
                #[trigger] key_paths(files.one_to_one_arrays@)[k],
            ) == files.tables()[i].0 && key_paths(files.one_to_one_arrays@)[k].len() > 0
                ==> files.marked_tables()[i].1.ignore,
        files.marked_tables()[i].1.ignore && !files.tables()[i].1.ignore ==> exists|k: int|
            0 <= k < files.one_to_one_arrays@.len() && files.table_prefix@ + join(
                #[trigger] key_paths(files.one_to_one_arrays@)[k],
                files.path_separator@,
            ) == files.tables()[i].0,
{
    let paths = key_paths(files.one_to_one_arrays@);
    assert(paths == files.store().one_to_one);
}

/// The order of the columns: links come before all columns but those that the schema orders by
/// zero; of two columns that the schema orders, the one with the smaller number comes first; they come
/// before those that it does not order, unless the number is the largest there is; and those that
/// nothing tells apart stay in the order in which they came.
pub proof fn law_columns_follow_the_schema(
    order_map: Seq<(Text, usize)>,
    before: Table,
    after: Table,
    i: int,
    j: int,
)
    requires
        ordered(order_map, before, after),
        before.order.len() <= i < after.order.len(),
        before.order.len() <= j < after.order.len(),
    ensures
        ({
            let a = after.order[i];
            let b = after.order[j];
            let x = before.fields[a as int];
            let y = before.fields[b as int];
            let link_x = "_link"@.is_prefix_of(x);
            let link_y = "_link"@.is_prefix_of(y);
            let keyed_x = has_key(order_map, before.label + x);
            let keyed_y = has_key(order_map, before.label + y);
            let place_x = value_at(order_map, before.label + x);
            let place_y = value_at(order_map, before.label + y);
            &&& a < before.fields.len() && b < before.fields.len()
            &&& !link_x && !link_y && keyed_x && keyed_y && place_x < place_y ==> i < j
            &&& !link_x && !link_y && keyed_x && keyed_y && place_x == place_y && a < b ==> i < j
            &&& !link_x && !link_y && keyed_x && place_x < usize::MAX && !keyed_y ==> i < j
            &&& !link_x && !link_y && !keyed_x && !keyed_y && a < b ==> i < j
            &&& link_x && !link_y && (keyed_y ==> place_y > 0) ==> i < j
            &&& link_x && link_y && a < b ==> i < j
        }),
{
    let n = before.order.len() as int;
    let order = after.order.skip(n);
    assert(order[i - n] == after.order[i] && order[j - n] == after.order[j]);
    let all = ranks(order_map, before);
    if i > j {
        assert(goes_before(all, order[j - n], order[i - n]));
    }
}

/// The order of a table that had none holds each of its columns, and none twice.
pub proof fn law_every_column_has_its_place(
    order_map: Seq<(Text, usize)>,
    before: Table,
    after: Table,
    c: usize,
)
    requires
        ordered(order_map, before, after),
        before.order.len() == 0,
        c < before.fields.len(),
    ensures
        after.order.len() == before.fields.len(),
        after.order.contains(c),
        after.order.no_duplicates(),
        after.fields == before.fields,
        after.ignore_fields == before.ignore_fields,
{
    assert(after.order.skip(0) =~= after.order);
    let all = ranks(order_map, before);
    law_order_holds_every_column_once(all, after.order, c);
    assert forall|i: int, j: int|
        0 <= i < j < after.order.len() implies #[trigger] after.order[i] != #[trigger] after.order[j] by {
        assert(goes_before(all, after.order[i], after.order[j]));
    }
}

proof fn lemma_shown_is_filter(ignore_fields: Seq<bool>, order: Seq<usize>)
    ensures
        shown(ignore_fields, order) == order.filter(|c: usize| !ignore_fields[c as int]),
    decreases order.len(),
{
    reveal(Seq::filter);
    if order.len() > 0 {
        lemma_shown_is_filter(ignore_fields, order.drop_last());
    }
}

/// A CSV file has the columns of its table that are not left out, in the order of the table, each
/// under its title.
pub proof fn law_header_holds_the_titles(csv: CsvTable, preview: usize, name: Text, table: Table)
    requires
        csv.writes(preview, name, table),
    ensures
        csv.columns@ == table.order.filter(|c: usize| !table.ignore_fields[c as int]),
        csv.header@.len() == csv.columns@.len(),
        forall|k: int|
            0 <= k < csv.header@.len() ==> (#[trigger] csv.header@[k])@
                == table.field_titles[csv.columns@[k] as int],
        csv.source@ == "tmp/"@ + name + ".csv"@,
        csv.target@ == "csv/"@ + name + ".csv"@,
        csv.preview == preview,
{
    lemma_shown_is_filter(table.ignore_fields, table.order);
    assert(texts(csv.header@).len() == csv.header@.len());
    assert forall|k: int| 0 <= k < csv.header@.len() implies (#[trigger] csv.header@[k])@
        == table.field_titles[csv.columns@[k] as int] by {
        assert(texts(csv.header@)[k] == table.titles()[k]);
    }
}

/// The cells of a record go under the titles of their columns; where the record has none, the cell
/// is empty.
pub proof fn law_csv_cells_stand_under_their_titles(csv: CsvTable, row: Seq<Seq<u8>>, k: int)
    requires
        0 <= k < csv.columns@.len(),
    ensures
        csv_cells(csv.columns@, row).len() == csv.columns@.len(),
        csv.columns@[k] < row.len() ==> csv_cells(csv.columns@, row)[k]
            == row[csv.columns@[k] as int],
        csv.columns@[k] >= row.len() ==> csv_cells(csv.columns@, row)[k].len() == 0,
{
}

/// With a preview, that many records are written; without one, all are.
pub proof fn law_preview_is_the_number_of_records(csv: CsvTable)
    ensures
        csv.preview == 0 ==> forall|num: nat| !#[trigger] csv.ends(num),
        csv.preview > 0 ==> csv.ends(csv.preview as nat),
        forall|num: nat| num < csv.preview ==> !#[trigger] csv.ends(num),
{
}

/// A sheet has the columns and the titles that the CSV file of the same table has, and takes as
/// numbers what stands in columns of numbers.
pub proof fn law_sheets_are_as_the_csv_files(
    csv: CsvTable,
    preview: usize,
    sheet: Sheet,
    name: Text,
    table: Table,
    k: int,
)
    requires
        csv.writes(preview, name, table),
        sheet.writes(name, table),
        0 <= k < csv.columns@.len(),
    ensures
        sheet.columns@ == csv.columns@,
        texts(sheet.header@) == texts(csv.header@),
        sheet.source@ == csv.source@,
        sheet.name@ == sheet_name(name),
        sheet.numeric@[k] <==> table.field_type[csv.columns@[k] as int] == "number"@,
{
}

/// The cells that a record gives to a sheet are those of the columns that it has, in the order of
/// the columns and without gaps, each with what its column says of it.
pub proof fn law_sheet_cells_are_those_of_the_record(
    columns: Seq<usize>,
    numeric: Seq<bool>,
    row: Seq<Text>,
)
    requires
        numeric.len() == columns.len(),
    ensures
        sheet_cells(columns, numeric, row) == columns.zip_with(numeric).filter(
            |column: (usize, bool)| column.0 < row.len(),
        ).map_values(|column: (usize, bool)| (row[column.0 as int], column.1)),
    decreases columns.len(),
{
    reveal(Seq::filter);
    let has = |column: (usize, bool)| column.0 < row.len();
    let give = |column: (usize, bool)| (row[column.0 as int], column.1);
    let all = columns.zip_with(numeric);
    if columns.len() > 0 {
        let fewer = columns.drop_last();
        let flags = numeric.drop_last();
        law_sheet_cells_are_those_of_the_record(fewer, flags, row);
        lemma_fewer_flags(fewer, numeric, flags, row);
        assert(all.drop_last() =~= fewer.zip_with(flags));
        assert(all.last() == (columns.last(), numeric[columns.len() - 1]));
        let kept = all.drop_last().filter(has);
        if columns.last() < row.len() {
            assert(kept.push(all.last()).map_values(give) =~= kept.map_values(give).push(
                give(all.last()),
            ));
        }
    } else {
        assert(all.filter(has).map_values(give) =~= Seq::<(Text, bool)>::empty());
    }
}

/// Flags behind those of the columns do not matter.
proof fn lemma_fewer_flags(columns: Seq<usize>, more: Seq<bool>, flags: Seq<bool>, row: Seq<Text>)
    requires
        columns.len() <= flags.len(),
        flags.len() <= more.len(),
        forall|k: int| 0 <= k < flags.len() ==> #[trigger] flags[k] == more[k],
    ensures
        sheet_cells(columns, more, row) == sheet_cells(columns, flags, row),
    decreases columns.len(),
{
    if columns.len() > 0 {
        lemma_fewer_flags(columns.drop_last(), more, flags, row);
        assert(flags[columns.len() - 1] == more[columns.len() - 1]);
    }
}

/// The statement that makes a table names, one for one and in their order, the lowercase forms of
/// the titles in the header of the CSV file that fills it, each with the SQL type of its column.
pub proof fn law_statements_name_the_header(
    types: SqlTypes,
    csv: CsvTable,
    preview: usize,
    name: Text,
    table: Table,
)
    requires
        csv.writes(preview, name, table),
    ensures
        create_statement(types, name, table) == "CREATE TABLE \""@ + lowercase(name) + "\"(\n"@
            + join(
            Seq::new(
                csv.header@.len(),
                |k: int|
                    {
                        let field_type = table.field_type[csv.columns@[k] as int];
                        "    \""@ + lowercase(csv.header@[k]@) + "\" "@ + (if has_key(
                            types.named.view(),
                            field_type,
                        ) {
                            value_at(types.named.view(), field_type)@
                        } else {
                            types.other@
                        })
                    },
            ),
            ",\n"@,
        ) + ");\n\n"@,
{
    law_header_holds_the_titles(csv, preview, name, table);
    let lines = column_lines(types, table);
    let stated = Seq::new(
        csv.header@.len(),
        |k: int|
            {
                let field_type = table.field_type[csv.columns@[k] as int];
                "    \""@ + lowercase(csv.header@[k]@) + "\" "@ + (if has_key(
                    types.named.view(),
                    field_type,
                ) {
                    value_at(types.named.view(), field_type)@
                } else {
                    types.other@
                })
            },
    );
    assert forall|k: int| 0 <= k < lines.len() implies lines[k] == stated[k] by {
        assert(csv.header@[k]@ == table.field_titles[csv.columns@[k] as int]);
    }
    assert(lines =~= stated);
}

/// The scripts make each table once, in the order of the list, and fill it from its CSV file.
pub proof fn law_scripts_fill_from_the_csv_files(
    types: SqlTypes,
    tables: Seq<(Text, Table)>,
    csv: CsvTable,
    preview: usize,
    name: Text,
    table: Table,
)
    requires
        csv.writes(preview, name, table),
    ensures
        create_statements(types, tables.push((name, table))) == create_statements(types, tables)
            + create_statement(types, name, table),
        copy_commands(tables.push((name, table))) == copy_commands(tables) + ("\\copy \""@ + lowercase(
            name,
        ) + "\" from '"@ + csv.target@ + "' with CSV HEADER\n"@),
        import_commands(tables.push((name, table))) == import_commands(tables) + (".import '"@
            + csv.target@ + "' "@ + lowercase(name) + " --skip 1 \n"@),
        create_statements(types, Seq::empty()).len() == 0,
        copy_commands(Seq::empty()).len() == 0,
        import_commands(Seq::empty()) == ".mode csv \n"@,
{
    let all = tables.push((name, table));
    assert(all.drop_last() =~= tables);
}

/// What the data package says of a column that is written: its title, as in the header of the CSV
/// file, its type, and its count, as in the list of the columns.
pub proof fn law_package_tells_of_the_columns(
    csv: bool,
    tables: Seq<(Text, Table)>,
    i: int,
    k: int,
)
    requires
        0 <= i < tables.len(),
        0 <= k < tables[i].1.titles().len(),
    ensures
        ({
            let (name, table) = tables[i];
            let resources = value_at(
                data_package(csv, tables)->Object_0,
                "resources"@,
            )->Array_0;
            let resource = resources[i]->Object_0;
            let schema = value_at(resource, "schema"@)->Object_0;
            let list = value_at(schema, "fields"@)->Array_0;
            let column = list[k]->Object_0;
            let listed = field_records(name, table)[k];
            &&& resources.len() == tables.len()
            &&& value_at(resource, "name"@) == Json::Str(name)
            &&& has_key(resource, "path"@) <==> csv
            &&& csv ==> value_at(resource, "path"@) == Json::Str("csv/"@ + name + ".csv"@)
            &&& list.len() == table.titles().len()
            &&& field_records(name, table).len() == list.len()
            &&& value_at(column, "name"@) == Json::Str(table.titles()[k])
            &&& value_at(column, "name"@) == Json::Str(listed[3])
            &&& value_at(column, "type"@) == Json::Str(listed[2])
            &&& value_at(column, "count"@) == Json::Number(listed[4])
        }),
{
    lemma_package_keys();
    let (name, table) = tables[i];
    let package = data_package(csv, tables)->Object_0;
    lemma_entry_found(package, 1);
    let resource = resource_json(csv, name, table)->Object_0;
    assert(resource.len() == if csv { 4int } else { 3int });
    assert(resource[0].0 == "profile"@ && resource[1].0 == "name"@ && resource[2].0 == "schema"@);
    assert(distinct(resource));
    lemma_entry_found(resource, 1);
    lemma_entry_found(resource, 2);
    if csv {
        assert(resource[3].0 == "path"@);
        lemma_entry_found(resource, 3);
    }
    let schema = resource[2].1->Object_0;
    lemma_entry_found(schema, 0);
    let column = field_jsons(table)[k]->Object_0;
    lemma_entry_found(column, 0);
    lemma_entry_found(column, 1);
    lemma_entry_found(column, 2);
}

/// The count of a column that is written, in the list of the columns as in the data package, is the
/// number of the rows that hold the column, among all that were taken into the table since its
/// columns were counted in no row.
pub proof fn law_written_counts_are_numbers_of_rows(
    intake: Intake,
    start: Table,
    rows: Seq<Fields>,
    csv: bool,
    tables: Seq<(Text, Table)>,
    i: int,
    k: int,
)
    requires
        start.wf(),
        forall|c: int| 0 <= c < start.fields.len() ==> #[trigger] start.field_counts[c] == 0,
        rows_distinct(rows),
        0 <= i < tables.len(),
        tables[i].1.wf(),
        tables[i].1.fields == after_rows(intake, start, rows).fields,
        tables[i].1.field_counts == after_rows(intake, start, rows).field_counts,
        0 <= k < tables[i].1.titles().len(),
    ensures
        ({
            let resource = value_at(
                data_package(csv, tables)->Object_0,
                "resources"@,
            )->Array_0[i]->Object_0;
            let list = value_at(value_at(resource, "schema"@)->Object_0, "fields"@)->Array_0;
            let record = field_records(tables[i].0, tables[i].1)[k];
            let field = tables[i].1.fields[tables[i].1.columns()[k] as int];
            &&& record[1] == field
            &&& record[4] == decimal(holders(rows, field))
            &&& value_at(list[k]->Object_0, "count"@) == Json::Number(decimal(holders(rows, field)))
        }),
{
    let table = tables[i].1;
    lemma_shown_in_range(table.ignore_fields, table.order, table.fields.len());
    let c = table.columns()[k] as int;
    law_counts_are_numbers_of_rows(intake, start, rows, c);
    law_package_tells_of_the_columns(csv, tables, i, k);
}

/// The record of a column in the list of the columns: its table, its name, its type, its title, as in
/// the header of the CSV file, and its count.
pub proof fn law_list_tells_of_the_columns(name: Text, table: Table, k: int)
    requires
        0 <= k < table.titles().len(),
    ensures
        ({
            let c = table.order.filter(|c: usize| !table.ignore_fields[c as int])[k] as int;
            &&& field_records(name, table).len() == table.titles().len()
            &&& table.titles()[k] == table.field_titles[c]
            &&& field_records(name, table)[k] == seq![
                name,
                table.fields[c],
                table.field_type[c],
                table.titles()[k],
                decimal(table.field_counts[c]),
            ]
        }),
{
    lemma_shown_is_filter(table.ignore_fields, table.order);
}

/// The list of the columns has a header and then the records of each table, in the order of the
/// tables.
pub proof fn law_list_goes_table_by_table(tables: Seq<(Text, Table)>, name: Text, table: Table)
    ensures
        field_list(Seq::empty()) == seq![
            seq!["table_name"@, "field_name"@, "field_type"@, "field_title"@, "count"@],
        ],
        field_list(tables.push((name, table))) == field_list(tables) + field_records(name, table),
{
    assert(tables.push((name, table)).drop_last() =~= tables);
}

/// The tables that are written are those that have rows and are not left out, in the same order.
pub proof fn law_tables_with_rows_are_written(tables: Seq<(Text, Table)>)
    ensures
        only_written(tables) == tables.filter(
            |entry: (Text, Table)| entry.1.rows > 0 && !entry.1.ignore,
        ),
    decreases tables.len(),
{
    reveal(Seq::filter);
    if tables.len() > 0 {
        law_tables_with_rows_are_written(tables.drop_last());
    }
}

/// The tables that become CSV files and sheets are those with records that are written, in the order
/// in which their records came.
pub proof fn law_tables_with_records_are_written(files: FlatFiles)
    ensures
        files.written_records() == Seq::new(
            files.tmp_csvs.view().len(),
            |i: int| (files.tmp_csvs.view()[i].0, files.known(files.tmp_csvs.view()[i].0)),
        ).filter(|entry: (Text, Table)| entry.1.rows > 0 && !entry.1.ignore),
{
    let all = files.known_tables(files.record_names());
    law_tables_with_rows_are_written(all);
    assert(all =~= Seq::new(
        files.tmp_csvs.view().len(),
        |i: int| (files.tmp_csvs.view()[i].0, files.known(files.tmp_csvs.view()[i].0)),
    ));
}

/// What is known of a table is what stands under its name.
pub proof fn law_tables_are_known_by_their_names(files: FlatFiles, i: int)
    requires
        distinct(files.table_metadata.view()),
        0 <= i < files.table_metadata.view().len(),
    ensures
        files.tables()[i].0 == files.table_metadata.view()[i].0,
        files.tables()[i].1 == files.table_metadata.view()[i].1.table(),
        files.known(files.tables()[i].0) == files.tables()[i].1,
{
    lemma_entry_found(files.table_metadata.view(), i);
}

/// Of the columns given beforehand, a table takes those for it, in their order: with the title given,
/// or else the name, not left out, and counted in no row yet.
pub proof fn law_given_columns_are_taken(table: Table, records: Seq<FieldsRecord>, name: Text, i: int)
    requires
        table.wf(),
    ensures
        ({
            let own = records.filter(|record: FieldsRecord| record.table_name@ == name);
            let after = with_fields(table, records, name);
            let n = table.fields.len();
            &&& after.fields.len() == n + own.len()
            &&& after.wf()
            &&& after.label == table.label
            &&& after.rows == table.rows
            &&& after.ignore == table.ignore
            &&& 0 <= i < n ==> {
                &&& after.fields[i] == table.fields[i]
                &&& after.field_type[i] == table.field_type[i]
                &&& after.field_titles[i] == table.field_titles[i]
                &&& after.field_counts[i] == table.field_counts[i]
                &&& after.ignore_fields[i] == table.ignore_fields[i]
            }
            &&& 0 <= i < own.len() ==> {
                &&& after.fields[n + i] == own[i].field_name@
                &&& after.field_type[n + i] == own[i].field_type@
                &&& after.field_counts[n + i] == 0
                &&& !after.ignore_fields[n + i]
                &&& own[i].field_title matches Some(title) ==> after.field_titles[n + i] == title@
                &&& own[i].field_title is None ==> after.field_titles[n + i] == own[i].field_name@
            }
        }),
    decreases records.len(),
{
    reveal(Seq::filter);
    if records.len() > 0 {
        let fewer = records.drop_last();
        law_given_columns_are_taken(table, fewer, name, i);
        let own = fewer.filter(|record: FieldsRecord| record.table_name@ == name);
    }
}

/// The steps of writing the output: the records that wait come first; each kind of output is written if
/// it was asked for, before the files that took the records as they came are removed; the data
/// package and the list of the columns are always written; and no step is taken twice.
pub proof fn law_steps_follow_what_is_asked_for(csv: bool, xlsx: bool)
    ensures
        ({
            let steps = write_steps(csv, xlsx);
            &&& steps.no_duplicates()
            &&& steps[0] == WriteStep::FlushRecords
            &&& steps.contains(WriteStep::Csvs) <==> csv
            &&& steps.contains(WriteStep::Postgresql) <==> csv
            &&& steps.contains(WriteStep::Sqlite) <==> csv
            &&& steps.contains(WriteStep::Xlsx) <==> xlsx
            &&& steps.contains(WriteStep::RemoveTmp)
            &&& steps.contains(WriteStep::DataPackage)
            &&& steps.contains(WriteStep::FieldsCsv)
            &&& forall|i: int, j: int|
                0 <= i < steps.len() && 0 <= j < steps.len() && #[trigger] steps[i]
                    == WriteStep::RemoveTmp && (#[trigger] steps[j] == WriteStep::FlushRecords
                    || steps[j] == WriteStep::Csvs || steps[j] == WriteStep::Xlsx) ==> j < i
        }),
{
    let steps = write_steps(csv, xlsx);
    let n = steps.len() as int;
    assert(steps[n - 3] == WriteStep::RemoveTmp);
    assert(steps[n - 2] == WriteStep::DataPackage);
    assert(steps[n - 1] == WriteStep::FieldsCsv);
    if csv {
        assert(steps[1] == WriteStep::Csvs);
        assert(steps[2] == WriteStep::Postgresql);
        assert(steps[3] == WriteStep::Sqlite);
    }
    if xlsx {
        assert(steps[n - 4] == WriteStep::Xlsx);
    }
}

/// The name of a sheet is that of its table, or the first 31 bytes of it where it has more.
pub proof fn law_sheet_names_are_short(table: Text)
    requires
        can_name_sheet(table),
    ensures
        encode_utf8(table).len() <= 31 ==> sheet_name(table) == table,
        encode_utf8(table).len() > 31 ==> encode_utf8(sheet_name(table)) == encode_utf8(table).take(
            31,
        ),
{
    if encode_utf8(table).len() > 31 {
        let bytes = encode_utf8(table);
        encode_utf8_valid_utf8(table);
        valid_utf8_split(bytes, 31);
        decode_utf8_encode_utf8(bytes.take(31));
    }
}

/// A path below a directory is the directory and what is below it, with a slash between them, but
/// where the directory is empty or ends with one.
pub proof fn law_paths_below_a_directory(directory: Text, below: Text)
    ensures
        path_below(Seq::empty(), below) == below,
        path_below(directory.push('/'), below) == directory.push('/') + below,
        directory.len() > 0 && directory.last() != '/' ==> path_below(directory, below)
            == directory.push('/') + below,
{
    reveal_strlit("/");
    assert(Seq::<char>::empty() + below =~= below);
    assert(directory + "/"@ =~= directory.push('/'));
}

/// Numbers are written in decimal: the last digit behind the number of tens.
pub proof fn law_decimals(n: nat, last: nat)
    requires
        last < 10,
    ensures
        decimal(last) == seq![('0' as u32 + last) as char],
        n > 0 ==> decimal(10 * n + last) == decimal(n).push(('0' as u32 + last) as char),
{
    assert((10 * n + last) / 10 == n);
    assert((10 * n + last) % 10 == last);
}

/// Names are in the order of the code points at the first place where they differ, and a name is
/// before every longer one that begins with it.
pub proof fn law_names_are_ordered_by_code_points(
    common: Text,
    a: char,
    b: char,
    rest: Text,
    others: Text,
)
    ensures
        precedes(common, common.push(a) + rest),
        !precedes(common.push(a) + rest, common),
        a != b ==> (precedes(common.push(a) + rest, common.push(b) + others) <==> (a as int) < (
        b as int)),
    decreases common.len(),
{
    let x = common.push(a) + rest;
    let y = common.push(b) + others;
    if common.len() > 0 {
        let less = common.skip(1);
        law_names_are_ordered_by_code_points(less, a, b, rest, others);
        assert(x.skip(1) =~= less.push(a) + rest);
        assert(y.skip(1) =~= less.push(b) + others);
        assert(x[0] == common[0] && y[0] == common[0]);
    } else {
        assert(x[0] == a && y[0] == b);
    }
}

} // verus!

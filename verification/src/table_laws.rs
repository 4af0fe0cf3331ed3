//! What holds of the tables and of what is written of them, whatever the rows are.

use crate::columns::{
    goes_before, is_order, marked, names_table, outgrown, path_names, ranks, with_field,
    with_fields, FieldsRecord,
};
use crate::convert::cell_text;
use crate::files::FlatFiles;
use crate::flatten::rows_in;
use crate::listing::{is_listing, lemma_precedes_one_way, listing, only_written};
use crate::metadata::{blank, label, Table};
use crate::package::{field_list, field_record, field_records};
use crate::rows::{
    after_row, after_rows, fresh, known_cells, lemma_after_row_wf, new_cells, record, records,
    repeats, unknown, Intake,
};
use crate::sheets::{csv_cells, picked, CsvTable};
use crate::spool::{emptied, path_below, tmp_file};
use crate::text::{join, lemma_after_prefix, precedes, texts, Text};
use crate::value::{
    distinct, has_key, lemma_entry_found, lemma_place_of, place_of, value_at, Fields,
};
use vstd::prelude::*;
use vstd::set_lib::{lemma_int_range, lemma_subset_equality, set_int_range};

verus! {

/// The columns that a table has stay, with their titles, and others come behind them.
pub proof fn law_columns_stay(intake: Intake, table: Table, rows: Seq<Fields>)
    requires
        table.wf(),
    ensures
        table.fields.is_prefix_of(after_rows(intake, table, rows).fields),
        table.field_titles.is_prefix_of(after_rows(intake, table, rows).field_titles),
        after_rows(intake, table, rows).wf(),
        intake.only_fields ==> after_rows(intake, table, rows).fields == table.fields,
    decreases rows.len(),
{
    if rows.len() == 0 {
        assert(table.fields =~= table.fields.subrange(0, table.fields.len() as int));
        assert(table.field_titles =~= table.field_titles.subrange(
            0,
            table.field_titles.len() as int,
        ));
    } else {
        let before = after_rows(intake, table, rows.drop_last());
        let after = after_rows(intake, table, rows);
        law_columns_stay(intake, table, rows.drop_last());
        lemma_after_row_wf(intake, before, rows.last());
        assert(table.fields =~= after.fields.subrange(0, table.fields.len() as int));
        assert(table.field_titles =~= after.field_titles.subrange(
            0,
            table.field_titles.len() as int,
        ));
        assert(intake.only_fields ==> after.fields =~= before.fields);
    }
}

/// A column of texts stays one.
pub proof fn law_text_stays_text(intake: Intake, table: Table, rows: Seq<Fields>, i: int)
    requires
        table.wf(),
        0 <= i < table.fields.len(),
        table.field_type[i] == "text"@,
    ensures
        after_rows(intake, table, rows).field_type[i] == "text"@,
    decreases rows.len(),
{
    if rows.len() > 0 {
        law_text_stays_text(intake, table, rows.drop_last(), i);
        law_columns_stay(intake, table, rows.drop_last());
        reveal_strlit("text");
        reveal_strlit("");
    }
}

/// A column once typed is never without a type again.
pub proof fn law_types_stay(intake: Intake, table: Table, rows: Seq<Fields>, i: int)
    requires
        table.wf(),
        0 <= i < table.fields.len(),
        table.field_type[i] != ""@,
    ensures
        after_rows(intake, table, rows).field_type[i] != ""@,
    decreases rows.len(),
{
    if rows.len() > 0 {
        law_types_stay(intake, table, rows.drop_last(), i);
        law_columns_stay(intake, table, rows.drop_last());
        reveal_strlit("");
        reveal_strlit("text");
        reveal_strlit("null");
        reveal_strlit("number");
        reveal_strlit("boolean");
        reveal_strlit("date");
        assert("text"@.len() == 4 && "null"@.len() == 4 && "number"@.len() == 6);
        assert("boolean"@.len() == 7 && "date"@.len() == 4 && ""@.len() == 0);
    }
}

/// The number of rows that hold a column.
pub open spec fn holders(rows: Seq<Fields>, name: Text) -> nat
    decreases rows.len(),
{
    if rows.len() == 0 {
        0
    } else if has_key(rows.last(), name) {
        holders(rows.drop_last(), name) + 1
    } else {
        holders(rows.drop_last(), name)
    }
}

/// The unknown members of a row are members of it that no name is for, each once.
pub proof fn lemma_unknown(names: Seq<Text>, row: Fields)
    requires
        distinct(row),
    ensures
        distinct(unknown(names, row)),
        forall|j: int|
            0 <= j < unknown(names, row).len() ==> {
                &&& has_key(row, (#[trigger] unknown(names, row)[j]).0)
                &&& value_at(row, unknown(names, row)[j].0) == unknown(names, row)[j].1
                &&& !names.contains(unknown(names, row)[j].0)
            },
        forall|i: int|
            0 <= i < row.len() && !names.contains((#[trigger] row[i]).0) ==> has_key(
                unknown(names, row),
                row[i].0,
            ),
    decreases row.len(),
{
    if row.len() > 0 {
        let fewer = row.drop_last();
        let last = row.last();
        let earlier = unknown(names, fewer);
        let all = unknown(names, row);
        assert(distinct(fewer));
        lemma_unknown(names, fewer);
        lemma_entry_found(row, row.len() - 1);
        assert forall|j: int| 0 <= j < earlier.len() implies {
            &&& has_key(row, (#[trigger] earlier[j]).0)
            &&& value_at(row, earlier[j].0) == earlier[j].1
            &&& earlier[j].0 != last.0
        } by {
            let name = earlier[j].0;
            assert(has_key(fewer, name));
            lemma_place_of(fewer, name);
            let p = place_of(fewer, name);
            assert(row[p] == fewer[p]);
            lemma_entry_found(row, p);
        }
        assert forall|j: int| 0 <= j < all.len() implies {
            &&& has_key(row, (#[trigger] all[j]).0)
            &&& value_at(row, all[j].0) == all[j].1
            &&& !names.contains(all[j].0)
        } by {
            if j < earlier.len() {
                assert(all[j] == earlier[j]);
            }
        }
        assert forall|i: int| 0 <= i < row.len() && !names.contains(
            (#[trigger] row[i]).0,
        ) implies has_key(all, row[i].0) by {
            if i < fewer.len() {
                assert(fewer[i] == row[i]);
                let j = choose|j: int| 0 <= j < earlier.len() && #[trigger] earlier[j].0 == row[i].0;
                assert(all[j].0 == row[i].0);
            } else {
                assert(all[earlier.len() as int].0 == row[i].0);
            }
        }
        assert forall|i: int, j: int| 0 <= i < j < all.len() implies #[trigger] all[i].0
            != #[trigger] all[j].0 by {
            assert(all[i] == earlier[i]);
            if j < earlier.len() {
                assert(all[j] == earlier[j]);
            }
        }
    }
}

/// No row has a member twice.
pub open spec fn rows_distinct(rows: Seq<Fields>) -> bool {
    forall|i: int| 0 <= i < rows.len() ==> distinct(#[trigger] rows[i])
}

/// Every member of the rows has a column, where rows may add columns.
pub proof fn law_members_have_columns(
    intake: Intake,
    table: Table,
    rows: Seq<Fields>,
    i: int,
    p: int,
)
    requires
        table.wf(),
        rows_distinct(rows),
        !intake.only_fields,
        0 <= i < rows.len(),
        0 <= p < rows[i].len(),
    ensures
        after_rows(intake, table, rows).fields.contains(rows[i][p].0),
    decreases rows.len(),
{
    let fewer = rows.drop_last();
    let before = after_rows(intake, table, fewer);
    let after = after_rows(intake, table, rows);
    let name = rows[i][p].0;
    assert(rows_distinct(fewer)) by {
        assert forall|j: int| 0 <= j < fewer.len() implies distinct(#[trigger] fewer[j]) by {
            assert(distinct(rows[j]));
        }
    }
    if i < fewer.len() {
        assert(fewer[i] == rows[i]);
        law_members_have_columns(intake, table, fewer, i, p);
        let c = choose|c: int| 0 <= c < before.fields.len() && before.fields[c] == name;
        assert(after.fields[c] == name);
    } else {
        let row = rows[i];
        assert(distinct(row));
        lemma_unknown(before.fields, row);
        if before.fields.contains(name) {
            let c = choose|c: int| 0 <= c < before.fields.len() && before.fields[c] == name;
            assert(after.fields[c] == name);
        } else {
            let new = unknown(before.fields, row);
            assert(has_key(new, row[p].0));
            let j = choose|j: int| 0 <= j < new.len() && #[trigger] new[j].0 == name;
            assert(after.fields[before.fields.len() + j] == name);
        }
    }
}

/// The count of a column is the number of the rows that hold it, beyond those counted before.
pub proof fn law_counts_are_numbers_of_rows(intake: Intake, table: Table, rows: Seq<Fields>, c: int)
    requires
        table.wf(),
        rows_distinct(rows),
        0 <= c < after_rows(intake, table, rows).fields.len(),
    ensures
        after_rows(intake, table, rows).field_counts[c] == holders(
            rows,
            after_rows(intake, table, rows).fields[c],
        ) + if c < table.fields.len() {
            table.field_counts[c]
        } else {
            0
        },
    decreases rows.len(),
{
    if rows.len() > 0 {
        let fewer = rows.drop_last();
        let row = rows.last();
        let before = after_rows(intake, table, fewer);
        let after = after_rows(intake, table, rows);
        law_columns_stay(intake, table, fewer);
        law_columns_stay(intake, table, rows);
        let name = after.fields[c];
        assert(rows_distinct(fewer)) by {
            assert forall|j: int| 0 <= j < fewer.len() implies distinct(#[trigger] fewer[j]) by {
                assert(distinct(rows[j]));
            }
        }
        assert(distinct(rows[rows.len() - 1]));
        if c < before.fields.len() {
            law_counts_are_numbers_of_rows(intake, table, fewer, c);
            assert(before.fields[c] == name);
        } else {
            lemma_unknown(before.fields, row);
            let new = unknown(before.fields, row);
            assert(name == new[c - before.fields.len()].0);
            assert(has_key(row, name));
            if holders(fewer, name) > 0 {
                let i = lemma_some_holder(fewer, name);
                let p = choose|p: int| 0 <= p < fewer[i].len() && #[trigger] fewer[i][p].0 == name;
                law_members_have_columns(intake, table, fewer, i, p);
                assert(before.fields.contains(name));
            }
        }
    }
}

/// Where the number of holders is not zero, some row holds the column.
pub proof fn lemma_some_holder(rows: Seq<Fields>, name: Text) -> (i: int)
    requires
        holders(rows, name) > 0,
    ensures
        0 <= i < rows.len(),
        has_key(rows[i], name),
    decreases rows.len(),
{
    if has_key(rows.last(), name) {
        rows.len() - 1
    } else {
        lemma_some_holder(rows.drop_last(), name)
    }
}

/// The cells of a record stand under their columns: a record has a cell for each column that is
/// then known, the text of what the row holds under the column's name, and an empty one where it
/// holds nothing.
pub proof fn law_cells_stand_under_their_columns(intake: Intake, table: Table, row: Fields, c: int)
    requires
        distinct(row),
        table.fields.no_duplicates(),
        0 <= c < after_row(intake, table, row).fields.len(),
    ensures
        record(intake, table, row).len() == after_row(intake, table, row).fields.len(),
        record(intake, table, row)[c] == if has_key(row, after_row(intake, table, row).fields[c]) {
            cell_text(value_at(row, after_row(intake, table, row).fields[c]))
        } else {
            ""@
        },
        after_row(intake, table, row).fields.no_duplicates(),
{
    let after = after_row(intake, table, row);
    let new = fresh(intake, table, row);
    let n = table.fields.len();
    lemma_unknown(table.fields, row);
    if c < n {
        assert(after.fields[c] == table.fields[c]);
        assert(!repeats(table.fields, c));
        assert(record(intake, table, row)[c] == known_cells(table.fields, row)[c]);
    } else {
        assert(after.fields[c] == new[c - n].0);
        assert(record(intake, table, row)[c] == new_cells(new)[c - n]);
    }
    assert forall|i: int, j: int|
        0 <= i < after.fields.len() && 0 <= j < after.fields.len() && i != j implies after.fields[i]
        != after.fields[j] by {
        lemma_new_column_differs(intake, table, row, i, j);
    }
}

proof fn lemma_new_column_differs(intake: Intake, table: Table, row: Fields, i: int, j: int)
    requires
        distinct(row),
        table.fields.no_duplicates(),
        0 <= i < after_row(intake, table, row).fields.len(),
        0 <= j < after_row(intake, table, row).fields.len(),
        i != j,
    ensures
        after_row(intake, table, row).fields[i] != after_row(intake, table, row).fields[j],
{
    let after = after_row(intake, table, row);
    let new = fresh(intake, table, row);
    let n = table.fields.len();
    lemma_unknown(table.fields, row);
    if i < n && j < n {
        assert(table.fields[i] != table.fields[j]);
    } else if i < n {
        assert(after.fields[j] == new[j - n].0);
        assert(table.fields.contains(table.fields[i]));
    } else if j < n {
        assert(after.fields[i] == new[i - n].0);
        assert(table.fields.contains(table.fields[j]));
    } else if i < j {
        assert(new[i - n].0 != new[j - n].0);
    } else {
        assert(new[j - n].0 != new[i - n].0);
    }
}

/// There are as many records as rows are counted, and no record has more cells than there are
/// columns.
pub proof fn law_records_are_counted(intake: Intake, table: Table, rows: Seq<Fields>)
    requires
        table.wf(),
    ensures
        after_rows(intake, table, rows).rows == table.rows + records(intake, table, rows).len(),
        forall|k: int|
            0 <= k < records(intake, table, rows).len() ==> 0 < (#[trigger] records(
                intake,
                table,
                rows,
            )[k]).len() <= after_rows(intake, table, rows).fields.len(),
    decreases rows.len(),
{
    if rows.len() > 0 {
        let fewer = rows.drop_last();
        law_records_are_counted(intake, table, fewer);
        law_columns_stay(intake, table, fewer);
        let before = after_rows(intake, table, fewer);
        let after = after_rows(intake, table, rows);
        let earlier = records(intake, table, fewer);
        let all = records(intake, table, rows);
        assert(record(intake, before, rows.last()).len() == after.fields.len());
        assert forall|k: int| 0 <= k < all.len() implies 0 < (#[trigger] all[k]).len()
            <= after.fields.len() by {
            if k < earlier.len() {
                assert(all[k] == earlier[k]);
            }
        }
    }
}

/// Rows are taken once: when they have been taken, taking again changes nothing.
pub proof fn law_rows_are_taken_once(
    intake: Intake,
    table: Table,
    rows: Seq<(Text, Seq<Fields>)>,
    name: Text,
)
    ensures
        after_rows(intake, table, rows_in(emptied(rows), name)) == table,
        records(intake, table, rows_in(emptied(rows), name)).len() == 0,
{
    lemma_place_of(emptied(rows), name);
    assert(rows_in(emptied(rows), name).len() == 0);
}

/// The order of the columns holds every column exactly once.
pub proof fn law_order_holds_every_column_once(ranks: Seq<usize>, order: Seq<usize>, c: usize)
    requires
        is_order(ranks, order),
        c < ranks.len(),
    ensures
        order.contains(c),
        order.no_duplicates(),
{
    let n = ranks.len() as int;
    assert(order.no_duplicates()) by {
        assert forall|i: int, j: int| 0 <= i < order.len() && 0 <= j < order.len() && i
            != j implies order[i] != order[j] by {
            if i < j {
                assert(goes_before(ranks, order[i], order[j]));
            } else {
                assert(goes_before(ranks, order[j], order[i]));
            }
        }
    }
    let places = Seq::new(order.len(), |i: int| order[i] as int);
    assert(places.no_duplicates()) by {
        assert forall|i: int, j: int| 0 <= i < places.len() && 0 <= j < places.len() && i
            != j implies places[i] != places[j] by {
            assert(order[i] != order[j]);
        }
    }
    places.unique_seq_to_set();
    lemma_int_range(0, n);
    let all = set_int_range(0, n);
    assert(places.to_set().subset_of(all)) by {
        assert forall|x: int| places.to_set().contains(x) implies all.contains(x) by {
            let i = choose|i: int| 0 <= i < places.len() && places[i] == x;
            assert(order[i] < ranks.len());
        }
    }
    lemma_subset_equality(places.to_set(), all);
    assert(all.contains(c as int));
    assert(places.contains(c as int));
    let i = choose|i: int| 0 <= i < places.len() && places[i] == c as int;
    assert(order[i] == c);
}

/// There is one order of the columns.
pub proof fn law_there_is_one_order(ranks: Seq<usize>, a: Seq<usize>, b: Seq<usize>)
    requires
        is_order(ranks, a),
        is_order(ranks, b),
    ensures
        a == b,
{
    assert forall|c: usize| #[trigger] a.contains(c) <==> b.contains(c) by {
        if c < ranks.len() {
            law_order_holds_every_column_once(ranks, a, c);
            law_order_holds_every_column_once(ranks, b, c);
        } else {
            if a.contains(c) {
                let i = choose|i: int| 0 <= i < a.len() && a[i] == c;
                assert(a[i] < ranks.len());
            }
            if b.contains(c) {
                let i = choose|i: int| 0 <= i < b.len() && b[i] == c;
                assert(b[i] < ranks.len());
            }
        }
    }
    lemma_same_order(ranks, a, b);
}

proof fn lemma_same_order(ranks: Seq<usize>, a: Seq<usize>, b: Seq<usize>)
    requires
        a.len() == b.len(),
        forall|i: int, j: int|
            0 <= i < j < a.len() ==> goes_before(ranks, #[trigger] a[i], #[trigger] a[j]),
        forall|i: int, j: int|
            0 <= i < j < b.len() ==> goes_before(ranks, #[trigger] b[i], #[trigger] b[j]),
        forall|c: usize| #[trigger] a.contains(c) <==> b.contains(c),
    ensures
        a == b,
    decreases a.len(),
{
    if a.len() > 0 {
        assert(a.contains(a[0]));
        assert(b.contains(a[0]));
        let j = choose|j: int| 0 <= j < b.len() && b[j] == a[0];
        assert(b.contains(b[0]));
        assert(a.contains(b[0]));
        let i = choose|i: int| 0 <= i < a.len() && a[i] == b[0];
        if i > 0 && j > 0 {
            assert(goes_before(ranks, a[0], a[i]));
            assert(goes_before(ranks, b[0], b[j]));
        }
        assert(a[0] == b[0]);
        let c = a.skip(1);
        let d = b.skip(1);
        assert forall|x: int, y: int| 0 <= x < y < c.len() implies goes_before(
            ranks,
            #[trigger] c[x],
            #[trigger] c[y],
        ) by {
            assert(goes_before(ranks, a[x + 1], a[y + 1]));
        }
        assert forall|x: int, y: int| 0 <= x < y < d.len() implies goes_before(
            ranks,
            #[trigger] d[x],
            #[trigger] d[y],
        ) by {
            assert(goes_before(ranks, b[x + 1], b[y + 1]));
        }
        assert forall|name: usize| #[trigger] c.contains(name) <==> d.contains(name) by {
            if c.contains(name) {
                let x = choose|x: int| 0 <= x < c.len() && c[x] == name;
                assert(a[x + 1] == name);
                assert(goes_before(ranks, a[0], a[x + 1]));
                assert(a.contains(name));
                assert(b.contains(name));
                let y = choose|y: int| 0 <= y < b.len() && b[y] == name;
                assert(d[y - 1] == name);
            }
            if d.contains(name) {
                let x = choose|x: int| 0 <= x < d.len() && d[x] == name;
                assert(b[x + 1] == name);
                assert(goes_before(ranks, b[0], b[x + 1]));
                assert(b.contains(name));
                assert(a.contains(name));
                let y = choose|y: int| 0 <= y < a.len() && a[y] == name;
                assert(c[y - 1] == name);
            }
        }
        lemma_same_order(ranks, c, d);
        assert forall|x: int| 0 <= x < a.len() implies a[x] == b[x] by {
            if x > 0 {
                assert(c[x - 1] == d[x - 1]);
            }
        }
    }
    assert(a =~= b);
}

/// Links come first: before a link stands nothing but links and columns that a schema puts at the
/// very start.
pub proof fn law_links_come_first(
    order_map: Seq<(Text, usize)>,
    table: Table,
    order: Seq<usize>,
    i: int,
    j: int,
)
    requires
        is_order(ranks(order_map, table), order),
        0 <= i < j < order.len(),
        "_link"@.is_prefix_of(table.fields[order[j] as int]),
    ensures
        ({
            let field = table.fields[order[i] as int];
            ||| "_link"@.is_prefix_of(field)
            ||| has_key(order_map, table.label + field) && value_at(
                order_map,
                table.label + field,
            ) == 0
        }),
{
    let all = ranks(order_map, table);
    assert(order[i] < all.len() && order[j] < all.len());
    assert(goes_before(all, order[i], order[j]));
    assert(all[order[j] as int] == 0);
    assert(all[order[i] as int] == 0);
}

/// Marking takes nothing back, and marking again changes nothing.
pub proof fn law_marks_stay(table: Table, names: Seq<Text>, ignore: bool)
    ensures
        table.ignore ==> marked(table, names, ignore).ignore,
        forall|i: int|
            0 <= i < table.ignore_fields.len() && table.ignore_fields[i] ==> #[trigger] marked(
                table,
                names,
                ignore,
            ).ignore_fields[i],
        marked(marked(table, names, ignore), names, ignore) == marked(table, names, ignore),
{
    let once = marked(table, names, ignore);
    assert(marked(once, names, ignore) =~= once);
}

/// The columns of the main table that came from an array are left out once the array is known to
/// have had more than one item.
pub proof fn law_outgrown_columns_are_left_out(
    table: Table,
    paths: Seq<Seq<Text>>,
    separator: Text,
    ignore: bool,
    k: int,
    rest: Text,
    c: int,
)
    requires
        table.wf(),
        table.label.len() == 0,
        0 <= k < paths.len(),
        join(paths[k], separator).len() > 0,
        0 <= c < table.fields.len(),
        table.fields[c] == join(paths[k], separator) + rest,
    ensures
        marked(table, path_names(paths, separator), ignore).ignore_fields[c],
{
    let names = path_names(paths, separator);
    assert(table.label + table.fields[c] =~= names[k] + rest);
    assert(names[k] =~= (names[k] + rest).subrange(0, names[k].len() as int));
    assert(names[k].is_prefix_of(table.label + table.fields[c]));
    assert(outgrown(table.label, table.fields[c], names));
}

/// The table prefix is no part of the full paths of columns.
pub proof fn law_labels_are_without_the_prefix(
    rest: Text,
    main: Text,
    separator: Text,
    prefix: Text,
)
    requires
        prefix + rest != main,
    ensures
        label(prefix + rest, main, separator, prefix) == rest + separator,
{
    lemma_after_prefix(prefix, rest + separator);
    assert(prefix + rest + separator =~= prefix + (rest + separator));
    if prefix.len() == 0 {
        assert(prefix + rest =~= rest);
    }
}

/// A CSV file has as many cells in each record as in its header.
pub proof fn law_csv_is_rectangular(
    csv: CsvTable,
    preview: usize,
    name: Text,
    table: Table,
    row: Seq<Seq<u8>>,
)
    requires
        csv.writes(preview, name, table),
    ensures
        csv_cells(csv.columns@, row).len() == csv.header@.len(),
{
    assert(csv.header@.len() == texts(csv.header@).len());
}

/// The tables that are written have rows and are not left out, and come in the order of their
/// names.
pub proof fn lemma_written_tables(tables: Seq<(Text, Table)>)
    requires
        forall|i: int, j: int|
            0 <= i < j < tables.len() ==> precedes(
                (#[trigger] tables[i]).0,
                (#[trigger] tables[j]).0,
            ),
    ensures
        forall|k: int|
            0 <= k < only_written(tables).len() ==> {
                &&& (#[trigger] only_written(tables)[k]).1.rows > 0
                &&& !only_written(tables)[k].1.ignore
                &&& tables.contains(only_written(tables)[k])
            },
        forall|i: int|
            0 <= i < tables.len() && (#[trigger] tables[i]).1.rows > 0 && !tables[i].1.ignore
                ==> only_written(tables).contains(tables[i]),
        forall|i: int, j: int|
            0 <= i < j < only_written(tables).len() ==> precedes(
                (#[trigger] only_written(tables)[i]).0,
                (#[trigger] only_written(tables)[j]).0,
            ),
    decreases tables.len(),
{
    let all = only_written(tables);
    if tables.len() > 0 {
        let fewer = tables.drop_last();
        let earlier = only_written(fewer);
        let last = tables.last();
        assert forall|i: int, j: int| 0 <= i < j < fewer.len() implies precedes(
            (#[trigger] fewer[i]).0,
            (#[trigger] fewer[j]).0,
        ) by {
            assert(precedes(tables[i].0, tables[j].0));
        }
        lemma_written_tables(fewer);
        assert(tables[tables.len() - 1] == last);
        assert forall|k: int| 0 <= k < all.len() implies {
            &&& (#[trigger] all[k]).1.rows > 0
            &&& !all[k].1.ignore
            &&& tables.contains(all[k])
        } by {
            if k < earlier.len() {
                assert(all[k] == earlier[k]);
                let i = choose|i: int| 0 <= i < fewer.len() && fewer[i] == earlier[k];
                assert(tables[i] == all[k]);
            }
        }
        assert forall|i: int| 0 <= i < tables.len() && (#[trigger] tables[i]).1.rows > 0
            && !tables[i].1.ignore implies all.contains(tables[i]) by {
            if i < fewer.len() {
                assert(fewer[i] == tables[i]);
                let k = choose|k: int| 0 <= k < earlier.len() && earlier[k] == tables[i];
                assert(all[k] == tables[i]);
            } else {
                assert(all[earlier.len() as int] == tables[i]);
            }
        }
        assert forall|i: int, j: int| 0 <= i < j < all.len() implies precedes(
            (#[trigger] all[i]).0,
            (#[trigger] all[j]).0,
        ) by {
            assert(all[i] == earlier[i]);
            if j < earlier.len() {
                assert(all[j] == earlier[j]);
            } else {
                let p = choose|p: int| 0 <= p < fewer.len() && fewer[p] == earlier[i];
                assert(precedes(tables[p].0, tables[tables.len() - 1].0));
            }
        }
    }
}

/// What is written are the known tables that have rows and are not left out, in the order of their
/// names.
pub proof fn law_written_tables_are_listed(files: FlatFiles, table: Text)
    requires
        is_listing(listing(files.table_metadata.view()), files.table_metadata.view()),
    ensures
        files.written().contains((table, files.known(table))) <==> has_key(
            files.table_metadata.view(),
            table,
        ) && files.known(table).rows > 0 && !files.known(table).ignore,
        forall|i: int, j: int|
            0 <= i < j < files.written().len() ==> precedes(
                (#[trigger] files.written()[i]).0,
                (#[trigger] files.written()[j]).0,
            ),
{
    let names = listing(files.table_metadata.view());
    let tables = files.known_tables(names);
    assert forall|i: int, j: int| 0 <= i < j < tables.len() implies precedes(
        (#[trigger] tables[i]).0,
        (#[trigger] tables[j]).0,
    ) by {
        assert(precedes(names[i], names[j]));
    }
    lemma_written_tables(tables);
    let entry = (table, files.known(table));
    let written = files.written();
    if written.contains(entry) {
        let k = choose|k: int| 0 <= k < written.len() && written[k] == entry;
        assert(written[k].1.rows > 0);
        let i = choose|i: int| 0 <= i < tables.len() && tables[i] == written[k];
        assert(names[i] == table);
        assert(names.contains(table));
    }
    if has_key(files.table_metadata.view(), table) && entry.1.rows > 0 && !entry.1.ignore {
        assert(names.contains(table));
        let i = choose|i: int| 0 <= i < names.len() && names[i] == table;
        assert(tables[i] == entry);
    }
}

/// Rows may be taken in one batch or in two: the table and the records are the same.
pub proof fn law_batches_do_not_matter(
    intake: Intake,
    table: Table,
    first: Seq<Fields>,
    second: Seq<Fields>,
)
    ensures
        after_rows(intake, after_rows(intake, table, first), second) == after_rows(
            intake,
            table,
            first + second,
        ),
        records(intake, table, first) + records(
            intake,
            after_rows(intake, table, first),
            second,
        ) == records(intake, table, first + second),
    decreases second.len(),
{
    let all = first + second;
    let middle = after_rows(intake, table, first);
    if second.len() == 0 {
        assert(all =~= first);
        assert(records(intake, table, first) + records(intake, middle, second) =~= records(
            intake,
            table,
            first,
        ));
    } else {
        let fewer = second.drop_last();
        law_batches_do_not_matter(intake, table, first, fewer);
        assert(all.drop_last() =~= first + fewer);
        assert(all.last() == second.last());
        assert(records(intake, table, first) + records(intake, middle, second) =~= records(
            intake,
            table,
            all,
        ));
    }
}

/// Whether a column that is read from the list of columns is what its record says: an empty title
/// is none.
pub open spec fn reads(column: FieldsRecord, record: Seq<Text>) -> bool {
    &&& column.table_name@ == record[0]
    &&& column.field_name@ == record[1]
    &&& column.field_type@ == record[2]
    &&& match column.field_title {
        Some(title) => title@ == record[3] && record[3].len() > 0,
        None => record[3].len() == 0,
    }
}

/// Whether columns are those read from the records behind the header of a list.
pub open spec fn reads_all(columns: Seq<FieldsRecord>, list: Seq<Seq<Text>>) -> bool {
    &&& columns.len() + 1 == list.len()
    &&& forall|i: int| 0 <= i < columns.len() ==> reads(#[trigger] columns[i], list[i + 1])
}

/// A table that has the columns of another one that are written, in their order, and no rows.
pub open spec fn only_columns(table: Table, label: Text, output_path: Text) -> Table {
    Table {
        fields: picked(table.fields, table.columns()),
        field_type: picked(table.field_type, table.columns()),
        field_titles: picked(table.field_titles, table.columns()),
        field_counts: Seq::new(table.columns().len(), |i: int| 0nat),
        ignore_fields: Seq::new(table.columns().len(), |i: int| false),
        ..blank(label, output_path)
    }
}

/// The records of a table take their columns into that table one after the other.
proof fn lemma_read_records(
    columns: Seq<FieldsRecord>,
    start: int,
    name: Text,
    table: Table,
    to: Table,
    n: int,
)
    requires
        0 <= start,
        0 <= n <= table.columns().len(),
        start + n <= columns.len(),
        forall|k: int|
            0 <= k < table.columns().len() ==> table.field_titles[(
            #[trigger] table.columns()[k]) as int].len() > 0,
        forall|k: int|
            0 <= k < n ==> reads(
                #[trigger] columns[start + k],
                field_record(name, table, table.columns()[k]),
            ),
        with_fields(to, columns.take(start), name) == blank(to.label, to.output_path),
    ensures
        with_fields(to, columns.take(start + n), name) == (Table {
            fields: picked(table.fields, table.columns().take(n)),
            field_type: picked(table.field_type, table.columns().take(n)),
            field_titles: picked(table.field_titles, table.columns().take(n)),
            field_counts: Seq::new(n as nat, |i: int| 0nat),
            ignore_fields: Seq::new(n as nat, |i: int| false),
            ..blank(to.label, to.output_path)
        }),
    decreases n,
{
    let shown = table.columns();
    if n == 0 {
        assert((Table {
            fields: picked(table.fields, shown.take(n)),
            field_type: picked(table.field_type, shown.take(n)),
            field_titles: picked(table.field_titles, shown.take(n)),
            field_counts: Seq::new(n as nat, |i: int| 0nat),
            ignore_fields: Seq::new(n as nat, |i: int| false),
            ..blank(to.label, to.output_path)
        }) =~= blank(to.label, to.output_path));
    } else {
        let m = n - 1;
        lemma_read_records(columns, start, name, table, to, m);
        let part = columns.take(start + n);
        assert(part.drop_last() =~= columns.take(start + m));
        assert(part.last() == columns[start + m]);
        let column = columns[start + m];
        assert(reads(column, field_record(name, table, shown[m])));
        let before = with_fields(to, columns.take(start + m), name);
        let after = with_field(before, column);
        assert(table.field_titles[shown[m] as int].len() > 0);
        assert(column.title() == table.field_titles[shown[m] as int]);
        assert(after.fields =~= picked(table.fields, shown.take(n)));
        assert(after.field_type =~= picked(table.field_type, shown.take(n)));
        assert(after.field_titles =~= picked(table.field_titles, shown.take(n)));
        assert(after.field_counts =~= Seq::new(n as nat, |i: int| 0nat));
        assert(after.ignore_fields =~= Seq::new(n as nat, |i: int| false));
    }
}

/// The list of columns can be read back: the columns that it gives a table are those of the table
/// that were written, with their types and titles, in their order, and it gives columns to no other
/// table. Titles must not be empty, since an empty one is read as none.
#[verifier::rlimit(40)]
pub proof fn law_columns_are_read_back(
    tables: Seq<(Text, Table)>,
    columns: Seq<FieldsRecord>,
    name: Text,
    label: Text,
    output_path: Text,
)
    requires
        forall|i: int, j: int|
            0 <= i < j < tables.len() ==> (#[trigger] tables[i]).0 != (#[trigger] tables[j]).0,
        forall|i: int, k: int|
            0 <= i < tables.len() && 0 <= k < tables[i].1.columns().len()
                ==> tables[i].1.field_titles[(
            #[trigger] tables[i].1.columns()[k]) as int].len() > 0,
        reads_all(columns, field_list(tables)),
    ensures
        forall|i: int|
            0 <= i < tables.len() && (#[trigger] tables[i]).0 == name ==> with_fields(
                blank(label, output_path),
                columns,
                name,
            ) == only_columns(tables[i].1, label, output_path),
        (forall|i: int| 0 <= i < tables.len() ==> (#[trigger] tables[i]).0 != name) ==> with_fields(
            blank(label, output_path),
            columns,
            name,
        ) == blank(label, output_path),
        names_table(columns, name) <==> exists|i: int|
            0 <= i < tables.len() && (#[trigger] tables[i]).0 == name
                && tables[i].1.columns().len() > 0,
    decreases tables.len(),
{
    let to = blank(label, output_path);
    let list = field_list(tables);
    if tables.len() == 0 {
        assert(columns.len() == 0);
    } else {
        let fewer = tables.drop_last();
        let last = tables.last();
        let earlier = field_list(fewer);
        let records = field_records(last.0, last.1);
        let start = earlier.len() - 1;
        let n = last.1.columns().len() as int;
        lemma_field_list_len(fewer);
        let part = columns.take(start);
        assert(columns.len() == start + n);
        assert forall|i: int, j: int| 0 <= i < j < fewer.len() implies (#[trigger] fewer[i]).0 != (
        #[trigger] fewer[j]).0 by {
            assert(tables[i].0 != tables[j].0);
        }
        assert forall|i: int, k: int|
            0 <= i < fewer.len() && 0 <= k < fewer[i].1.columns().len() implies fewer[i].1.field_titles[(
        #[trigger] fewer[i].1.columns()[k]) as int].len() > 0 by {
            assert(tables[i].1.field_titles[(tables[i].1.columns()[k]) as int].len() > 0);
        }
        assert forall|i: int| 0 <= i < part.len() implies reads(
            #[trigger] part[i],
            earlier[i + 1],
        ) by {
            assert(reads(columns[i], list[i + 1]));
            assert(list[i + 1] == earlier[i + 1]);
        }
        law_columns_are_read_back(fewer, part, name, label, output_path);
        assert forall|k: int| 0 <= k < n implies reads(
            #[trigger] columns[start + k],
            field_record(last.0, last.1, last.1.columns()[k]),
        ) by {
            assert(reads(columns[start + k], list[start + k + 1]));
            assert(list[start + k + 1] == records[k]);
        }
        assert forall|k: int| 0 <= k < n implies last.1.field_titles[(
        #[trigger] last.1.columns()[k]) as int].len() > 0 by {
            let i = tables.len() - 1;
            assert(tables[i].1.field_titles[(tables[i].1.columns()[k]) as int].len() > 0);
        }
        assert(tables[tables.len() - 1] == last);
        assert(columns.take(start + n) =~= columns);
        let so_far = with_fields(to, part, name);
        if last.0 == name {
            assert forall|i: int| 0 <= i < fewer.len() implies (#[trigger] fewer[i]).0 != name by {
                assert(tables[i].0 != tables[tables.len() - 1].0);
            }
            assert(so_far == to);
            lemma_read_records(columns, start, last.0, last.1, to, n);
            assert(last.1.columns().take(n) =~= last.1.columns());
        } else {
            lemma_read_none(columns, start, last.0, last.1, to, name, n);
        }
        assert forall|i: int|
            0 <= i < tables.len() && (#[trigger] tables[i]).0 == name implies with_fields(
            to,
            columns,
            name,
        ) == only_columns(tables[i].1, label, output_path) by {
            if i < fewer.len() {
                assert(fewer[i] == tables[i]);
                assert(tables[i].0 != tables[tables.len() - 1].0);
            }
        }
        if forall|i: int| 0 <= i < tables.len() ==> (#[trigger] tables[i]).0 != name {
            assert forall|i: int| 0 <= i < fewer.len() implies (#[trigger] fewer[i]).0 != name by {
                assert(tables[i].0 != name);
            }
        }
        if names_table(columns, name) {
            let i = choose|i: int|
                0 <= i < columns.len() && (#[trigger] columns[i]).table_name@ == name;
            if i < start {
                assert(part[i].table_name@ == name);
                let p = choose|p: int|
                    0 <= p < fewer.len() && (#[trigger] fewer[p]).0 == name
                        && fewer[p].1.columns().len() > 0;
                assert(tables[p] == fewer[p]);
            } else {
                assert(reads(
                    columns[start + (i - start)],
                    field_record(last.0, last.1, last.1.columns()[i - start]),
                ));
                assert(tables[tables.len() - 1].0 == name);
            }
        }
        if exists|i: int|
            0 <= i < tables.len() && (#[trigger] tables[i]).0 == name
                && tables[i].1.columns().len() > 0 {
            let p = choose|p: int|
                0 <= p < tables.len() && (#[trigger] tables[p]).0 == name
                    && tables[p].1.columns().len() > 0;
            if p < fewer.len() {
                assert(fewer[p].0 == name);
                let i = choose|i: int|
                    0 <= i < part.len() && (#[trigger] part[i]).table_name@ == name;
                assert(columns[i].table_name@ == name);
            } else {
                assert(reads(
                    columns[start + 0],
                    field_record(last.0, last.1, last.1.columns()[0]),
                ));
                assert(columns[start].table_name@ == name);
            }
        }
    }
}

/// The list of columns has its header.
proof fn lemma_field_list_len(tables: Seq<(Text, Table)>)
    ensures
        field_list(tables).len() > 0,
    decreases tables.len(),
{
    if tables.len() > 0 {
        lemma_field_list_len(tables.drop_last());
    }
}

/// Records of one table take nothing into another.
proof fn lemma_read_none(
    columns: Seq<FieldsRecord>,
    start: int,
    name: Text,
    table: Table,
    to: Table,
    other: Text,
    n: int,
)
    requires
        0 <= start,
        0 <= n <= table.columns().len(),
        start + n <= columns.len(),
        other != name,
        forall|k: int|
            0 <= k < n ==> reads(
                #[trigger] columns[start + k],
                field_record(name, table, table.columns()[k]),
            ),
    ensures
        with_fields(to, columns.take(start + n), other) == with_fields(
            to,
            columns.take(start),
            other,
        ),
    decreases n,
{
    if n > 0 {
        let m = n - 1;
        lemma_read_none(columns, start, name, table, to, other, m);
        let part = columns.take(start + n);
        assert(part.drop_last() =~= columns.take(start + m));
        assert(part.last() == columns[start + m]);
    }
}

/// The list of columns that is written can be read back into tables of which nothing is known yet:
/// a table that was written has then its written columns again, in their order, and no rows.
pub proof fn law_written_columns_are_read_back(
    files: FlatFiles,
    others: FlatFiles,
    columns: Seq<FieldsRecord>,
    name: Text,
)
    requires
        is_listing(listing(files.table_metadata.view()), files.table_metadata.view()),
        forall|i: int, k: int|
            0 <= i < files.written().len() && 0 <= k < files.written()[i].1.columns().len()
                ==> files.written()[i].1.field_titles[(
            #[trigger] files.written()[i].1.columns()[k]) as int].len() > 0,
        reads_all(columns, field_list(files.written())),
        others.table_metadata.view().len() == 0,
    ensures
        files.written().contains((name, files.known(name))) ==> with_fields(
            others.known(name),
            columns,
            name,
        ) == only_columns(
            files.known(name),
            others.label_of(name),
            path_below(others.output_path@, tmp_file(name)),
        ),
        names_table(columns, name) <==> files.written().contains((name, files.known(name)))
            && files.known(name).columns().len() > 0,
{
    let written = files.written();
    law_written_tables_are_listed(files, name);
    assert forall|i: int, j: int| 0 <= i < j < written.len() implies (#[trigger] written[i]).0 != (
    #[trigger] written[j]).0 by {
        assert(precedes(written[i].0, written[j].0));
        lemma_precedes_one_way(written[i].0, written[i].0);
    }
    let label = others.label_of(name);
    let output_path = path_below(others.output_path@, tmp_file(name));
    law_columns_are_read_back(written, columns, name, label, output_path);
    let entry = (name, files.known(name));
    if written.contains(entry) {
        let i = choose|i: int| 0 <= i < written.len() && written[i] == entry;
        assert(written[i].0 == name);
    }
    assert forall|i: int| 0 <= i < written.len() implies (#[trigger] written[i]).1 == files.known(
        written[i].0,
    ) by {
        lemma_only_known(files, listing(files.table_metadata.view()), i);
    }
    if exists|i: int|
        0 <= i < written.len() && (#[trigger] written[i]).0 == name
            && written[i].1.columns().len() > 0 {
        let i = choose|i: int|
            0 <= i < written.len() && (#[trigger] written[i]).0 == name
                && written[i].1.columns().len() > 0;
        assert(written[i] == entry);
    }
}

/// What is written of a table is what is known of it.
proof fn lemma_only_known(files: FlatFiles, names: Seq<Text>, i: int)
    requires
        0 <= i < only_written(files.known_tables(names)).len(),
    ensures
        only_written(files.known_tables(names))[i].1 == files.known(
            only_written(files.known_tables(names))[i].0,
        ),
    decreases names.len(),
{
    let tables = files.known_tables(names);
    let fewer = names.drop_last();
    assert(tables.drop_last() =~= files.known_tables(fewer));
    if i < only_written(files.known_tables(fewer)).len() {
        lemma_only_known(files, fewer, i);
    }
}

/// The columns that are read back can be used: each is for a table that can have a label under the
/// same names, separator and prefix.
pub proof fn law_read_back_columns_can_be_used(
    files: FlatFiles,
    others: FlatFiles,
    columns: Seq<FieldsRecord>,
    i: int,
)
    requires
        files.wf(),
        is_listing(listing(files.table_metadata.view()), files.table_metadata.view()),
        forall|i: int, k: int|
            0 <= i < files.written().len() && 0 <= k < files.written()[i].1.columns().len()
                ==> files.written()[i].1.field_titles[(
            #[trigger] files.written()[i].1.columns()[k]) as int].len() > 0,
        reads_all(columns, field_list(files.written())),
        others.table_metadata.view().len() == 0,
        others.main_table_name@ == files.main_table_name@,
        others.path_separator@ == files.path_separator@,
        others.table_prefix@ == files.table_prefix@,
        0 <= i < columns.len(),
    ensures
        others.labels(columns[i].table_name@),
{
    let name = columns[i].table_name@;
    let tables = files.table_metadata.view();
    law_written_columns_are_read_back(files, others, columns, name);
    assert(names_table(columns, name));
    law_written_tables_are_listed(files, name);
    assert(has_key(tables, name));
    let p = choose|p: int| 0 <= p < tables.len() && #[trigger] tables[p].0 == name;
    assert(files.labels(tables[p].0));
}

} // verus!

//! What holds of columns: of their types, names and titles, and of the cells under them.

use crate::convert::{cell_text, is_dated, pattern_matches, type_after};
use crate::metadata::Table;
use crate::rows::{after_row, after_rows, fresh, held, record, records, repeats, unknown, Intake};
use crate::table_laws::{
    holders, law_cells_stand_under_their_columns, law_columns_stay, law_members_have_columns,
    lemma_some_holder, lemma_unknown, rows_distinct,
};
use crate::text::Text;
use crate::value::{distinct, has_key, json_text, value_at, Fields, Json};
use vstd::prelude::*;

verus! {

/// What rows hold in a column, one after the other.
pub open spec fn met(rows: Seq<Fields>, name: Text) -> Seq<Json>
    decreases rows.len(),
{
    if rows.len() == 0 {
        Seq::empty()
    } else if has_key(rows.last(), name) {
        met(rows.drop_last(), name).push(value_at(rows.last(), name))
    } else {
        met(rows.drop_last(), name)
    }
}

/// Whether a value makes its column one of texts: a string in which the pattern of dates is not found,
/// an array or an object.
pub open spec fn textual(pattern: Text, value: Json) -> bool {
    match value {
        Json::Str(text) => !pattern_matches(pattern, text),
        Json::Array(_) => true,
        Json::Object(_) => true,
        _ => false,
    }
}

/// The type of a column that had the type `start` before it met some values: text, once one of them is
/// textual or the column was one of texts; else what the last value besides null is; else, where
/// there were only nulls, the type that it had, or null in place of none.
pub open spec fn fits_values(pattern: Text, start: Text, values: Seq<Json>, ty: Text) -> bool {
    &&& start == "text"@ ==> ty == "text"@
    &&& forall|i: int| 0 <= i < values.len() && textual(pattern, #[trigger] values[i]) ==> ty == "text"@
    &&& forall|i: int|
        {
            &&& start != "text"@
            &&& forall|j: int| 0 <= j < values.len() ==> !textual(pattern, #[trigger] values[j])
            &&& 0 <= i < values.len()
            &&& !((#[trigger] values[i]) is Null)
            &&& forall|j: int| i < j < values.len() ==> (#[trigger] values[j]) is Null
        } ==> match values[i] {
            Json::Number(_) => ty == "number"@,
            Json::Bool(_) => ty == "boolean"@,
            _ => ty == "date"@,
        }
    &&& (forall|i: int| 0 <= i < values.len() ==> (#[trigger] values[i]) is Null) ==> ty == (if start
        == ""@ && values.len() > 0 {
        "null"@
    } else {
        start
    })
}

/// The names of the types differ.
proof fn lemma_types_differ()
    ensures
        "text"@ != ""@,
        "text"@ != "null"@,
        "text"@ != "date"@,
        "text"@ != "number"@,
        "text"@ != "boolean"@,
        "null"@ != ""@,
{
    reveal_strlit("");
    reveal_strlit("text");
    reveal_strlit("null");
    reveal_strlit("date");
    reveal_strlit("number");
    reveal_strlit("boolean");
    assert("text"@.len() == 4 && "null"@.len() == 4 && "number"@.len() == 6);
    assert("boolean"@.len() == 7 && "date"@.len() == 4 && ""@.len() == 0);
    assert("text"@[0] == 't' && "null"@[0] == 'n' && "date"@[0] == 'd');
}

/// One value more, and the type that follows from it.
proof fn lemma_one_value_more(pattern: Text, start: Text, values: Seq<Json>, ty: Text, value: Json)
    requires
        fits_values(pattern, start, values, ty),
    ensures
        fits_values(
            pattern,
            start,
            values.push(value),
            type_after(ty, value, is_dated(pattern, value)),
        ),
{
    lemma_types_differ();
    let all = values.push(value);
    let after = type_after(ty, value, is_dated(pattern, value));
    let n = values.len() as int;
    assert(all[n] == value);
    assert(forall|i: int| 0 <= i < n ==> #[trigger] all[i] == values[i]);
    assert forall|i: int| 0 <= i < all.len() && textual(pattern, #[trigger] all[i]) implies after
        == "text"@ by {
        if i < n {
            assert(textual(pattern, values[i]));
        }
    }
    let plain = forall|j: int| 0 <= j < all.len() ==> !textual(pattern, #[trigger] all[j]);
    if start != "text"@ && plain {
        assert forall|j: int| 0 <= j < n implies !textual(pattern, #[trigger] values[j]) by {
            assert(!textual(pattern, all[j]));
        }
        assert(!textual(pattern, all[n]));
        assert(ty != "text"@) by {
            lemma_not_text(pattern, start, values, ty);
        }
        assert forall|i: int|
            {
                &&& 0 <= i < all.len()
                &&& !((#[trigger] all[i]) is Null)
                &&& forall|j: int| i < j < all.len() ==> (#[trigger] all[j]) is Null
            } implies match all[i] {
            Json::Number(_) => after == "number"@,
            Json::Bool(_) => after == "boolean"@,
            _ => after == "date"@,
        } by {
            if i < n {
                assert(all[n] is Null);
                assert(values[i] == all[i]);
                assert forall|j: int| i < j < n implies (#[trigger] values[j]) is Null by {
                    assert(all[j] is Null);
                }
                lemma_last_value(pattern, start, values, ty, i);
            }
        }
    }
    if forall|i: int| 0 <= i < all.len() ==> (#[trigger] all[i]) is Null {
        assert(all[n] is Null);
        assert forall|i: int| 0 <= i < n implies (#[trigger] values[i]) is Null by {
            assert(all[i] is Null);
        }
    }
}

/// The last value besides null gives the type, and it is not that of null.
proof fn lemma_last_value(pattern: Text, start: Text, values: Seq<Json>, ty: Text, i: int)
    requires
        fits_values(pattern, start, values, ty),
        start != "text"@,
        forall|j: int| 0 <= j < values.len() ==> !textual(pattern, #[trigger] values[j]),
        0 <= i < values.len(),
        !(values[i] is Null),
        forall|j: int| i < j < values.len() ==> (#[trigger] values[j]) is Null,
    ensures
        match values[i] {
            Json::Number(_) => ty == "number"@,
            Json::Bool(_) => ty == "boolean"@,
            _ => ty == "date"@,
        },
        ty != ""@,
{
    reveal_strlit("");
    reveal_strlit("date");
    reveal_strlit("number");
    reveal_strlit("boolean");
    assert("number"@.len() == 6 && "boolean"@.len() == 7 && "date"@.len() == 4 && ""@.len() == 0);
}

/// The place of the last value besides null, if there is one.
proof fn lemma_find_last(values: Seq<Json>) -> (i: int)
    ensures
        -1 <= i < values.len(),
        i >= 0 ==> !(values[i] is Null),
        forall|j: int| i < j < values.len() ==> (#[trigger] values[j]) is Null,
    decreases values.len(),
{
    if values.len() == 0 {
        -1
    } else if values.last() is Null {
        let i = lemma_find_last(values.drop_last());
        assert forall|j: int| i < j < values.len() implies (#[trigger] values[j]) is Null by {
            if j < values.len() - 1 {
                assert(values.drop_last()[j] is Null);
            }
        }
        i
    } else {
        values.len() - 1
    }
}

/// A column is one of texts only where it was one or met something textual.
proof fn lemma_not_text(pattern: Text, start: Text, values: Seq<Json>, ty: Text)
    requires
        fits_values(pattern, start, values, ty),
        start != "text"@,
        forall|j: int| 0 <= j < values.len() ==> !textual(pattern, #[trigger] values[j]),
    ensures
        ty != "text"@,
{
    lemma_types_differ();
    let i = lemma_find_last(values);
    if i >= 0 {
        lemma_last_value(pattern, start, values, ty, i);
    }
}

/// Taking rows keeps the columns distinct.
proof fn lemma_columns_distinct(intake: Intake, table: Table, rows: Seq<Fields>)
    requires
        table.wf(),
        rows_distinct(rows),
        table.fields.no_duplicates(),
    ensures
        after_rows(intake, table, rows).fields.no_duplicates(),
    decreases rows.len(),
{
    if rows.len() > 0 {
        let fewer = rows.drop_last();
        lemma_fewer_distinct(rows);
        lemma_columns_distinct(intake, table, fewer);
        let before = after_rows(intake, table, fewer);
        let after = after_rows(intake, table, rows);
        assert(distinct(rows[rows.len() - 1]));
        if after.fields.len() > 0 {
            law_cells_stand_under_their_columns(intake, before, rows.last(), 0);
        }
    }
}

proof fn lemma_fewer_distinct(rows: Seq<Fields>)
    requires
        rows_distinct(rows),
        rows.len() > 0,
    ensures
        rows_distinct(rows.drop_last()),
        distinct(rows.last()),
{
    let fewer = rows.drop_last();
    assert forall|j: int| 0 <= j < fewer.len() implies distinct(#[trigger] fewer[j]) by {
        assert(distinct(rows[j]));
    }
    assert(distinct(rows[rows.len() - 1]));
}

/// Rows hold something in a column as often as the column has holders.
proof fn lemma_met_len(rows: Seq<Fields>, name: Text)
    ensures
        met(rows, name).len() == holders(rows, name),
    decreases rows.len(),
{
    if rows.len() > 0 {
        lemma_met_len(rows.drop_last(), name);
    }
}

/// The type of a column is that of the values met in it: text, once a string that is no date, an array
/// or an object was among them, whatever the type was before; else that of the last one besides null.
/// So a column is one of dates only as long as the last value in it is a date.
pub proof fn law_types_are_those_of_the_values(
    intake: Intake,
    table: Table,
    rows: Seq<Fields>,
    c: int,
)
    requires
        table.wf(),
        rows_distinct(rows),
        table.fields.no_duplicates(),
        0 <= c < after_rows(intake, table, rows).fields.len(),
    ensures
        fits_values(
            intake.pattern,
            if c < table.fields.len() {
                table.field_type[c]
            } else {
                ""@
            },
            met(rows, after_rows(intake, table, rows).fields[c]),
            after_rows(intake, table, rows).field_type[c],
        ),
    decreases rows.len(),
{
    let pattern = intake.pattern;
    let start = if c < table.fields.len() {
        table.field_type[c]
    } else {
        ""@
    };
    if rows.len() > 0 {
        let fewer = rows.drop_last();
        let row = rows.last();
        let before = after_rows(intake, table, fewer);
        let after = after_rows(intake, table, rows);
        lemma_fewer_distinct(rows);
        law_columns_stay(intake, table, fewer);
        law_columns_stay(intake, table, rows);
        lemma_columns_distinct(intake, table, fewer);
        let name = after.fields[c];
        if c < before.fields.len() {
            law_types_are_those_of_the_values(intake, table, fewer, c);
            assert(before.fields[c] == name);
            assert(!repeats(before.fields, c));
            if has_key(row, name) {
                let value = value_at(row, name);
                assert(held(before.fields, row, c) == Some(value));
                lemma_one_value_more(
                    pattern,
                    start,
                    met(fewer, name),
                    before.field_type[c],
                    value,
                );
            }
        } else {
            law_cells_stand_under_their_columns(intake, before, row, c);
            lemma_met_len(fewer, name);
            lemma_new_member(intake, before, row, c);
            if holders(fewer, name) > 0 {
                let i = lemma_some_holder(fewer, name);
                let p = choose|p: int| 0 <= p < fewer[i].len() && #[trigger] fewer[i][p].0 == name;
                law_members_have_columns(intake, table, fewer, i, p);
                assert(before.fields.contains(name));
                let d = choose|d: int| 0 <= d < before.fields.len() && before.fields[d] == name;
                assert(after.fields[d] == name);
                assert(after.fields[c] == name);
            }
            let value = value_at(row, name);
            assert(met(fewer, name) =~= Seq::<Json>::empty());
            assert(fits_values(pattern, start, Seq::empty(), ""@)) by {
                lemma_types_differ();
            }
            lemma_one_value_more(pattern, start, Seq::empty(), ""@, value);
            assert(met(rows, name) =~= Seq::<Json>::empty().push(value));
        }
    }
}

/// What a new column holds is what the row holds under its name.
proof fn lemma_new_member(intake: Intake, table: Table, row: Fields, c: int)
    requires
        distinct(row),
        table.field_type.len() == table.fields.len(),
        table.fields.len() <= c < after_row(intake, table, row).fields.len(),
    ensures
        !intake.only_fields,
        ({
            let after = after_row(intake, table, row);
            let name = after.fields[c];
            let value = value_at(row, name);
            &&& has_key(row, name)
            &&& after.field_type[c] == type_after(""@, value, is_dated(intake.pattern, value))
        }),
{
    let new = fresh(intake, table, row);
    let j = c - table.fields.len();
    lemma_unknown(table.fields, row);
    assert(after_row(intake, table, row).fields[c] == new[j].0);
}

/// New columns come in the order of the row: they are its members that no column was for, each with
/// the title given for its full path, or its own name.
pub proof fn law_new_columns(intake: Intake, table: Table, row: Fields)
    requires
        !intake.only_fields,
        table.wf(),
    ensures
        ({
            let after = after_row(intake, table, row);
            let new = row.filter(|member: (Text, Json)| !table.fields.contains(member.0));
            let n = table.fields.len();
            &&& after.fields.len() == n + new.len()
            &&& after.label == table.label
            &&& forall|i: int|
                0 <= i < new.len() ==> {
                    &&& #[trigger] after.fields[n + i] == new[i].0
                    &&& !after.ignore_fields[n + i]
                    &&& has_key(intake.titles, table.label + new[i].0) ==> after.field_titles[n + i]
                        == value_at(intake.titles, table.label + new[i].0)@
                    &&& !has_key(intake.titles, table.label + new[i].0) ==> after.field_titles[n + i]
                        == new[i].0
                }
        }),
{
    lemma_unknown_is_filter(table.fields, row);
}

proof fn lemma_unknown_is_filter(names: Seq<Text>, row: Fields)
    ensures
        unknown(names, row) == row.filter(|member: (Text, Json)| !names.contains(member.0)),
    decreases row.len(),
{
    reveal(Seq::filter);
    if row.len() > 0 {
        lemma_unknown_is_filter(names, row.drop_last());
    }
}

/// Every row makes a record and is counted, once the table has a column: the record holds the cells of
/// the row, as the columns were then.
pub proof fn law_every_row_makes_a_record(intake: Intake, table: Table, rows: Seq<Fields>, k: int)
    requires
        table.wf(),
        table.fields.len() > 0,
        0 <= k < rows.len(),
    ensures
        after_rows(intake, table, rows).rows == table.rows + rows.len(),
        records(intake, table, rows).len() == rows.len(),
        records(intake, table, rows)[k] == record(
            intake,
            after_rows(intake, table, rows.take(k)),
            rows[k],
        ),
    decreases rows.len(),
{
    let fewer = rows.drop_last();
    let before = after_rows(intake, table, fewer);
    law_columns_stay(intake, table, fewer);
    assert(before.fields.len() > 0);
    assert(record(intake, before, rows.last()).len() > 0);
    reveal_with_fuel(records, 2);
    if k < fewer.len() {
        law_every_row_makes_a_record(intake, table, fewer, k);
        assert(fewer.take(k) =~= rows.take(k));
    } else {
        if fewer.len() > 0 {
            law_every_row_makes_a_record(intake, table, fewer, 0);
        }
        assert(rows.take(k) =~= fewer);
    }
}

/// A table without columns gets its first ones from the first row that may give it any; a row before
/// that makes no record and is not counted.
pub proof fn law_first_row_with_columns(intake: Intake, table: Table, row: Fields)
    requires
        table.wf(),
        table.fields.len() == 0,
    ensures
        ({
            let after = after_row(intake, table, row);
            if intake.only_fields || row.len() == 0 {
                &&& after == table
                &&& records(intake, table, seq![row]).len() == 0
            } else {
                &&& after.rows == table.rows + 1
                &&& after.fields == Seq::new(row.len(), |i: int| row[i].0)
                &&& records(intake, table, seq![row]) == seq![record(intake, table, row)]
            }
        }),
{
    reveal_with_fuel(records, 2);
    let rows = seq![row];
    assert(rows.drop_last() =~= Seq::<Fields>::empty());
    lemma_unknown_is_all(row);
    assert(table.fields =~= Seq::<Text>::empty());
    let after = after_row(intake, table, row);
    let new = fresh(intake, table, row);
    assert(after.fields =~= Seq::new(new.len(), |i: int| new[i].0));
    if new.len() == 0 {
        assert(after =~= table);
    }
}

proof fn lemma_unknown_is_all(row: Fields)
    ensures
        unknown(Seq::empty(), row) == row,
    decreases row.len(),
{
    if row.len() > 0 {
        lemma_unknown_is_all(row.drop_last());
    }
}

/// A column that has the name of an earlier one takes nothing from a row.
pub proof fn law_repeated_columns_stay_empty(intake: Intake, table: Table, row: Fields, j: int, c: int)
    requires
        0 <= j < c < table.fields.len(),
        table.fields[j] == table.fields[c],
    ensures
        record(intake, table, row)[c] == ""@,
{
    assert(repeats(table.fields, c));
}

/// The texts of values in cells: nothing for null, strings and numbers as they are, and arrays and
/// objects as JSON.
pub proof fn law_cells_show_values(text: Text, items: Seq<Json>, members: Fields)
    ensures
        cell_text(Json::Null) == ""@,
        cell_text(Json::Bool(true)) == "true"@,
        cell_text(Json::Bool(false)) == "false"@,
        cell_text(Json::Number(text)) == text,
        cell_text(Json::Str(text)) == text,
        cell_text(Json::Array(items)) == json_text(Json::Array(items)),
        cell_text(Json::Object(members)) == json_text(Json::Object(members)),
{
}

} // verus!

//! How rows are taken into a table.

use crate::convert::{cell_text, is_dated, pattern_of, type_after, value_convert};
use crate::metadata::{counts, Table, TableMetadata};
use crate::text::{texts, Text};
use crate::value::{
    distinct, fields, has_key, lemma_entry_found, lemma_fields_change, lemma_fields_keys,
    lemma_place_of, place_of, value_at, Fields, Json, NameMap, Object, Value,
};
use regex::Regex;
use vstd::prelude::*;

verus! {

/// What the taking of rows goes by: whether only columns that are known already are filled, the
/// titles of columns by their full paths, and the pattern of dates.
pub struct Intake {
    pub only_fields: bool,
    pub titles: Seq<(Text, String)>,
    pub pattern: Text,
}

/// The title of a column: the one given for its full path, else its name.
pub open spec fn title(titles: Seq<(Text, String)>, label: Text, name: Text) -> Text {
    if has_key(titles, label + name) {
        value_at(titles, label + name)@
    } else {
        name
    }
}

/// Whether a column has the name of an earlier one.
pub open spec fn repeats(names: Seq<Text>, i: int) -> bool {
    exists|j: int| 0 <= j < i && #[trigger] names[j] == names[i]
}

/// What a row holds for a column that is known already: the value under the column's name, and null
/// in the place of a value that an earlier column of the same name has taken.
pub open spec fn held(names: Seq<Text>, row: Fields, i: int) -> Option<Json> {
    if !has_key(row, names[i]) {
        None
    } else if repeats(names, i) {
        Some(Json::Null)
    } else {
        Some(value_at(row, names[i]))
    }
}

/// The members of a row that no column is known for.
pub open spec fn unknown(names: Seq<Text>, row: Fields) -> Fields
    decreases row.len(),
{
    if row.len() == 0 {
        Seq::empty()
    } else if names.contains(row.last().0) {
        unknown(names, row.drop_last())
    } else {
        unknown(names, row.drop_last()).push(row.last())
    }
}

/// The members of a row that become new columns.
pub open spec fn fresh(intake: Intake, table: Table, row: Fields) -> Fields {
    if intake.only_fields {
        Seq::empty()
    } else {
        unknown(table.fields, row)
    }
}

/// The types of the known columns after a row.
pub open spec fn known_types(pattern: Text, table: Table, row: Fields) -> Seq<Text> {
    Seq::new(
        table.fields.len(),
        |i: int|
            match held(table.fields, row, i) {
                Some(value) => type_after(table.field_type[i], value, is_dated(pattern, value)),
                None => table.field_type[i],
            },
    )
}

/// The counts of the known columns after a row.
pub open spec fn known_counts(table: Table, row: Fields) -> Seq<nat> {
    Seq::new(
        table.fields.len(),
        |i: int|
            match held(table.fields, row, i) {
                Some(_) => table.field_counts[i] + 1,
                None => table.field_counts[i],
            },
    )
}

/// The cells of the known columns in a row.
pub open spec fn known_cells(names: Seq<Text>, row: Fields) -> Seq<Text> {
    Seq::new(
        names.len(),
        |i: int|
            match held(names, row, i) {
                Some(value) => cell_text(value),
                None => ""@,
            },
    )
}

/// The names of members.
pub open spec fn names(members: Fields) -> Seq<Text> {
    Seq::new(members.len(), |i: int| members[i].0)
}

/// The types of columns in which nothing but the given members was met.
pub open spec fn new_types(pattern: Text, members: Fields) -> Seq<Text> {
    Seq::new(
        members.len(),
        |i: int| type_after(""@, members[i].1, is_dated(pattern, members[i].1)),
    )
}

/// The titles of the columns of members.
pub open spec fn new_titles(
    titles: Seq<(Text, String)>,
    label: Text,
    members: Fields,
) -> Seq<Text> {
    Seq::new(members.len(), |i: int| title(titles, label, members[i].0))
}

/// The cells of members.
pub open spec fn new_cells(members: Fields) -> Seq<Text> {
    Seq::new(members.len(), |i: int| cell_text(members[i].1))
}

/// The table with new columns for members.
pub open spec fn with_columns(intake: Intake, table: Table, members: Fields) -> Table {
    Table {
        field_type: table.field_type + new_types(intake.pattern, members),
        fields: table.fields + names(members),
        field_counts: table.field_counts + Seq::new(members.len(), |i: int| 1nat),
        ignore_fields: table.ignore_fields + Seq::new(members.len(), |i: int| false),
        field_titles: table.field_titles + new_titles(intake.titles, table.label, members),
        ..table
    }
}

/// The table after a row. A row that has no cell at all is not counted.
pub open spec fn after_row(intake: Intake, table: Table, row: Fields) -> Table {
    let new = fresh(intake, table, row);
    let known = Table {
        field_type: known_types(intake.pattern, table, row),
        field_counts: known_counts(table, row),
        rows: if table.fields.len() + new.len() > 0 {
            table.rows + 1
        } else {
            table.rows
        },
        ..table
    };
    with_columns(intake, known, new)
}

/// The cells of a row: one for each known column, empty where the row does not hold it, and then
/// one for each new column.
pub open spec fn record(intake: Intake, table: Table, row: Fields) -> Seq<Text> {
    known_cells(table.fields, row) + new_cells(fresh(intake, table, row))
}

/// The table after a number of rows.
pub open spec fn after_rows(intake: Intake, table: Table, rows: Seq<Fields>) -> Table
    decreases rows.len(),
{
    if rows.len() == 0 {
        table
    } else {
        after_row(intake, after_rows(intake, table, rows.drop_last()), rows.last())
    }
}

/// The records of a number of rows. A row without cells makes no record.
pub open spec fn records(intake: Intake, table: Table, rows: Seq<Fields>) -> Seq<Seq<Text>>
    decreases rows.len(),
{
    if rows.len() == 0 {
        Seq::empty()
    } else {
        let last = record(
            intake,
            after_rows(intake, table, rows.drop_last()),
            rows.last(),
        );
        let earlier = records(intake, table, rows.drop_last());
        if last.len() == 0 {
            earlier
        } else {
            earlier.push(last)
        }
    }
}

/// Whether a name stands among the first `n` of a list.
fn stands_among(list: &Vec<String>, n: usize, name: &String) -> (stands: bool)
    requires
        n <= list@.len(),
    ensures
        stands == texts(list@).take(n as int).contains(name@),
{
    for i in 0..n
        invariant
            n <= list@.len(),
            forall|j: int| 0 <= j < i ==> #[trigger] texts(list@).take(n as int)[j] != name@,
    {
        if list[i] == *name {
            assert(texts(list@).take(n as int)[i as int] == name@);
            return true;
        }
    }
    false
}

/// A member of a row once the first `n` columns have taken their values.
spec fn left_over(names: Seq<Text>, n: int, member: (Text, Json)) -> (Text, Json) {
    if names.take(n).contains(member.0) {
        (member.0, Json::Null)
    } else {
        member
    }
}

/// Among the first `n + 1` names are the first `n` and the next one.
proof fn lemma_one_more(names: Seq<Text>, n: int, name: Text)
    requires
        0 <= n < names.len(),
    ensures
        names.take(n + 1).contains(name) <==> names.take(n).contains(name) || names[n] == name,
        names.take(n).contains(names[n]) <==> repeats(names, n),
{
    if names.take(n).contains(name) {
        let j = choose|j: int| 0 <= j < n && names.take(n)[j] == name;
        assert(names.take(n + 1)[j] == name);
    }
    if names[n] == name {
        assert(names.take(n + 1)[n] == name);
    }
    if names.take(n + 1).contains(name) && names[n] != name {
        let more = names.take(n + 1);
        let j = choose|j: int| 0 <= j < more.len() && more[j] == name;
        assert(names.take(n)[j] == name);
    }
    if repeats(names, n) {
        let j = choose|j: int| 0 <= j < n && #[trigger] names[j] == names[n];
        assert(names.take(n)[j] == names[n]);
    }
    if names.take(n).contains(names[n]) {
        let j = choose|j: int| 0 <= j < n && names.take(n)[j] == names[n];
        assert(names[j] == names[n]);
    }
}

/// One member more is one column and one cell more.
proof fn lemma_one_column(intake: Intake, table: Table, members: Fields, member: (Text, Json))
    ensures
        with_columns(intake, table, members.push(member)) == (Table {
            field_type: with_columns(intake, table, members).field_type.push(
                type_after(""@, member.1, is_dated(intake.pattern, member.1)),
            ),
            fields: with_columns(intake, table, members).fields.push(member.0),
            field_counts: with_columns(intake, table, members).field_counts.push(1nat),
            ignore_fields: with_columns(intake, table, members).ignore_fields.push(false),
            field_titles: with_columns(intake, table, members).field_titles.push(
                title(intake.titles, table.label, member.0),
            ),
            ..table
        }),
        new_cells(members.push(member)) == new_cells(members).push(cell_text(member.1)),
{
    let before = with_columns(intake, table, members);
    let after = with_columns(intake, table, members.push(member));
    assert(after.field_type =~= before.field_type.push(
        type_after(""@, member.1, is_dated(intake.pattern, member.1)),
    ));
    assert(after.fields =~= before.fields.push(member.0));
    assert(after.field_counts =~= before.field_counts.push(1nat));
    assert(after.ignore_fields =~= before.ignore_fields.push(false));
    assert(after.field_titles =~= before.field_titles.push(
        title(intake.titles, table.label, member.0),
    ));
    assert(new_cells(members.push(member)) =~= new_cells(members).push(cell_text(member.1)));
}

impl TableMetadata {
    /// Fills the cells of the columns that are known already, and leaves null in the row in the
    /// place of each value taken.
    fn take_known(&mut self, row: &mut Object, date_re: &Regex) -> (cells: Vec<String>)
        requires
            old(self).table().wf(),
            old(self).rows < u32::MAX,
        ensures
            final(self).table() == (Table {
                field_type: known_types(
                    pattern_of(*date_re),
                    old(self).table(),
                    fields(old(row).view()),
                ),
                field_counts: known_counts(old(self).table(), fields(old(row).view())),
                ..old(self).table()
            }),
            texts(cells@) == known_cells(old(self).table().fields, fields(old(row).view())),
            final(row).view().len() == old(row).view().len(),
            forall|p: int|
                0 <= p < old(row).view().len() ==> #[trigger] fields(final(row).view())[p]
                    == left_over(
                    old(self).table().fields,
                    old(self).table().fields.len() as int,
                    fields(old(row).view())[p],
                ),
    {
        let ghost before = self.table();
        let ghost all = fields(row.view());
        let ghost names = before.fields;
        let ghost pattern = pattern_of(*date_re);
        let mut cells: Vec<String> = Vec::new();
        let _ = row.len();
        let n = self.fields.len();
        proof {
            lemma_fields_change(row.view(), Seq::empty(), Value::Null);
            assert forall|p: int| 0 <= p < all.len() implies #[trigger] all[p] == left_over(
                names,
                0,
                all[p],
            ) by {
                assert(names.take(0) =~= Seq::<Text>::empty());
            }
        }
        for i in 0..n
            invariant
                n == names.len(),
                before.wf(),
                before.rows == self.rows,
                self.rows < u32::MAX,
                names == before.fields,
                names == texts(self.fields@),
                pattern == pattern_of(*date_re),
                self.fields@.len() == names.len(),
                self.field_type@.len() == names.len(),
                self.field_counts@.len() == names.len(),
                self.table() == (Table {
                    field_type: texts(self.field_type@),
                    field_counts: counts(self.field_counts@),
                    ..before
                }),
                forall|j: int|
                    0 <= j < i ==> #[trigger] texts(self.field_type@)[j] == known_types(
                        pattern,
                        before,
                        all,
                    )[j],
                forall|j: int|
                    0 <= j < i ==> #[trigger] self.field_counts@[j] == known_counts(before, all)[j],
                forall|j: int|
                    i <= j < names.len() ==> #[trigger] texts(self.field_type@)[j]
                        == before.field_type[j],
                forall|j: int|
                    i <= j < names.len() ==> #[trigger] self.field_counts@[j]
                        == before.field_counts[j],
                cells@.len() == i,
                forall|j: int|
                    0 <= j < i ==> (#[trigger] cells@[j])@ == known_cells(names, all)[j],
                distinct(all),
                row.view().len() == all.len(),
                forall|p: int|
                    0 <= p < all.len() ==> #[trigger] fields(row.view())[p] == left_over(
                        names,
                        i as int,
                        all[p],
                    ),
        {
            let ghost now = row.view();
            let ghost here = i as int;
            proof {
                assert(before.field_counts[here] <= before.rows);
                lemma_fields_keys(now, names[here]);
                lemma_place_of(now, names[here]);
                lemma_place_of(all, names[here]);
                if has_key(now, names[here]) {
                    assert(fields(now)[place_of(now, names[here])].0 == names[here]);
                    assert(all[place_of(now, names[here])].0 == names[here]);
                }
                if has_key(all, names[here]) {
                    assert(fields(now)[place_of(all, names[here])].0 == names[here]);
                    assert(now[place_of(all, names[here])].0 == names[here]);
                    lemma_entry_found(all, place_of(now, names[here]));
                }
                lemma_one_more(names, here, names[here]);
            }
            match row.find(&self.fields[i]) {
                Some(place) => {
                    let value = row.replace(place, Value::Null);
                    self.field_counts[i] = self.field_counts[i] + 1;
                    let cell = value_convert(value, &mut self.field_type, i, date_re);
                    cells.push(cell);
                },
                None => {
                    cells.push("".to_owned());
                },
            }
            proof {
                assert forall|p: int| 0 <= p < all.len() implies #[trigger] fields(row.view())[p]
                    == left_over(names, here + 1, all[p]) by {
                    lemma_one_more(names, here, all[p].0);
                    assert(fields(now)[p] == left_over(names, here, all[p]));
                }
            }
        }
        proof {
            assert(texts(cells@) =~= known_cells(names, all));
            assert(texts(self.field_type@) =~= known_types(pattern, before, all));
            assert(counts(self.field_counts@) =~= known_counts(before, all));
        }
        cells
    }

    /// Makes new columns of the members that none of the first columns is for, and adds their
    /// cells.
    fn take_new(
        &mut self,
        row: Object,
        titles: &NameMap<String>,
        date_re: &Regex,
        cells: &mut Vec<String>,
    )
        requires
            old(self).table().field_type.len() == old(self).table().fields.len(),
        ensures
            ({
                let intake = Intake {
                    only_fields: false,
                    titles: titles.view(),
                    pattern: pattern_of(*date_re),
                };
                let new = unknown(old(self).table().fields, fields(row.view()));
                &&& final(self).table() == with_columns(intake, old(self).table(), new)
                &&& texts(final(cells)@) == texts(old(cells)@) + new_cells(new)
            }),
    {
        let ghost before = self.table();
        let ghost all = fields(row.view());
        let ghost pattern = pattern_of(*date_re);
        let ghost intake = Intake { only_fields: false, titles: titles.view(), pattern };
        let ghost first_cells = texts(cells@);
        let mut row = row;
        let n = self.fields.len();
        let m = row.len();
        proof {
            assert(all.take(0) =~= Seq::<(Text, Json)>::empty());
            let new = unknown(before.fields, all.take(0));
            assert(with_columns(intake, before, new) =~= before);
            assert(first_cells + new_cells(new) =~= first_cells);
        }
        for i in 0..m
            invariant
                m == all.len(),
                m == row.view().len(),
                n == before.fields.len(),
                before.field_type.len() == before.fields.len(),
                pattern == pattern_of(*date_re),
                intake == (Intake { only_fields: false, titles: titles.view(), pattern }),
                forall|p: int| i <= p < m ==> #[trigger] fields(row.view())[p] == all[p],
                self.table() == with_columns(
                    intake,
                    before,
                    unknown(before.fields, all.take(i as int)),
                ),
                texts(cells@) == first_cells + new_cells(
                    unknown(before.fields, all.take(i as int)),
                ),
        {
            let ghost new = unknown(before.fields, all.take(i as int));
            let ghost now = self.table();
            let ghost now_cells = texts(cells@);
            let ghost now_row = row.view();
            proof {
                assert(all.take(i + 1).drop_last() =~= all.take(i as int));
                assert(fields(row.view())[i as int] == all[i as int]);
                assert(now.fields.take(n as int) =~= before.fields);
                assert(now.fields.len() == self.fields@.len());
                assert(now.field_type.len() == self.field_type@.len());
            }
            if !stands_among(&self.fields, n, row.name(i)) {
                let name = row.name(i).clone();
                let value = row.replace(i, Value::Null);
                let column_title = match titles.get(
                    &self.table_name_with_separator.clone().concat(name.as_str()),
                ) {
                    Some(given) => given.clone(),
                    None => name.clone(),
                };
                self.fields.push(name);
                self.field_counts.push(1);
                self.field_type.push("".to_owned());
                self.ignore_fields.push(false);
                self.field_titles.push(column_title);
                let last = self.fields.len() - 1;
                let cell = value_convert(value, &mut self.field_type, last, date_re);
                cells.push(cell);
                proof {
                    let member = all[i as int];
                    lemma_one_column(intake, before, new, member);
                    let after = self.table();
                    assert(unknown(before.fields, all.take(i + 1)) == new.push(member));
                    assert(after.fields =~= now.fields.push(member.0));
                    assert(after.field_type =~= now.field_type.push(
                        type_after(""@, member.1, is_dated(pattern, member.1)),
                    ));
                    assert(after.field_counts =~= now.field_counts.push(1nat));
                    assert(after.field_titles =~= now.field_titles.push(
                        title(intake.titles, before.label, member.0),
                    ));
                    assert(texts(cells@) =~= now_cells.push(cell_text(member.1)));
                    assert(texts(cells@) =~= first_cells + new_cells(new.push(member)));
                }
            }
            assert forall|p: int| i < p < m implies #[trigger] fields(row.view())[p] == all[p] by {
                assert(fields(now_row)[p] == all[p]);
            }
        }
        assert(all.take(m as int) =~= all);
    }

    /// Takes a row into the table and gives its cells.
    pub fn take_row(
        &mut self,
        row: Object,
        only_fields: bool,
        titles: &NameMap<String>,
        date_re: &Regex,
    ) -> (cells: Vec<String>)
        requires
            old(self).table().wf(),
            old(self).rows < u32::MAX,
        ensures
            ({
                let intake = Intake {
                    only_fields,
                    titles: titles.view(),
                    pattern: pattern_of(*date_re),
                };
                &&& final(self).table() == after_row(intake, old(self).table(), fields(row.view()))
                &&& texts(cells@) == record(intake, old(self).table(), fields(row.view()))
            }),
            final(self).table().wf(),
    {
        let ghost before = self.table();
        let ghost all = fields(row.view());
        let ghost intake = Intake {
            only_fields,
            titles: titles.view(),
            pattern: pattern_of(*date_re),
        };
        let mut row = row;
        let mut cells = self.take_known(&mut row, date_re);
        proof {
            lemma_unknown_left(before.fields, all, fields(row.view()));
        }
        let ghost known = self.table();
        if !only_fields {
            self.take_new(row, titles, date_re, &mut cells);
        }
        proof {
            assert(fresh(intake, before, all).len() == 0 ==> with_columns(
                intake,
                known,
                fresh(intake, before, all),
            ) =~= known);
            assert(known_cells(before.fields, all) + new_cells(Seq::empty()) =~= known_cells(
                before.fields,
                all,
            ));
            assert(texts(cells@) =~= record(intake, before, all));
            assert(texts(cells@).len() == cells@.len());
        }
        if cells.len() > 0 {
            self.rows = self.rows + 1;
        }
        proof {
            assert(self.table() =~= after_row(intake, before, all));
            lemma_after_row_wf(intake, before, all);
        }
        cells
    }
}

/// Members that no column is for are not touched when the columns take their values.
proof fn lemma_unknown_left(names: Seq<Text>, row: Fields, left: Fields)
    requires
        left.len() == row.len(),
        forall|p: int|
            0 <= p < row.len() ==> #[trigger] left[p] == left_over(
                names,
                names.len() as int,
                row[p],
            ),
    ensures
        unknown(names, left) == unknown(names, row),
    decreases row.len(),
{
    assert(names.take(names.len() as int) =~= names);
    if row.len() > 0 {
        lemma_unknown_left(names, row.drop_last(), left.drop_last());
    }
}

/// Taking a row keeps the table well formed.
pub proof fn lemma_after_row_wf(intake: Intake, table: Table, row: Fields)
    requires
        table.wf(),
    ensures
        after_row(intake, table, row).wf(),
{
    let after = after_row(intake, table, row);
    assert forall|i: int| 0 <= i < after.fields.len() implies #[trigger] after.field_counts[i]
        <= after.rows by {
        if i < table.fields.len() {
            assert(table.field_counts[i] <= table.rows);
        }
    }
}

} // verus!

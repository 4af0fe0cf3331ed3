//! The descriptions of the output: the data package and the list of columns.

use crate::files::FlatFiles;
use crate::listing::{is_listing, listing};
use crate::metadata::{Table, TableMetadata};
use crate::sheets::{csv_file, csv_file_name};
use crate::spool::cell_lists;
use crate::text::{decimal, decimal_text, texts, Text};
use crate::value::{
    by_name, distinct, fields, item_list, lemma_array_json, lemma_object_json, Fields, Json,
    NameMap, Value,
};
use vstd::prelude::*;

verus! {

/// What the data package says of a column.
pub open spec fn field_json(table: Table, column: usize) -> Json {
    Json::Object(
        seq![
            ("name"@, Json::Str(table.field_titles[column as int])),
            ("type"@, Json::Str(table.field_type[column as int])),
            ("count"@, Json::Number(decimal(table.field_counts[column as int]))),
        ],
    )
}

/// What the data package says of the columns that are written.
pub open spec fn field_jsons(table: Table) -> Seq<Json> {
    Seq::new(table.columns().len(), |k: int| field_json(table, table.columns()[k]))
}

/// What the data package says of a table, but for its file.
pub open spec fn resource_members(name: Text, table: Table) -> Fields {
    seq![
        ("profile"@, Json::Str("tabular-data-resource"@)),
        ("name"@, Json::Str(name)),
        (
            "schema"@,
            Json::Object(
                seq![
                    ("fields"@, Json::Array(field_jsons(table))),
                    ("primaryKey"@, Json::Str("_link"@)),
                ],
            ),
        ),
    ]
}

/// What the data package says of a table, with its file where there are CSV files.
pub open spec fn resource_json(csv: bool, name: Text, table: Table) -> Json {
    if csv {
        Json::Object(resource_members(name, table).push(("path"@, Json::Str(csv_file(name)))))
    } else {
        Json::Object(resource_members(name, table))
    }
}

/// The data package of tables.
pub open spec fn data_package(csv: bool, tables: Seq<(Text, Table)>) -> Json {
    Json::Object(
        seq![
            ("profile"@, Json::Str("tabular-data-package"@)),
            (
                "resources"@,
                Json::Array(
                    Seq::new(
                        tables.len(),
                        |k: int| resource_json(csv, tables[k].0, tables[k].1),
                    ),
                ),
            ),
        ],
    )
}

/// The keys of a data package differ from each other.
pub proof fn lemma_package_keys()
    ensures
        "name"@ != "type"@,
        "name"@ != "count"@,
        "type"@ != "count"@,
        "profile"@ != "name"@,
        "profile"@ != "schema"@,
        "profile"@ != "path"@,
        "name"@ != "schema"@,
        "name"@ != "path"@,
        "schema"@ != "path"@,
        "fields"@ != "primaryKey"@,
        "profile"@ != "resources"@,
{
    reveal_strlit("name");
    reveal_strlit("type");
    reveal_strlit("count");
    reveal_strlit("profile");
    reveal_strlit("schema");
    reveal_strlit("path");
    reveal_strlit("fields");
    reveal_strlit("primaryKey");
    reveal_strlit("resources");
    assert("name"@.len() == 4 && "type"@.len() == 4 && "path"@.len() == 4);
    assert("count"@.len() == 5 && "schema"@.len() == 6 && "fields"@.len() == 6);
    assert("profile"@.len() == 7 && "resources"@.len() == 9 && "primaryKey"@.len() == 10);
    assert("name"@[0] != "type"@[0]);
    assert("name"@[0] != "path"@[0]);
}

/// Makes an object of its members.
fn object(entries: Vec<(String, Value)>) -> (value: Value)
    requires
        distinct(by_name(entries@)),
    ensures
        value.json() == Json::Object(fields(by_name(entries@))),
{
    let members = NameMap::of(entries);
    proof {
        lemma_object_json(members);
    }
    Value::Object(members)
}

impl TableMetadata {
    /// Describes the columns that are written.
    fn describe_fields(&self) -> (list: Vec<Value>)
        requires
            self.table().wf(),
        ensures
            item_list(list@) == field_jsons(self.table()),
    {
        let ghost table = self.table();
        let columns = self.shown_columns();
        let mut list: Vec<Value> = Vec::new();
        for k in 0..columns.len()
            invariant
                table == self.table(),
                table.wf(),
                columns@ == table.columns(),
                forall|j: int|
                    0 <= j < columns@.len() ==> #[trigger] columns@[j] < table.fields.len(),
                list@.len() == k,
                forall|j: int|
                    0 <= j < k ==> (#[trigger] list@[j]).json() == field_json(table, columns@[j]),
        {
            let column = columns[k];
            assert(table.field_titles.len() == self.field_titles@.len());
            assert(table.field_type.len() == self.field_type@.len());
            assert(table.field_counts.len() == self.field_counts@.len());
            let mut entries: Vec<(String, Value)> = Vec::new();
            entries.push(("name".to_owned(), Value::String(self.field_titles[column].clone())));
            entries.push(("type".to_owned(), Value::String(self.field_type[column].clone())));
            entries.push(
                (
                    "count".to_owned(),
                    Value::Number(decimal_text(self.field_counts[column] as u128)),
                ),
            );
            proof {
                lemma_package_keys();
                assert(fields(by_name(entries@)) =~= field_json(table, column)->Object_0);
            }
            list.push(object(entries));
        }
        assert(item_list(list@) =~= field_jsons(table));
        list
    }

    /// Describes the table.
    fn describe(&self, name: &String, csv: bool) -> (resource: Value)
        requires
            self.table().wf(),
        ensures
            resource.json() == resource_json(csv, name@, self.table()),
    {
        let ghost table = self.table();
        let list = self.describe_fields();
        let mut schema: Vec<(String, Value)> = Vec::new();
        schema.push(("fields".to_owned(), Value::Array(list)));
        schema.push(("primaryKey".to_owned(), Value::String("_link".to_owned())));
        proof {
            lemma_package_keys();
            lemma_array_json(list);
            assert(fields(by_name(schema@)) =~= seq![
                ("fields"@, Json::Array(field_jsons(table))),
                ("primaryKey"@, Json::Str("_link"@)),
            ]);
        }
        let mut entries: Vec<(String, Value)> = Vec::new();
        entries.push(("profile".to_owned(), Value::String("tabular-data-resource".to_owned())));
        entries.push(("name".to_owned(), Value::String(name.clone())));
        entries.push(("schema".to_owned(), object(schema)));
        assert(fields(by_name(entries@)) =~= resource_members(name@, table));
        if csv {
            entries.push(("path".to_owned(), Value::String(csv_file_name(name.as_str()))));
            assert(fields(by_name(entries@)) =~= resource_members(name@, table).push(
                ("path"@, Json::Str(csv_file(name@))),
            ));
        }
        object(entries)
    }
}

/// The record of a column in the list of columns.
pub open spec fn field_record(name: Text, table: Table, column: usize) -> Seq<Text> {
    seq![
        name,
        table.fields[column as int],
        table.field_type[column as int],
        table.field_titles[column as int],
        decimal(table.field_counts[column as int]),
    ]
}

/// The records of the columns of a table that are written.
pub open spec fn field_records(name: Text, table: Table) -> Seq<Seq<Text>> {
    Seq::new(table.columns().len(), |k: int| field_record(name, table, table.columns()[k]))
}

/// The list of the columns of tables, with its header.
pub open spec fn field_list(tables: Seq<(Text, Table)>) -> Seq<Seq<Text>>
    decreases tables.len(),
{
    if tables.len() == 0 {
        seq![seq!["table_name"@, "field_name"@, "field_type"@, "field_title"@, "count"@]]
    } else {
        field_list(tables.drop_last()) + field_records(tables.last().0, tables.last().1)
    }
}

impl TableMetadata {
    /// Adds the records of the columns that are written to a list.
    fn list_fields(&self, name: &String, list: &mut Vec<Vec<String>>)
        requires
            self.table().wf(),
        ensures
            cell_lists(final(list)@) == cell_lists(old(list)@) + field_records(name@, self.table()),
    {
        let ghost table = self.table();
        let ghost first = cell_lists(list@);
        let ghost all = field_records(name@, table);
        let columns = self.shown_columns();
        assert(first + all.take(0) =~= first);
        for k in 0..columns.len()
            invariant
                table == self.table(),
                table.wf(),
                all == field_records(name@, table),
                columns@ == table.columns(),
                forall|j: int|
                    0 <= j < columns@.len() ==> #[trigger] columns@[j] < table.fields.len(),
                cell_lists(list@) == first + all.take(k as int),
        {
            let column = columns[k];
            let ghost before = cell_lists(list@);
            assert(table.fields.len() == self.fields@.len());
            assert(table.field_titles.len() == self.field_titles@.len());
            assert(table.field_type.len() == self.field_type@.len());
            assert(table.field_counts.len() == self.field_counts@.len());
            let mut record: Vec<String> = Vec::new();
            record.push(name.clone());
            record.push(self.fields[column].clone());
            record.push(self.field_type[column].clone());
            record.push(self.field_titles[column].clone());
            record.push(decimal_text(self.field_counts[column] as u128));
            assert(texts(record@) =~= field_record(name@, table, column));
            list.push(record);
            assert(cell_lists(list@) =~= before.push(all[k as int]));
            assert(cell_lists(list@) =~= first + all.take(k + 1));
        }
        assert(all.take(all.len() as int) =~= all);
    }
}

impl FlatFiles {
    /// Makes the data package of the tables that are written.
    pub fn write_data_package(&self) -> (package: Value)
        requires
            self.wf(),
        ensures
            package.json() == data_package(self.csv, self.written()),
            is_listing(listing(self.table_metadata.view()), self.table_metadata.view()),
    {
        let places = self.written_places();
        let ghost tables = self.tables_at(places@);
        let mut resources: Vec<Value> = Vec::new();
        for k in 0..places.len()
            invariant
                self.wf(),
                forall|j: int|
                    0 <= j < places@.len() ==> (#[trigger] places@[j])
                        < self.table_metadata.view().len(),
                tables == self.tables_at(places@),
                resources@.len() == k,
                forall|j: int|
                    0 <= j < k ==> (#[trigger] resources@[j]).json() == resource_json(
                        self.csv,
                        tables[j].0,
                        tables[j].1,
                    ),
        {
            let place = places[k];
            assert(self.table_metadata.view()[place as int].1.table().wf());
            resources.push(
                self.table_metadata.value(place).describe(self.table_metadata.name(place), self.csv),
            );
        }
        let mut entries: Vec<(String, Value)> = Vec::new();
        entries.push(("profile".to_owned(), Value::String("tabular-data-package".to_owned())));
        entries.push(("resources".to_owned(), Value::Array(resources)));
        proof {
            lemma_package_keys();
            lemma_array_json(resources);
            assert(item_list(resources@) =~= Seq::new(
                tables.len(),
                |k: int| resource_json(self.csv, tables[k].0, tables[k].1),
            ));
            assert(fields(by_name(entries@)) =~= data_package(self.csv, tables)->Object_0);
        }
        object(entries)
    }

    /// Makes the list of the columns that are written, with its header.
    pub fn write_fields_csv(&self) -> (list: Vec<Vec<String>>)
        requires
            self.wf(),
        ensures
            cell_lists(list@) == field_list(self.written()),
            is_listing(listing(self.table_metadata.view()), self.table_metadata.view()),
    {
        let places = self.written_places();
        let ghost tables = self.tables_at(places@);
        let mut header: Vec<String> = Vec::new();
        header.push("table_name".to_owned());
        header.push("field_name".to_owned());
        header.push("field_type".to_owned());
        header.push("field_title".to_owned());
        header.push("count".to_owned());
        assert(texts(header@) =~= seq![
            "table_name"@,
            "field_name"@,
            "field_type"@,
            "field_title"@,
            "count"@,
        ]);
        let mut list: Vec<Vec<String>> = Vec::new();
        list.push(header);
        proof {
            assert(tables.take(0) =~= Seq::<(Text, Table)>::empty());
            assert(cell_lists(list@) =~= field_list(tables.take(0)));
        }
        for k in 0..places.len()
            invariant
                self.wf(),
                forall|j: int|
                    0 <= j < places@.len() ==> (#[trigger] places@[j])
                        < self.table_metadata.view().len(),
                tables == self.tables_at(places@),
                cell_lists(list@) == field_list(tables.take(k as int)),
        {
            let place = places[k];
            assert(self.table_metadata.view()[place as int].1.table().wf());
            assert(tables.take(k + 1).drop_last() =~= tables.take(k as int));
            self.table_metadata.value(place).list_fields(self.table_metadata.name(place), &mut list);
        }
        assert(tables.take(tables.len() as int) =~= tables);
        list
    }
}

} // verus!

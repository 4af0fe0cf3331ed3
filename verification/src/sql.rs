//! The tables as SQL scripts.

use crate::files::FlatFiles;
use crate::listing::{is_listing, listing};
use crate::metadata::{Table, TableMetadata};
use crate::sheets::{csv_file, csv_file_name};
use crate::text::{join, join_texts, lowercase, lowercase_text, texts, Text};
use crate::value::{has_key, value_at, NameMap};
use vstd::prelude::*;

verus! {

/// The SQL types of columns: those of named types of columns, and that of all others.
#[derive(Debug)]
pub struct SqlTypes {
    pub named: NameMap<String>,
    pub other: String,
}

/// A script that makes tables and one that fills them.
#[derive(Debug)]
pub struct SqlScripts {
    pub schema: String,
    pub load: String,
}

impl SqlTypes {
    /// The SQL type of columns of a type.
    pub open spec fn sql_type(self, field_type: Text) -> Text {
        if has_key(self.named.view(), field_type) {
            value_at(self.named.view(), field_type)@
        } else {
            self.other@
        }
    }

    /// Gives the SQL type of columns of a type.
    pub fn type_of(&self, field_type: &String) -> (sql_type: String)
        ensures
            sql_type@ == self.sql_type(field_type@),
    {
        match self.named.get(field_type) {
            Some(sql_type) => sql_type.clone(),
            None => self.other.clone(),
        }
    }
}

/// The line of a column in the statement that makes its table.
pub open spec fn column_line(types: SqlTypes, table: Table, column: usize) -> Text {
    "    \""@ + lowercase(table.field_titles[column as int]) + "\" "@ + types.sql_type(
        table.field_type[column as int],
    )
}

/// The lines of the columns that are written.
pub open spec fn column_lines(types: SqlTypes, table: Table) -> Seq<Text> {
    Seq::new(table.columns().len(), |k: int| column_line(types, table, table.columns()[k]))
}

/// The statement that makes a table.
pub open spec fn create_statement(types: SqlTypes, name: Text, table: Table) -> Text {
    "CREATE TABLE \""@ + lowercase(name) + "\"(\n"@ + join(column_lines(types, table), ",\n"@)
        + ");\n\n"@
}

/// The statements that make tables.
pub open spec fn create_statements(types: SqlTypes, tables: Seq<(Text, Table)>) -> Text
    decreases tables.len(),
{
    if tables.len() == 0 {
        Seq::empty()
    } else {
        create_statements(types, tables.drop_last()) + create_statement(
            types,
            tables.last().0,
            tables.last().1,
        )
    }
}

/// The PostgreSQL command that fills a table.
pub open spec fn copy_command(name: Text) -> Text {
    "\\copy \""@ + lowercase(name) + "\" from '"@ + csv_file(name) + "' with CSV HEADER\n"@
}

/// The PostgreSQL commands that fill tables.
pub open spec fn copy_commands(tables: Seq<(Text, Table)>) -> Text
    decreases tables.len(),
{
    if tables.len() == 0 {
        Seq::empty()
    } else {
        copy_commands(tables.drop_last()) + copy_command(tables.last().0)
    }
}

/// The SQLite command that fills a table.
pub open spec fn import_command(name: Text) -> Text {
    ".import '"@ + csv_file(name) + "' "@ + lowercase(name) + " --skip 1 \n"@
}

/// The SQLite commands that fill tables.
pub open spec fn import_commands(tables: Seq<(Text, Table)>) -> Text
    decreases tables.len(),
{
    if tables.len() == 0 {
        ".mode csv \n"@
    } else {
        import_commands(tables.drop_last()) + import_command(tables.last().0)
    }
}

impl TableMetadata {
    /// Writes the statement that makes the table.
    fn create_table(&self, name: &str, types: &SqlTypes) -> (statement: String)
        requires
            self.table().wf(),
        ensures
            statement@ == create_statement(*types, name@, self.table()),
    {
        let columns = self.shown_columns();
        let mut lines: Vec<String> = Vec::new();
        for k in 0..columns.len()
            invariant
                self.table().wf(),
                columns@ == self.table().columns(),
                forall|j: int|
                    0 <= j < columns@.len() ==> #[trigger] columns@[j] < self.table().fields.len(),
                lines@.len() == k,
                forall|j: int|
                    0 <= j < k ==> (#[trigger] lines@[j])@ == column_line(
                        *types,
                        self.table(),
                        columns@[j],
                    ),
        {
            let column = columns[k];
            assert(self.table().field_titles.len() == self.field_titles@.len());
            assert(self.table().field_type.len() == self.field_type@.len());
            let title = lowercase_text(self.field_titles[column].as_str());
            let sql_type = types.type_of(&self.field_type[column]);
            lines.push(
                "    \"".to_owned().concat(title.as_str()).concat("\" ").concat(sql_type.as_str()),
            );
        }
        assert(texts(lines@) =~= column_lines(*types, self.table()));
        "CREATE TABLE \"".to_owned().concat(lowercase_text(name).as_str()).concat("\"(\n").concat(
            join_texts(&lines, ",\n").as_str(),
        ).concat(");\n\n")
    }
}

impl FlatFiles {
    /// Writes the statements that make the tables at some places.
    fn create_tables(&self, places: &Vec<usize>, types: &SqlTypes) -> (statements: String)
        requires
            self.wf(),
            forall|k: int|
                0 <= k < places@.len() ==> (#[trigger] places@[k]) < self.table_metadata.view().len(),
        ensures
            statements@ == create_statements(*types, self.tables_at(places@)),
    {
        let ghost tables = self.tables_at(places@);
        let mut statements = "".to_owned();
        proof {
            reveal_strlit("");
            assert(tables.take(0) =~= Seq::<(Text, Table)>::empty());
            assert(statements@ =~= create_statements(*types, tables.take(0)));
        }
        for k in 0..places.len()
            invariant
                self.wf(),
                forall|j: int|
                    0 <= j < places@.len() ==> (#[trigger] places@[j])
                        < self.table_metadata.view().len(),
                tables == self.tables_at(places@),
                statements@ == create_statements(*types, tables.take(k as int)),
        {
            let place = places[k];
            let name = self.table_metadata.name(place);
            let metadata = self.table_metadata.value(place);
            assert(self.table_metadata.view()[place as int].1.table().wf());
            assert(tables[k as int] == (name@, metadata.table()));
            assert(tables.take(k + 1).drop_last() =~= tables.take(k as int));
            statements.append(metadata.create_table(name.as_str(), types).as_str());
        }
        assert(tables.take(tables.len() as int) =~= tables);
        statements
    }

    /// Writes the scripts for PostgreSQL.
    pub fn write_postgresql(&self, types: &SqlTypes) -> (scripts: SqlScripts)
        requires
            self.wf(),
        ensures
            scripts.schema@ == create_statements(*types, self.written()),
            scripts.load@ == copy_commands(self.written()),
            is_listing(listing(self.table_metadata.view()), self.table_metadata.view()),
    {
        let places = self.written_places();
        let ghost tables = self.tables_at(places@);
        let schema = self.create_tables(&places, types);
        let mut load = "".to_owned();
        proof {
            reveal_strlit("");
            assert(tables.take(0) =~= Seq::<(Text, Table)>::empty());
            assert(load@ =~= copy_commands(tables.take(0)));
        }
        for k in 0..places.len()
            invariant
                forall|j: int|
                    0 <= j < places@.len() ==> (#[trigger] places@[j])
                        < self.table_metadata.view().len(),
                tables == self.tables_at(places@),
                load@ == copy_commands(tables.take(k as int)),
        {
            let name = self.table_metadata.name(places[k]);
            assert(tables[k as int].0 == name@);
            assert(tables.take(k + 1).drop_last() =~= tables.take(k as int));
            let command = "\\copy \"".to_owned().concat(
                lowercase_text(name.as_str()).as_str(),
            ).concat("\" from '").concat(csv_file_name(name.as_str()).as_str()).concat(
                "' with CSV HEADER\n",
            );
            load.append(command.as_str());
        }
        assert(tables.take(tables.len() as int) =~= tables);
        SqlScripts { schema, load }
    }

    /// Writes the scripts for SQLite.
    pub fn write_sqlite(&self, types: &SqlTypes) -> (scripts: SqlScripts)
        requires
            self.wf(),
        ensures
            scripts.schema@ == create_statements(*types, self.written()),
            scripts.load@ == import_commands(self.written()),
            is_listing(listing(self.table_metadata.view()), self.table_metadata.view()),
    {
        let places = self.written_places();
        let ghost tables = self.tables_at(places@);
        let schema = self.create_tables(&places, types);
        let mut load = ".mode csv \n".to_owned();
        assert(tables.take(0) =~= Seq::<(Text, Table)>::empty());
        for k in 0..places.len()
            invariant
                forall|j: int|
                    0 <= j < places@.len() ==> (#[trigger] places@[j])
                        < self.table_metadata.view().len(),
                tables == self.tables_at(places@),
                load@ == import_commands(tables.take(k as int)),
        {
            let name = self.table_metadata.name(places[k]);
            assert(tables[k as int].0 == name@);
            assert(tables.take(k + 1).drop_last() =~= tables.take(k as int));
            let command = ".import '".to_owned().concat(
                csv_file_name(name.as_str()).as_str(),
            ).concat("' ").concat(lowercase_text(name.as_str()).as_str()).concat(" --skip 1 \n");
            load.append(command.as_str());
        }
        assert(tables.take(tables.len() as int) =~= tables);
        SqlScripts { schema, load }
    }
}

} // verus!

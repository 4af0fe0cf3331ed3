//! What is known of a table: its columns and what was met in them.

use crate::text::{after_bytes, byte_len, can_cut, drop_bytes, same_text, texts, Text};
use vstd::prelude::*;

verus! {

/// A table as a mathematical value.
#[verifier::ext_equal]
pub struct Table {
    pub field_type: Seq<Text>,
    pub fields: Seq<Text>,
    pub field_counts: Seq<nat>,
    pub rows: nat,
    pub ignore: bool,
    pub ignore_fields: Seq<bool>,
    pub order: Seq<usize>,
    pub field_titles: Seq<Text>,
    pub label: Text,
    pub output_path: Text,
}

/// What is known of a table: for each column its name, its type, how many rows hold it, whether it
/// is left out and its title; the number of rows, whether the table is left out, the order in which
/// the columns are written, what goes before a column's name to make its full path, and the file
/// below the output directory that takes the rows as they come.
#[derive(Debug)]
pub struct TableMetadata {
    pub field_type: Vec<String>,
    pub fields: Vec<String>,
    pub field_counts: Vec<u32>,
    pub rows: u32,
    pub ignore: bool,
    pub ignore_fields: Vec<bool>,
    pub order: Vec<usize>,
    pub field_titles: Vec<String>,
    pub table_name_with_separator: String,
    pub output_path: String,
}

impl Table {
    /// The columns agree in number, the order names columns, and no column is held by more rows
    /// than there are.
    pub open spec fn wf(self) -> bool {
        &&& self.field_type.len() == self.fields.len()
        &&& self.field_counts.len() == self.fields.len()
        &&& self.ignore_fields.len() == self.fields.len()
        &&& self.field_titles.len() == self.fields.len()
        &&& forall|i: int| 0 <= i < self.order.len() ==> #[trigger] self.order[i] < self.fields.len()
        &&& forall|i: int|
            0 <= i < self.fields.len() ==> #[trigger] self.field_counts[i] <= self.rows
    }
}

/// The counts of columns as natural numbers.
pub open spec fn counts(list: Seq<u32>) -> Seq<nat> {
    Seq::new(list.len(), |i: int| list[i] as nat)
}

impl TableMetadata {
    /// The mathematical value.
    pub open spec fn table(self) -> Table {
        Table {
            field_type: texts(self.field_type@),
            fields: texts(self.fields@),
            field_counts: counts(self.field_counts@),
            rows: self.rows as nat,
            ignore: self.ignore,
            ignore_fields: self.ignore_fields@,
            order: self.order@,
            field_titles: texts(self.field_titles@),
            label: self.table_name_with_separator@,
            output_path: self.output_path@,
        }
    }
}

/// What goes before a column's name to make its full path: nothing in the main table; elsewhere
/// the name of the table and the separator, without the bytes that the table prefix takes.
pub open spec fn label(
    table_name: Text,
    main_table_name: Text,
    path_separator: Text,
    table_prefix: Text,
) -> Text {
    if table_name == main_table_name {
        ""@
    } else if table_prefix.len() == 0 {
        table_name + path_separator
    } else {
        after_bytes(table_name + path_separator, byte_len(table_prefix))
    }
}

/// Whether a table can have a label: its name is not cut inside a character or beyond its end.
pub open spec fn can_label(
    table_name: Text,
    main_table_name: Text,
    path_separator: Text,
    table_prefix: Text,
) -> bool {
    table_name == main_table_name || table_prefix.len() == 0 || can_cut(
        table_name + path_separator,
        byte_len(table_prefix),
    )
}

/// A table of which nothing is known but its label and its file.
pub open spec fn blank(label: Text, output_path: Text) -> Table {
    Table {
        field_type: Seq::empty(),
        fields: Seq::empty(),
        field_counts: Seq::empty(),
        rows: 0,
        ignore: false,
        ignore_fields: Seq::empty(),
        order: Seq::empty(),
        field_titles: Seq::empty(),
        label,
        output_path,
    }
}

impl TableMetadata {
    /// A table without columns and rows.
    pub fn new(
        table_name: &str,
        main_table_name: &str,
        path_separator: &str,
        table_prefix: &str,
        output_path: String,
    ) -> (metadata: TableMetadata)
        requires
            can_label(table_name@, main_table_name@, path_separator@, table_prefix@),
        ensures
            metadata.table() == blank(
                label(table_name@, main_table_name@, path_separator@, table_prefix@),
                output_path@,
            ),
            metadata.table().wf(),
    {
        let table_name_with_separator = if same_text(table_name, main_table_name) {
            "".to_owned()
        } else {
            let full_path = table_name.to_owned().concat(path_separator);
            if !table_prefix.is_empty() {
                drop_bytes(full_path.as_str(), table_prefix.as_bytes().len())
            } else {
                full_path
            }
        };
        let metadata = TableMetadata {
            fields: Vec::new(),
            field_counts: Vec::new(),
            field_type: Vec::new(),
            rows: 0,
            ignore: false,
            ignore_fields: Vec::new(),
            order: Vec::new(),
            field_titles: Vec::new(),
            table_name_with_separator,
            output_path,
        };
        assert(metadata.table() =~= blank(
            label(table_name@, main_table_name@, path_separator@, table_prefix@),
            output_path@,
        ));
        metadata
    }
}

} // verus!

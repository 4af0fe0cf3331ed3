//! Tables, their columns and what is written of them.

use libflatterer::columns::{column_order, FieldsRecord};
use libflatterer::convert::{column_type, date_regexp, value_convert};
use libflatterer::files::{FlatFiles, TmpCSVWriter};
use libflatterer::finish::WriteStep;
use libflatterer::lines::{JLWriter, LineAction};
use libflatterer::metadata::TableMetadata;
use libflatterer::path::{KeyPath, PathItem};
use libflatterer::setup::{DirAction, Error, SchemaAnalysis};
use libflatterer::sheets::{can_cut_sheet_name, Cell, Sheet};
use libflatterer::sql::SqlTypes;
use libflatterer::spool::{join_path, tmp_file_name};
use libflatterer::text::{cuts_at, decimal_text, drop_bytes, ends_with, keep_bytes, same_text, starts_with};
use libflatterer::value::{NameMap, Value};

fn s(text: &str) -> Value {
    Value::String(text.to_string())
}

fn n(text: &str) -> Value {
    Value::Number(text.to_string())
}

fn obj(list: Vec<(&str, Value)>) -> Value {
    Value::Object(NameMap::of(list.into_iter().map(|(k, v)| (k.to_string(), v)).collect()))
}

fn names(list: &[&str]) -> Vec<String> {
    list.iter().map(|name| name.to_string()).collect()
}

fn files(csv: bool, xlsx: bool, schema: Option<SchemaAnalysis>, prefix: &str) -> FlatFiles {
    FlatFiles::new(
        "output".to_string(),
        false,
        csv,
        xlsx,
        false,
        "main".to_string(),
        vec![],
        false,
        schema,
        prefix.to_string(),
        "_".to_string(),
    )
    .unwrap()
}

fn metadata<'a>(flat_files: &'a FlatFiles, table: &str) -> &'a TableMetadata {
    flat_files.table_metadata.get(&table.to_string()).unwrap()
}

fn waiting<'a>(flat_files: &'a FlatFiles, table: &str) -> &'a TmpCSVWriter {
    flat_files.tmp_csvs.get(&table.to_string()).unwrap()
}

fn take(flat_files: &mut FlatFiles, value: Value) {
    flat_files.process_value(value);
    flat_files.create_rows();
}

fn games() -> FlatFiles {
    let mut flat_files = files(true, true, None, "");
    take(
        &mut flat_files,
        obj(vec![
            ("Title", s("A Game")),
            ("id", n("1")),
            (
                "Platforms",
                Value::Array(vec![obj(vec![("name", s("Xbox"))]), obj(vec![("name", s("PC"))])]),
            ),
        ]),
    );
    take(&mut flat_files, obj(vec![("id", n("2")), ("rating", n("7.5"))]));
    flat_files
}

#[test]
fn a_directory_in_the_way_is_an_error() {
    let error = FlatFiles::new_with_defaults("there".to_string(), true).err().unwrap();
    assert_eq!(error, Error::FlattererDirExists { dir: "there".to_string() });
    assert_eq!(error.to_text(), "Directory `there` already exists.");
    assert_eq!(
        FlatFiles::output_action(&"there".to_string(), true, true),
        Ok(DirAction::Remove)
    );
    assert_eq!(
        FlatFiles::output_action(&"there".to_string(), false, false),
        Ok(DirAction::Leave)
    );
    assert!(FlatFiles::output_action(&"there".to_string(), true, false).is_err());
}

#[test]
fn the_defaults() {
    let flat_files = FlatFiles::new_with_defaults("out".to_string(), false).ok().unwrap();
    assert_eq!(flat_files.output_path, "out");
    assert!(flat_files.csv);
    assert!(!flat_files.xlsx);
    assert_eq!(flat_files.main_table_name, "main");
    assert!(flat_files.emit_obj.is_empty());
    assert_eq!(flat_files.row_number, 1);
    assert!(!flat_files.only_fields);
    assert!(!flat_files.inline_one_to_one);
    assert_eq!(flat_files.table_prefix, "");
    assert_eq!(flat_files.path_separator, "_");
    assert_eq!(flat_files.preview, 0);
}

#[test]
fn the_csv_directory_follows_the_setting() {
    let mut flat_files = files(true, false, None, "");
    assert_eq!(flat_files.set_csv(true, false), DirAction::Create);
    assert_eq!(flat_files.set_csv(true, true), DirAction::Leave);
    assert_eq!(flat_files.set_csv(false, true), DirAction::Remove);
    assert!(!flat_files.csv);
    assert_eq!(flat_files.set_csv(false, false), DirAction::Leave);
}

#[test]
fn emitted_paths_are_added() {
    let mut flat_files = files(true, false, None, "");
    flat_files.set_emit_obj(vec![names(&["a", "b"])]);
    flat_files.set_emit_obj(vec![names(&["c"])]);
    let paths: Vec<Vec<String>> = flat_files.emit_obj.iter().map(|path| path.to_keys()).collect();
    assert_eq!(paths, vec![names(&["a", "b"]), names(&["c"])]);
}

#[test]
fn labels_lose_the_prefix() {
    let label = |table: &str, main: &str, prefix: &str| {
        TableMetadata::new(table, main, "_", prefix, "f".to_string()).table_name_with_separator
    };
    assert_eq!(label("main", "main", ""), "");
    assert_eq!(label("games", "main", ""), "games_");
    assert_eq!(label("p_games", "p_main", "p_"), "games_");
    assert_eq!(label("xxgames", "main", "\u{e9}"), "games_");
}

#[test]
fn dates_are_told_from_texts() {
    let re = date_regexp();
    let kind = |text: &str| {
        let mut types = names(&[""]);
        assert_eq!(value_convert(s(text), &mut types, 0, &re), text);
        types[0].clone()
    };
    assert_eq!(kind("2005-01-01"), "date");
    assert_eq!(kind("2005-01-01T10:20:30.5Z"), "date");
    assert_eq!(kind("2005-01-01 10:20:30-01:00"), "date");
    assert_eq!(kind("4005-01-01"), "text");
    assert_eq!(kind("2005-01-01x"), "text");
    assert_eq!(kind(""), "text");
}

#[test]
fn cells_and_types_of_values() {
    let re = files(true, false, None, "").date_regexp;
    let mut types = names(&["", "text"]);
    assert_eq!(value_convert(Value::Null, &mut types, 0, &re), "");
    assert_eq!(types, ["null", "text"]);
    assert_eq!(value_convert(n("1e5"), &mut types, 0, &re), "1e5");
    assert_eq!(types, ["number", "text"]);
    assert_eq!(value_convert(Value::Null, &mut types, 0, &re), "");
    assert_eq!(types, ["number", "text"]);
    assert_eq!(value_convert(Value::Bool(true), &mut types, 0, &re), "true");
    assert_eq!(types, ["boolean", "text"]);
    assert_eq!(value_convert(s("2005-01-01"), &mut types, 0, &re), "2005-01-01");
    assert_eq!(types, ["date", "text"]);
    assert_eq!(value_convert(Value::Array(vec![n("1")]), &mut types, 0, &re), "[1]");
    assert_eq!(types, ["text", "text"]);
    assert_eq!(value_convert(obj(vec![("a", s("b"))]), &mut types, 1, &re), "{\"a\":\"b\"}");
    assert_eq!(value_convert(Value::Bool(false), &mut types, 1, &re), "false");
    assert_eq!(types, ["text", "text"]);
    assert_eq!(column_type("number", &s("x"), true), "date");
    assert_eq!(column_type("number", &s("x"), false), "text");
    assert_eq!(column_type("text", &n("1"), false), "text");
}

#[test]
fn records_stand_under_their_columns() {
    let mut flat_files = files(true, false, None, "");
    flat_files.process_value(obj(vec![("a", n("1")), ("b", n("2"))]));
    flat_files.process_value(obj(vec![("b", n("3")), ("c", Value::Null)]));
    flat_files.create_rows();
    let main = metadata(&flat_files, "main");
    assert_eq!(main.fields, ["a", "b", "_link", "_link_main", "c"]);
    assert_eq!(main.field_counts, [1, 2, 2, 2, 1]);
    assert_eq!(main.field_type, ["number", "number", "text", "text", "null"]);
    assert_eq!(main.rows, 2);
    assert_eq!(main.output_path, "output/tmp/main.csv");
    match waiting(&flat_files, "main") {
        TmpCSVWriter::Disk(list) => assert_eq!(
            list,
            &vec![names(&["1", "2", "1", "1"]), names(&["", "3", "2", "2", ""])]
        ),
        TmpCSVWriter::Nowhere => panic!(),
    }
    flat_files.create_rows();
    assert_eq!(metadata(&flat_files, "main").rows, 2);
}

#[test]
fn without_output_no_records_are_kept() {
    let mut flat_files = files(false, false, None, "");
    take(&mut flat_files, obj(vec![("a", n("1"))]));
    assert!(matches!(waiting(&flat_files, "main"), TmpCSVWriter::Nowhere));
    assert_eq!(metadata(&flat_files, "main").rows, 1);
}

#[test]
fn given_columns_come_first_and_may_be_all() {
    let mut flat_files = files(true, false, None, "");
    flat_files.use_fields_csv(
        vec![
            FieldsRecord {
                table_name: "main".to_string(),
                field_name: "z".to_string(),
                field_type: "number".to_string(),
                field_title: Some("Zed".to_string()),
            },
            FieldsRecord {
                table_name: "main".to_string(),
                field_name: "y".to_string(),
                field_type: "".to_string(),
                field_title: None,
            },
        ],
        true,
    );
    assert!(flat_files.only_fields);
    assert_eq!(metadata(&flat_files, "main").output_path, "output/tmp/main.csv");
    take(&mut flat_files, obj(vec![("y", s("1")), ("x", s("2"))]));
    let main = metadata(&flat_files, "main");
    assert_eq!(main.fields, ["z", "y"]);
    assert_eq!(main.field_titles, ["Zed", "y"]);
    assert_eq!(main.field_type, ["number", "text"]);
    assert_eq!(main.field_counts, [0, 1]);
    assert_eq!(main.rows, 1);
    flat_files.use_fields_csv(vec![], false);
    assert!(flat_files.only_fields);
}

#[test]
fn a_column_given_twice_is_filled_once() {
    let mut flat_files = files(true, false, None, "");
    let column = || FieldsRecord {
        table_name: "main".to_string(),
        field_name: "a".to_string(),
        field_type: "".to_string(),
        field_title: None,
    };
    flat_files.use_fields_csv(vec![column(), column()], true);
    take(&mut flat_files, obj(vec![("a", n("5"))]));
    let main = metadata(&flat_files, "main");
    assert_eq!(main.field_counts, [1, 1]);
    assert_eq!(main.field_type, ["number", "null"]);
    match waiting(&flat_files, "main") {
        TmpCSVWriter::Disk(list) => assert_eq!(list, &vec![names(&["5", ""])]),
        TmpCSVWriter::Nowhere => panic!(),
    }
}

#[test]
fn rows_without_cells_are_not_counted() {
    let mut flat_files = files(true, false, None, "");
    flat_files.use_fields_csv(vec![], true);
    take(&mut flat_files, obj(vec![("a", n("1"))]));
    assert_eq!(metadata(&flat_files, "main").rows, 0);
    match waiting(&flat_files, "main") {
        TmpCSVWriter::Disk(list) => assert!(list.is_empty()),
        TmpCSVWriter::Nowhere => panic!(),
    }
    flat_files.write_files();
    assert!(flat_files.write_csvs().is_empty());
    assert_eq!(flat_files.write_fields_csv().len(), 1);
}

#[test]
fn columns_are_ordered_by_rank_then_place() {
    assert_eq!(column_order(&vec![9, 0, 9, 3, 0]), [1, 4, 3, 0, 2]);
    assert_eq!(column_order(&vec![]), Vec::<usize>::new());
}

#[test]
fn a_schema_orders_and_titles_columns() {
    let schema = SchemaAnalysis {
        field_order_map: NameMap::of(vec![("b".to_string(), 1), ("e_y".to_string(), 2)]),
        field_titles_map: NameMap::of(vec![
            ("b".to_string(), "Bee".to_string()),
            ("e_y".to_string(), "Why".to_string()),
        ]),
    };
    let mut flat_files = files(true, false, Some(schema), "p_");
    take(
        &mut flat_files,
        obj(vec![
            ("a", n("1")),
            ("b", n("2")),
            ("e", Value::Array(vec![obj(vec![("x", n("3")), ("y", n("4"))])])),
        ]),
    );
    flat_files.determine_order();
    let main = metadata(&flat_files, "p_main");
    assert_eq!(main.fields, ["a", "b", "_link", "_link_p_main"]);
    assert_eq!(main.field_titles, ["a", "Bee", "_link", "_link_p_main"]);
    assert_eq!(main.order, [2, 3, 1, 0]);
    let e = metadata(&flat_files, "p_e");
    assert_eq!(e.fields, ["x", "y", "_link", "_link_p_main"]);
    assert_eq!(e.field_titles, ["x", "Why", "_link", "_link_p_main"]);
    assert_eq!(e.order, [2, 3, 1, 0]);
    flat_files.determine_order();
    assert_eq!(metadata(&flat_files, "p_e").order, [2, 3, 1, 0, 2, 3, 1, 0]);
}

#[test]
fn marking_again_changes_nothing() {
    let mut flat_files = files(true, false, None, "");
    flat_files.inline_one_to_one = true;
    take(&mut flat_files, obj(vec![("e", Value::Array(vec![obj(vec![("x", n("1"))])]))]));
    take(
        &mut flat_files,
        obj(vec![("e", Value::Array(vec![obj(vec![("x", n("1"))]), obj(vec![])]))]),
    );
    flat_files.mark_ignore();
    let once = metadata(&flat_files, "main").ignore_fields.clone();
    assert_eq!(metadata(&flat_files, "main").fields, ["e_x", "_link", "_link_main"]);
    assert_eq!(once, [true, false, false]);
    assert!(!metadata(&flat_files, "e").ignore);
    flat_files.mark_ignore();
    assert_eq!(metadata(&flat_files, "main").ignore_fields, once);
}

#[test]
fn the_steps_of_writing() {
    let mut flat_files = files(true, true, None, "");
    assert_eq!(
        flat_files.write_files(),
        [
            WriteStep::FlushRecords,
            WriteStep::Csvs,
            WriteStep::Postgresql,
            WriteStep::Sqlite,
            WriteStep::Xlsx,
            WriteStep::RemoveTmp,
            WriteStep::DataPackage,
            WriteStep::FieldsCsv,
        ]
    );
    let mut flat_files = files(false, false, None, "");
    assert_eq!(
        flat_files.write_files(),
        [
            WriteStep::FlushRecords,
            WriteStep::RemoveTmp,
            WriteStep::DataPackage,
            WriteStep::FieldsCsv,
        ]
    );
}

#[test]
fn csv_files_are_rectangular() {
    let mut flat_files = games();
    flat_files.preview = 1;
    flat_files.write_files();
    let tables = flat_files.write_csvs();
    assert_eq!(tables.len(), 2);
    assert_eq!(tables[0].source, "tmp/Platforms.csv");
    assert_eq!(tables[1].source, "tmp/main.csv");
    assert_eq!(tables[1].target, "csv/main.csv");
    assert_eq!(tables[1].header, ["_link", "_link_main", "Title", "id", "rating"]);
    let cell = |text: &str| text.as_bytes().to_vec();
    let row = vec![cell("A Game"), cell("1"), cell("1"), cell("1")];
    assert_eq!(
        tables[1].record(0, &row),
        Some(vec![cell("1"), cell("1"), cell("A Game"), cell("1"), cell("")])
    );
    assert_eq!(tables[1].record(1, &row), None);
    flat_files.preview = 0;
    assert!(flat_files.write_csvs()[1].record(1, &row).is_some());
}

#[test]
fn sheets_hold_cells() {
    let mut flat_files = games();
    flat_files.write_files();
    let sheets = flat_files.write_xlsx();
    assert_eq!(sheets.len(), 2);
    assert_eq!(sheets[1].name, "main");
    assert_eq!(sheets[1].source, "tmp/main.csv");
    assert_eq!(sheets[1].header, ["_link", "_link_main", "Title", "id", "rating"]);
    assert_eq!(sheets[1].numeric, [false, false, false, true, true]);
    let cell = |column: u16, text: &str, numeric: bool| Cell {
        row: 4,
        column,
        text: text.to_string(),
        numeric,
    };
    assert_eq!(
        sheets[1].cells(3, &names(&["A Game", "1", "x", "y"])),
        Ok(vec![
            cell(0, "x", false),
            cell(1, "y", false),
            cell(2, "A Game", false),
            cell(3, "1", true),
        ])
    );
    // A record that ends early leaves no gaps: its later cells move to the left.
    assert_eq!(
        sheets[1].cells(3, &names(&["A Game", "1"])),
        Ok(vec![cell(0, "A Game", false), cell(1, "1", true)])
    );
}

#[test]
fn a_row_number_too_large_for_a_sheet_is_an_error() {
    let sheet = Sheet {
        name: "t".to_string(),
        source: "tmp/t.csv".to_string(),
        header: names(&["a"]),
        columns: vec![0],
        numeric: vec![false],
    };
    let error = sheet.cells(u32::MAX as usize, &names(&["x"])).err().unwrap();
    assert_eq!(error, Error::FlattererIntError);
    assert_eq!(error.to_text(), "Could not convert usize to int");
    assert_eq!(sheet.cells(u32::MAX as usize, &vec![]), Ok(vec![]));
    assert_eq!(sheet.cells(u32::MAX as usize - 1, &names(&["x"])).unwrap()[0].row, u32::MAX);
}

#[test]
fn sheet_names_are_cut() {
    let mut flat_files = files(true, true, None, "a_very_long_prefix_for_the_tables_");
    take(&mut flat_files, obj(vec![("a", n("1"))]));
    flat_files.write_files();
    assert_eq!(flat_files.write_xlsx()[0].name, "a_very_long_prefix_for_the_tabl");
}

fn types() -> SqlTypes {
    SqlTypes {
        named: NameMap::of(vec![
            ("number".to_string(), "NUMERIC".to_string()),
            ("text".to_string(), "TEXT".to_string()),
        ]),
        other: "ANY".to_string(),
    }
}

#[test]
fn sql_scripts() {
    let mut flat_files = games();
    flat_files.write_files();
    let schema = "CREATE TABLE \"platforms\"(\n    \"_link\" TEXT,\n    \"_link_main\" TEXT,\n    \"name\" TEXT);\n\nCREATE TABLE \"main\"(\n    \"_link\" TEXT,\n    \"_link_main\" TEXT,\n    \"title\" TEXT,\n    \"id\" NUMERIC,\n    \"rating\" NUMERIC);\n\n";
    let postgresql = flat_files.write_postgresql(&types());
    assert_eq!(postgresql.schema, schema);
    assert_eq!(
        postgresql.load,
        "\\copy \"platforms\" from 'csv/Platforms.csv' with CSV HEADER\n\\copy \"main\" from 'csv/main.csv' with CSV HEADER\n"
    );
    let sqlite = flat_files.write_sqlite(&types());
    assert_eq!(sqlite.schema, schema);
    assert_eq!(
        sqlite.load,
        ".mode csv \n.import 'csv/Platforms.csv' platforms --skip 1 \n.import 'csv/main.csv' main --skip 1 \n"
    );
    assert_eq!(types().type_of(&"date".to_string()), "ANY");
}

#[test]
fn tables_are_listed_by_name() {
    let mut flat_files = games();
    flat_files.write_files();
    assert_eq!(
        flat_files.write_fields_csv(),
        [
            names(&["table_name", "field_name", "field_type", "field_title", "count"]),
            names(&["Platforms", "_link", "text", "_link", "2"]),
            names(&["Platforms", "_link_main", "text", "_link_main", "2"]),
            names(&["Platforms", "name", "text", "name", "2"]),
            names(&["main", "_link", "text", "_link", "2"]),
            names(&["main", "_link_main", "text", "_link_main", "2"]),
            names(&["main", "Title", "text", "Title", "1"]),
            names(&["main", "id", "number", "id", "2"]),
            names(&["main", "rating", "number", "rating", "1"]),
        ]
    );
    let mut two = files(true, false, None, "");
    for table in ["b", "a", "\u{e9}", "aa"] {
        let mut metadata = TableMetadata::new(table, "main", "_", "", "".to_string());
        metadata.rows = 1;
        two.table_metadata.insert(table.to_string(), metadata);
    }
    let listed: Vec<String> = two
        .written_places()
        .iter()
        .map(|place| two.table_metadata.name(*place).clone())
        .collect();
    assert_eq!(listed, ["a", "aa", "b", "\u{e9}"]);
}

#[test]
fn tables_left_out_are_not_written() {
    let mut flat_files = files(true, true, None, "");
    flat_files.inline_one_to_one = true;
    take(&mut flat_files, obj(vec![("e", Value::Array(vec![obj(vec![("x", n("1"))])]))]));
    flat_files.write_files();
    assert!(metadata(&flat_files, "e").ignore);
    let csvs = flat_files.write_csvs();
    assert_eq!(csvs.len(), 1);
    assert_eq!(csvs[0].target, "csv/main.csv");
    assert_eq!(flat_files.write_xlsx().len(), 1);
    assert_eq!(flat_files.write_fields_csv().len(), 4);
    assert_eq!(
        flat_files.write_sqlite(&types()).load,
        ".mode csv \n.import 'csv/main.csv' main --skip 1 \n"
    );
}

#[test]
fn the_data_package() {
    let mut flat_files = files(true, false, None, "");
    take(&mut flat_files, obj(vec![("a", n("1"))]));
    flat_files.write_files();
    assert_eq!(
        flat_files.write_data_package().to_text(),
        "{\"profile\":\"tabular-data-package\",\"resources\":[{\"profile\":\"tabular-data-resource\",\"name\":\"main\",\"schema\":{\"fields\":[{\"name\":\"_link\",\"type\":\"text\",\"count\":1},{\"name\":\"_link_main\",\"type\":\"text\",\"count\":1},{\"name\":\"a\",\"type\":\"number\",\"count\":1}],\"primaryKey\":\"_link\"},\"path\":\"csv/main.csv\"}]}"
    );
    flat_files.csv = false;
    assert_eq!(
        flat_files.write_data_package().to_text(),
        "{\"profile\":\"tabular-data-package\",\"resources\":[{\"profile\":\"tabular-data-resource\",\"name\":\"main\",\"schema\":{\"fields\":[{\"name\":\"_link\",\"type\":\"text\",\"count\":1},{\"name\":\"_link_main\",\"type\":\"text\",\"count\":1},{\"name\":\"a\",\"type\":\"number\",\"count\":1}],\"primaryKey\":\"_link\"}}]}"
    );
}

#[test]
fn lines_hold_their_chunks() {
    let mut writer = JLWriter::new();
    assert_eq!(writer.write(b"{\"a\""), LineAction::Wait);
    assert_eq!(writer.write(b":1}\n\n"), LineAction::Wait);
    assert_eq!(writer.write(b"\n"), LineAction::Send(b"{\"a\":1}\n\n".to_vec()));
    assert_eq!(writer.buf, b"{\"a\":1}\n\n");
    writer.sent();
    assert!(writer.buf.is_empty());
    assert_eq!(writer.write(b""), LineAction::Wait);
    assert_eq!(writer.write(b"\n"), LineAction::Send(vec![]));
}

#[test]
fn texts() {
    assert_eq!(decimal_text(0), "0");
    assert_eq!(decimal_text(10), "10");
    assert_eq!(decimal_text(u128::MAX), u128::MAX.to_string());
    assert!(same_text("", ""));
    assert!(!same_text("a", "ab"));
    assert!(!same_text("ab", "aB"));
    assert!(starts_with("abc", "ab"));
    assert!(starts_with("abc", ""));
    assert!(!starts_with("ab", "abc"));
    assert!(!starts_with("xab", "ab"));
    assert_eq!(drop_bytes("\u{e9}a", 2), "a");
    assert_eq!(keep_bytes("\u{e9}ab", 3), "\u{e9}a");
    assert_eq!(keep_bytes("ab", 3), "ab");
}

#[test]
fn paths_below_a_directory() {
    assert_eq!(join_path("", "tmp/a.csv"), "tmp/a.csv");
    assert_eq!(join_path("out", "tmp/a.csv"), "out/tmp/a.csv");
    assert_eq!(join_path("/", "tmp/a.csv"), "/tmp/a.csv");
    assert_eq!(join_path("a/\u{e9}/", "tmp/a.csv"), "a/\u{e9}/tmp/a.csv");
    assert_eq!(join_path("/a", &tmp_file_name("t")), "/a/tmp/t.csv");
    assert!(ends_with("a\u{e9}", '\u{e9}'));
    assert!(!ends_with("", 'a'));
}

#[test]
fn paths() {
    let path = KeyPath::from_keys(&names(&["a", "b", "c", "d", "e", "f"]));
    assert_eq!(path.join("/"), "a/b/c/d/e/f");
    assert!(!path.is_empty());
    assert!(KeyPath::new().is_empty());
    assert_eq!(KeyPath::new().join("/"), "");
    assert!(path.same(&path.clone()));
    assert!(!path.same(&KeyPath::new().child("a")));
    assert_eq!(PathItem::Key("k".to_string()).to_text(), "k");
    assert_eq!(PathItem::Index(30).to_text(), "30");
}

#[test]
fn conditions_can_be_tested() {
    let mut flat_files = files(true, false, None, "\u{e9}_");
    assert!(flat_files.can_label_table(&"\u{e9}_main".to_string()));
    assert!(flat_files.can_label_table(&"\u{e9}_x".to_string()));
    assert!(flat_files.can_label_table(&"abc".to_string()));
    assert!(!flat_files.can_label_table(&"a\u{20ac}".to_string()));
    assert!(!flat_files.can_label_table(&"a".to_string()));
    assert!(flat_files.rows_will_fit());
    take(&mut flat_files, obj(vec![("a", n("1"))]));
    let main = "\u{e9}_main".to_string();
    let mut full = TableMetadata::new(&main, &main, "_", "", "".to_string());
    full.rows = u32::MAX;
    flat_files.table_metadata.insert(main, full);
    assert!(flat_files.rows_will_fit());
    flat_files.process_value(obj(vec![("a", n("2"))]));
    assert!(!flat_files.rows_will_fit());
    assert!(can_cut_sheet_name(&"a".repeat(40)));
    assert!(!can_cut_sheet_name(&"\u{e9}".repeat(20)));
    assert!(can_cut_sheet_name(&"\u{e9}".repeat(15)));
    assert!(cuts_at("", 0));
    assert!(!cuts_at("", 1));
}

#[test]
fn maps_keep_their_order() {
    let mut map: NameMap<u8> = NameMap::new();
    for (i, name) in ["a", "b", "c", "d"].iter().enumerate() {
        map.insert(name.to_string(), i as u8);
    }
    map.insert("b".to_string(), 9);
    assert_eq!(map.get(&"b".to_string()), Some(&9));
    assert_eq!(map.find(&"b".to_string()), Some(1));
    map.remove(&"a".to_string());
    assert_eq!(map.len(), 3);
    assert_eq!(map.name(0), "d");
    assert_eq!(map.value(0), &3);
    assert_eq!(map.get(&"a".to_string()), None);
    assert_eq!(map.replace(2, 7), 2);
    assert_eq!(map.value(2), &7);
}

fn waiting_records(flat_files: &FlatFiles, table: &str) -> Vec<Vec<String>> {
    match waiting(flat_files, table) {
        TmpCSVWriter::Disk(list) => list.clone(),
        TmpCSVWriter::Nowhere => panic!(),
    }
}

#[test]
fn batches_do_not_matter() {
    let documents = || {
        vec![
            obj(vec![("a", n("1")), ("e", Value::Array(vec![obj(vec![("x", n("1"))])]))]),
            obj(vec![("b", s("2005-01-01"))]),
            obj(vec![("a", s("t")), ("e", Value::Array(vec![obj(vec![("y", n("2"))])]))]),
        ]
    };
    let mut apart = files(true, false, None, "");
    for document in documents() {
        take(&mut apart, document);
    }
    let mut at_once = files(true, false, None, "");
    for document in documents() {
        at_once.process_value(document);
    }
    at_once.create_rows();
    assert_eq!(apart.table_metadata.len(), at_once.table_metadata.len());
    for table in ["main", "e"] {
        let one = metadata(&apart, table);
        let other = metadata(&at_once, table);
        assert_eq!(one.fields, other.fields);
        assert_eq!(one.field_type, other.field_type);
        assert_eq!(one.field_counts, other.field_counts);
        assert_eq!(one.field_titles, other.field_titles);
        assert_eq!(one.rows, other.rows);
        assert_eq!(waiting_records(&apart, table), waiting_records(&at_once, table));
    }
    assert_eq!(waiting_records(&apart, "main").len(), 3);
    assert_eq!(apart.table_rows, at_once.table_rows);
}

#[test]
fn the_list_of_columns_is_read_back() {
    let mut flat_files = games();
    flat_files.write_files();
    let columns: Vec<FieldsRecord> = flat_files.write_fields_csv()[1..]
        .iter()
        .map(|record| FieldsRecord {
            table_name: record[0].clone(),
            field_name: record[1].clone(),
            field_type: record[2].clone(),
            field_title: Some(record[3].clone()),
        })
        .collect();
    let mut others = files(true, false, None, "");
    others.use_fields_csv(columns, false);
    assert!(!others.only_fields);
    assert_eq!(others.table_metadata.len(), 2);
    let main = metadata(&others, "main");
    assert_eq!(main.fields, ["_link", "_link_main", "Title", "id", "rating"]);
    assert_eq!(main.field_titles, ["_link", "_link_main", "Title", "id", "rating"]);
    assert_eq!(main.field_type, ["text", "text", "text", "number", "number"]);
    assert_eq!(main.field_counts, [0; 5]);
    assert_eq!(main.ignore_fields, [false; 5]);
    assert_eq!(main.rows, 0);
    assert_eq!(metadata(&others, "Platforms").fields, ["_link", "_link_main", "name"]);
}

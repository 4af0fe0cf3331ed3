//! Documents and the rows that they give.

use libflatterer::files::FlatFiles;
use libflatterer::path::{FullPath, KeyPath, PathItem};
use libflatterer::value::{NameMap, Object, Value};

fn s(text: &str) -> Value {
    Value::String(text.to_string())
}

fn n(text: &str) -> Value {
    Value::Number(text.to_string())
}

fn members(list: Vec<(&str, Value)>) -> Object {
    NameMap::of(list.into_iter().map(|(k, v)| (k.to_string(), v)).collect())
}

fn obj(list: Vec<(&str, Value)>) -> Value {
    Value::Object(members(list))
}

fn arr(list: Vec<Value>) -> Value {
    Value::Array(list)
}

fn files(inline_one_to_one: bool, emit_obj: Vec<Vec<&str>>, prefix: &str) -> FlatFiles {
    FlatFiles::new(
        "output".to_string(),
        false,
        true,
        true,
        true,
        "main".to_string(),
        emit_obj
            .into_iter()
            .map(|path| path.into_iter().map(|key| key.to_string()).collect())
            .collect(),
        inline_one_to_one,
        None,
        prefix.to_string(),
        "_".to_string(),
    )
    .unwrap()
}

fn rows<'a>(flat_files: &'a FlatFiles, table: &str) -> &'a Vec<Object> {
    flat_files.table_rows.get(&table.to_string()).unwrap()
}

fn tables(flat_files: &FlatFiles) -> Vec<String> {
    (0..flat_files.table_rows.len()).map(|i| flat_files.table_rows.name(i).clone()).collect()
}

fn keys(path: &KeyPath) -> Vec<String> {
    path.to_keys()
}

struct Expected<'a> {
    fields: Vec<&'a str>,
    field_type: Vec<&'a str>,
    field_counts: Vec<u32>,
    rows: u32,
    ignore: bool,
    ignore_fields: Vec<bool>,
    label: &'a str,
}

fn assert_metadata(flat_files: &FlatFiles, table: &str, expected: Expected) {
    let metadata = flat_files.table_metadata.get(&table.to_string()).unwrap();
    assert_eq!(metadata.fields, expected.fields);
    assert_eq!(metadata.field_titles, expected.fields);
    assert_eq!(metadata.field_type, expected.field_type);
    assert_eq!(metadata.field_counts, expected.field_counts);
    assert_eq!(metadata.rows, expected.rows);
    assert_eq!(metadata.ignore, expected.ignore);
    assert_eq!(metadata.ignore_fields, expected.ignore_fields);
    assert_eq!(metadata.order, Vec::<usize>::new());
    assert_eq!(metadata.table_name_with_separator, expected.label);
}

fn nested_document() -> Value {
    obj(vec![
        ("a", s("a")),
        ("c", arr(vec![s("a"), s("b"), s("c")])),
        ("d", obj(vec![("da", s("da")), ("db", s("2005-01-01"))])),
        (
            "e",
            arr(vec![
                obj(vec![("ea", n("1")), ("eb", s("eb2"))]),
                obj(vec![("ea", n("2")), ("eb", s("eb2"))]),
            ]),
        ),
    ])
}

#[test]
fn check_nesting() {
    let mut flat_files = files(false, vec![], "");

    flat_files.process_value(nested_document());

    assert_eq!(tables(&flat_files), ["e", "main"]);
    assert_eq!(
        rows(&flat_files, "e"),
        &vec![
            members(vec![
                ("ea", n("1")),
                ("eb", s("eb2")),
                ("_link", s("1.e.0")),
                ("_link_main", s("1")),
            ]),
            members(vec![
                ("ea", n("2")),
                ("eb", s("eb2")),
                ("_link", s("1.e.1")),
                ("_link_main", s("1")),
            ]),
        ]
    );
    assert_eq!(
        rows(&flat_files, "main"),
        &vec![members(vec![
            ("a", s("a")),
            ("c", s("a,b,c")),
            ("d_da", s("da")),
            ("d_db", s("2005-01-01")),
            ("_link", s("1")),
            ("_link_main", s("1")),
        ])]
    );

    flat_files.create_rows();

    assert_eq!(tables(&flat_files), ["e", "main"]);
    assert!(rows(&flat_files, "e").is_empty());
    assert!(rows(&flat_files, "main").is_empty());

    assert_metadata(
        &flat_files,
        "e",
        Expected {
            fields: vec!["ea", "eb", "_link", "_link_main"],
            field_type: vec!["number", "text", "text", "text"],
            field_counts: vec![2, 2, 2, 2],
            rows: 2,
            ignore: false,
            ignore_fields: vec![false; 4],
            label: "e_",
        },
    );
    assert_metadata(
        &flat_files,
        "main",
        Expected {
            fields: vec!["a", "c", "d_da", "d_db", "_link", "_link_main"],
            field_type: vec!["text", "text", "text", "date", "text", "text"],
            field_counts: vec![1; 6],
            rows: 1,
            ignore: false,
            ignore_fields: vec![false; 6],
            label: "",
        },
    );

    flat_files.process_value(nested_document());
    flat_files.create_rows();

    assert_eq!(tables(&flat_files), ["e", "main"]);
    assert!(rows(&flat_files, "e").is_empty());
    assert!(rows(&flat_files, "main").is_empty());

    assert_metadata(
        &flat_files,
        "e",
        Expected {
            fields: vec!["ea", "eb", "_link", "_link_main"],
            field_type: vec!["number", "text", "text", "text"],
            field_counts: vec![4, 4, 4, 4],
            rows: 4,
            ignore: false,
            ignore_fields: vec![false; 4],
            label: "e_",
        },
    );
    assert_metadata(
        &flat_files,
        "main",
        Expected {
            fields: vec!["a", "c", "d_da", "d_db", "_link", "_link_main"],
            field_type: vec!["text", "text", "text", "date", "text", "text"],
            field_counts: vec![2; 6],
            rows: 2,
            ignore: false,
            ignore_fields: vec![false; 6],
            label: "",
        },
    );
}

#[test]
fn test_inline_o2o_when_o2o() {
    let json1 =
        obj(vec![("id", s("1")), ("e", arr(vec![obj(vec![("ea", n("1")), ("eb", s("eb2"))])]))]);
    let json2 =
        obj(vec![("id", s("2")), ("e", arr(vec![obj(vec![("ea", n("2")), ("eb", s("eb2"))])]))]);

    let mut flat_files = files(true, vec![], "");

    flat_files.process_value(json1);
    flat_files.process_value(json2);

    flat_files.create_rows();
    flat_files.mark_ignore();

    assert_metadata(
        &flat_files,
        "e",
        Expected {
            fields: vec!["ea", "eb", "_link", "_link_main"],
            field_type: vec!["number", "text", "text", "text"],
            field_counts: vec![2, 2, 2, 2],
            rows: 2,
            ignore: true,
            ignore_fields: vec![false; 4],
            label: "e_",
        },
    );
    assert_metadata(
        &flat_files,
        "main",
        Expected {
            fields: vec!["id", "e_ea", "e_eb", "_link", "_link_main"],
            field_type: vec!["text", "number", "text", "text", "text"],
            field_counts: vec![2; 5],
            rows: 2,
            ignore: false,
            ignore_fields: vec![false; 5],
            label: "",
        },
    );
}

#[test]
fn test_inline_o2o_when_o2m() {
    let json1 =
        obj(vec![("id", s("1")), ("e", arr(vec![obj(vec![("ea", n("1")), ("eb", s("eb2"))])]))]);
    let json2 = obj(vec![
        ("id", s("2")),
        (
            "e",
            arr(vec![
                obj(vec![("ea", n("2")), ("eb", s("eb2"))]),
                obj(vec![("ea", n("3")), ("eb", s("eb3"))]),
            ]),
        ),
    ]);

    let mut flat_files = files(true, vec![], "");

    flat_files.process_value(json1);
    flat_files.process_value(json2);

    flat_files.create_rows();
    flat_files.mark_ignore();

    assert_metadata(
        &flat_files,
        "e",
        Expected {
            fields: vec!["ea", "eb", "_link", "_link_main"],
            field_type: vec!["number", "text", "text", "text"],
            field_counts: vec![3, 3, 3, 3],
            rows: 3,
            ignore: false,
            ignore_fields: vec![false; 4],
            label: "e_",
        },
    );
    assert_metadata(
        &flat_files,
        "main",
        Expected {
            fields: vec!["id", "e_ea", "e_eb", "_link", "_link_main"],
            field_type: vec!["text", "number", "text", "text", "text"],
            field_counts: vec![2, 1, 1, 2, 2],
            rows: 2,
            ignore: false,
            ignore_fields: vec![false, true, true, false, false],
            label: "",
        },
    );
}

#[test]
fn one_to_one_arrays_move_when_they_grow() {
    let mut flat_files = files(true, vec![], "");
    flat_files.process_value(obj(vec![("e", arr(vec![obj(vec![("x", n("1"))])]))]));
    assert_eq!(flat_files.one_to_one_arrays.iter().map(keys).collect::<Vec<_>>(), [["e"]]);
    assert!(flat_files.one_to_many_arrays.is_empty());
    flat_files.process_value(obj(vec![(
        "e",
        arr(vec![obj(vec![("x", n("1"))]), obj(vec![("x", n("2"))])]),
    )]));
    assert!(flat_files.one_to_one_arrays.is_empty());
    assert_eq!(flat_files.one_to_many_arrays.iter().map(keys).collect::<Vec<_>>(), [["e"]]);
    flat_files.process_value(obj(vec![("e", arr(vec![obj(vec![("x", n("3"))])]))]));
    assert!(flat_files.one_to_one_arrays.is_empty());
    assert_eq!(
        rows(&flat_files, "main")[2],
        members(vec![("_link", s("3")), ("_link_main", s("3"))])
    );
}

#[test]
fn arrays_inside_an_inlined_item_have_their_rows_once() {
    let mut flat_files = files(true, vec![], "");
    flat_files.process_value(obj(vec![(
        "e",
        arr(vec![obj(vec![("f", arr(vec![obj(vec![("g", n("1"))])]))])]),
    )]));
    assert_eq!(rows(&flat_files, "e_f").len(), 1);
    assert_eq!(rows(&flat_files, "e").len(), 1);
    assert_eq!(
        rows(&flat_files, "main"),
        &vec![members(vec![("e_f_g", n("1")), ("_link", s("1")), ("_link_main", s("1"))])]
    );
}

#[test]
fn nested_items_link_to_the_items_around_them() {
    let mut flat_files = files(false, vec![], "");
    flat_files.row_number = 12;
    flat_files.process_value(obj(vec![(
        "a",
        arr(vec![
            obj(vec![]),
            obj(vec![(
                "b",
                arr(vec![obj(vec![("c", arr(vec![obj(vec![("d", Value::Bool(true))])]))])]),
            )]),
        ]),
    )]));
    assert_eq!(
        rows(&flat_files, "a_b_c"),
        &vec![members(vec![
            ("d", Value::Bool(true)),
            ("_link_a", s("12.a.1")),
            ("_link_a_b", s("12.a.1.b.0")),
            ("_link", s("12.a.1.b.0.c.0")),
            ("_link_main", s("12")),
        ])]
    );
    assert_eq!(
        rows(&flat_files, "a"),
        &vec![
            members(vec![("_link", s("12.a.0")), ("_link_main", s("12"))]),
            members(vec![("_link", s("12.a.1")), ("_link_main", s("12"))]),
        ]
    );
    assert_eq!(flat_files.row_number, 13);
}

#[test]
fn emitted_objects_have_rows_of_their_own() {
    let mut flat_files = files(false, vec![vec!["d", "e"]], "pre_");
    flat_files.process_value(obj(vec![(
        "d",
        obj(vec![("x", n("1")), ("e", obj(vec![("y", n("2"))]))]),
    )]));
    assert_eq!(flat_files.main_table_name, "pre_main");
    assert_eq!(tables(&flat_files), ["pre_d_e", "pre_main"]);
    assert_eq!(
        rows(&flat_files, "pre_d_e"),
        &vec![members(vec![("y", n("2")), ("_link", s("1")), ("_link_pre_main", s("1"))])]
    );
    assert_eq!(
        rows(&flat_files, "pre_main"),
        &vec![members(vec![("d_x", n("1")), ("_link", s("1")), ("_link_pre_main", s("1"))])]
    );
}

#[test]
fn other_arrays_become_texts() {
    let mut flat_files = files(false, vec![], "");
    flat_files.process_value(obj(vec![
        ("empty", arr(vec![])),
        ("mixed", arr(vec![s("q\"\n\u{1}\u{e9}"), n("1.5"), Value::Null, obj(vec![("k", Value::Bool(false))])])),
        ("numbers", arr(vec![n("1"), n("2")])),
        ("strings", arr(vec![s("x"), s("y")])),
    ]));
    let row = &rows(&flat_files, "main")[0];
    assert_eq!(row.get(&"empty".to_string()), None);
    assert_eq!(
        row.get(&"mixed".to_string()),
        Some(&s("[\"q\\\"\\n\\u0001\u{e9}\",1.5,null,{\"k\":false}]"))
    );
    assert_eq!(row.get(&"numbers".to_string()), Some(&s("[1,2]")));
    assert_eq!(row.get(&"strings".to_string()), Some(&s("x,y")));
}

#[test]
fn the_last_member_takes_the_place_of_a_removed_one() {
    let mut flat_files = files(false, vec![], "");
    flat_files.process_value(obj(vec![
        ("gone", arr(vec![])),
        ("b", n("1")),
        ("c", n("2")),
    ]));
    assert_eq!(
        rows(&flat_files, "main"),
        &vec![members(vec![
            ("c", n("2")),
            ("b", n("1")),
            ("_link", s("1")),
            ("_link_main", s("1")),
        ])]
    );
}

#[test]
fn documents_that_are_no_objects_give_nothing() {
    let mut flat_files = files(false, vec![], "");
    flat_files.process_value(arr(vec![obj(vec![("a", n("1"))])]));
    flat_files.process_value(Value::Null);
    assert_eq!(flat_files.row_number, 1);
    assert_eq!(flat_files.table_rows.len(), 0);
}

#[test]
fn rows_of_earlier_documents_stay() {
    let mut flat_files = files(false, vec![], "");
    flat_files.process_value(obj(vec![("a", n("1"))]));
    flat_files.process_value(obj(vec![("a", n("2"))]));
    assert_eq!(
        rows(&flat_files, "main"),
        &vec![
            members(vec![("a", n("1")), ("_link", s("1")), ("_link_main", s("1"))]),
            members(vec![("a", n("2")), ("_link", s("2")), ("_link_main", s("2"))]),
        ]
    );
}

#[test]
fn process_obj_gives_a_row_to_its_table() {
    let mut flat_files = files(false, vec![], "p-");
    let path = KeyPath::from_keys(&vec!["a".to_string(), "b".to_string()]);
    let mut full = FullPath::new();
    full = full.child(PathItem::Key("a".to_string()));
    full = full.child(PathItem::Index(7));
    flat_files.process_obj(
        members(vec![("x", Value::Null)]),
        path,
        vec![full],
        vec![KeyPath::from_keys(&vec!["a".to_string()])],
    );
    assert_eq!(
        rows(&flat_files, "p-a_b"),
        &vec![members(vec![
            ("x", Value::Null),
            ("_link", s("1.a.7")),
            ("_link_p-main", s("1")),
        ])]
    );
}

fn deep_document(x: &str) -> Value {
    let leaf = |text: &str| obj(vec![("leaf", s(text))]);
    let item = |text: &str| {
        obj(vec![
            ("name", s(text)),
            ("b", arr(vec![leaf("p"), leaf("q")])),
            ("o", obj(vec![("b", arr(vec![leaf("r")]))])),
        ])
    };
    obj(vec![
        ("x", s(x)),
        ("a", arr(vec![item("one"), item("two")])),
        ("o", obj(vec![("a", arr(vec![item("three")]))])),
    ])
}

fn link(row: &Object, column: &str) -> Option<String> {
    match row.get(&column.to_string()) {
        Some(Value::String(text)) => Some(text.clone()),
        Some(_) => panic!(),
        None => None,
    }
}

#[test]
fn links_are_unique_and_lead_to_rows() {
    for inline in [false, true] {
        let mut flat_files = files(inline, vec![], "");
        flat_files.process_value(deep_document("1"));
        flat_files.process_value(deep_document("2"));
        let names = tables(&flat_files);
        assert!(names.contains(&"a_o_b".to_string()));
        for table in &names {
            let links: Vec<String> =
                rows(&flat_files, table).iter().map(|row| link(row, "_link").unwrap()).collect();
            for (i, one) in links.iter().enumerate() {
                assert!(!links[i + 1..].contains(one));
            }
        }
        for table in &names {
            for row in rows(&flat_files, table) {
                assert!(link(row, "_link_main").is_some());
                for to in &names {
                    if let Some(target) = link(row, &format!("_link_{}", to)) {
                        assert!(rows(&flat_files, to)
                            .iter()
                            .any(|other| link(other, "_link") == Some(target.clone())));
                    }
                }
            }
        }
    }
}

#[test]
fn keys_with_dots_confuse_links() {
    let mut flat_files = files(false, vec![], "");
    let item = || obj(vec![("x", n("1"))]);
    flat_files.process_value(obj(vec![
        ("a", arr(vec![obj(vec![("b_c", arr(vec![item()]))])])),
        ("a.0", obj(vec![("b_c", arr(vec![item()]))])),
    ]));
    assert_eq!(link(&rows(&flat_files, "a_b_c")[0], "_link").unwrap(), "1.a.0.b_c.0");
    assert_eq!(link(&rows(&flat_files, "a.0_b_c")[0], "_link").unwrap(), "1.a.0.b_c.0");
}

#[test]
fn without_inlining_no_array_is_listed() {
    let mut flat_files = files(false, vec![], "");
    flat_files.process_value(deep_document("1"));
    assert!(flat_files.one_to_one_arrays.is_empty());
    assert!(flat_files.one_to_many_arrays.is_empty());
    let mut flat_files = files(true, vec![], "");
    flat_files.process_value(deep_document("1"));
    let first: Vec<Vec<String>> = flat_files.one_to_many_arrays.iter().map(keys).collect();
    assert_eq!(first, [vec!["a"], vec!["a", "b"], vec!["o", "a", "b"]]);
    flat_files.process_value(obj(vec![("z", arr(vec![obj(vec![]), obj(vec![])]))]));
    let second: Vec<Vec<String>> = flat_files.one_to_many_arrays.iter().map(keys).collect();
    assert_eq!(second[..3], first[..]);
    assert_eq!(second[3..], [vec!["z"]]);
}

#[test]
fn long_keys_are_kept() {
    for length in [22, 23, 24, 25, 26, 47, 48, 49, 50, 200] {
        let key = "k".repeat(length);
        let inner = "i".repeat(length);
        let path = KeyPath::from_keys(&vec![key.clone(), inner.clone()]);
        assert_eq!(path.to_keys(), [key.clone(), inner.clone()]);
        assert_eq!(path.clone().join("/"), format!("{}/{}", key, inner));
        assert!(path.same(&KeyPath::new().child(&key).child(&inner)));
        assert!(!path.same(&KeyPath::new().child(&key).child(&key)));

        let mut flat_files = files(true, vec![vec![&inner, &key]], "");
        flat_files.process_value(obj(vec![
            (
                &key,
                arr(vec![
                    obj(vec![(&inner, arr(vec![obj(vec![("x", n("1"))]), obj(vec![])]))]),
                    obj(vec![]),
                ]),
            ),
            (&inner, obj(vec![(&key, obj(vec![("y", n("2"))]))])),
        ]));
        let both = format!("{}_{}", key, inner);
        let emitted = format!("{}_{}", inner, key);
        assert_eq!(tables(&flat_files), [&both, &key, &emitted, &"main".to_string()].map(String::clone));
        assert_eq!(
            rows(&flat_files, &both)[0],
            members(vec![
                ("x", n("1")),
                (&format!("_link_{}", key), s(&format!("1.{}.0", key))),
                ("_link", s(&format!("1.{}.0.{}.0", key, inner))),
                ("_link_main", s("1")),
            ])
        );
        assert_eq!(
            flat_files.one_to_many_arrays.iter().map(keys).collect::<Vec<_>>(),
            [vec![key.clone()], vec![key.clone(), inner.clone()]]
        );
    }
}

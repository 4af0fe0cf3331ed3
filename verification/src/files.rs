//! The gathering of documents into tables.

use crate::extend::{
    lemma_flatten_extends, lemma_gone_array, lemma_gone_object, lemma_with_row_extends,
};
use crate::flatten::{
    all_objects, all_strings, array_texts, flatten, flatten_arrays, flatten_items, flatten_objects,
    gone_arrays, gone_objects, inlined, lemma_flatten_arrays_grows, lemma_without_all_agree, nested,
    put_all, rows_in, string_texts, table_name, under, with_array, with_links, with_row,
    without_all, without_path, Place, Rules, Store,
};
use crate::metadata::TableMetadata;
use crate::path::{
    copy_full_paths, copy_key_paths, full_paths, holds_path, key_paths, keys_of, steps_of, FullPath,
    KeyPath, PathItem,
};
use crate::spool::lemma_rows_keep_wf;
use crate::text::{decimal, decimal_text, join, join_texts, texts, Text};
use crate::value::{
    by_name, distinct, fields, item_list, lemma_array_json, lemma_fields_change, lemma_object_json,
    lemma_place_of, lemma_same_keys, lemma_tidy_array, lemma_tidy_item, lemma_tidy_member,
    lemma_tidy_object, put, tidy, Fields, Json, NameMap, Object, Value,
};
use regex::Regex;
use vstd::prelude::*;

verus! {

/// Where the rows of a table go as they come: into a file, as far as they wait to be written there,
/// or nowhere.
#[derive(Debug)]
pub enum TmpCSVWriter {
    Disk(Vec<Vec<String>>),
    Nowhere,
}

/// The tables that documents are flattened into, and how it is done.
#[derive(Debug)]
pub struct FlatFiles {
    pub output_path: String,
    pub csv: bool,
    pub xlsx: bool,
    pub main_table_name: String,
    pub emit_obj: Vec<KeyPath>,
    pub row_number: u128,
    pub date_regexp: Regex,
    pub table_rows: NameMap<Vec<Object>>,
    pub tmp_csvs: NameMap<TmpCSVWriter>,
    pub table_metadata: NameMap<TableMetadata>,
    pub only_fields: bool,
    pub inline_one_to_one: bool,
    pub one_to_many_arrays: Vec<KeyPath>,
    pub one_to_one_arrays: Vec<KeyPath>,
    pub table_prefix: String,
    pub path_separator: String,
    pub order_map: NameMap<usize>,
    pub field_titles_map: NameMap<String>,
    pub preview: usize,
}

/// The rows that a list of objects stands for.
pub open spec fn row_list(rows: Seq<Object>) -> Seq<Fields> {
    Seq::new(rows.len(), |i: int| fields(rows[i].view()))
}

/// The rows of each table.
pub open spec fn row_lists(tables: Seq<(Text, Vec<Object>)>) -> Seq<(Text, Seq<Fields>)> {
    Seq::new(tables.len(), |i: int| (tables[i].0, row_list(tables[i].1@)))
}

/// The place that the lists of a call stand for.
pub open spec fn place_at(
    full_path: FullPath,
    no_index_path: KeyPath,
    one_to_many_full_paths: Seq<FullPath>,
    one_to_many_no_index_paths: Seq<KeyPath>,
) -> Place {
    Place {
        steps: steps_of(full_path),
        keys: keys_of(no_index_path),
        item_steps: full_paths(one_to_many_full_paths),
        item_keys: key_paths(one_to_many_no_index_paths),
    }
}

impl FlatFiles {
    /// What the flattening of the next document goes by.
    pub open spec fn rules(self) -> Rules {
        Rules {
            inline: self.inline_one_to_one,
            emit: key_paths(self.emit_obj@),
            separator: self.path_separator@,
            prefix: self.table_prefix@,
            main: self.main_table_name@,
            number: self.row_number as nat,
        }
    }

    /// What the documents so far have given.
    pub open spec fn store(self) -> Store {
        Store {
            rows: row_lists(self.table_rows.view()),
            one_to_many: key_paths(self.one_to_many_arrays@),
            one_to_one: key_paths(self.one_to_one_arrays@),
        }
    }

    /// Another state that differs at most in what the documents have given.
    pub open spec fn with_store_of(self, other: FlatFiles) -> FlatFiles {
        FlatFiles {
            table_rows: other.table_rows,
            one_to_many_arrays: other.one_to_many_arrays,
            one_to_one_arrays: other.one_to_one_arrays,
            ..self
        }
    }

    /// Gives a row to the table of its path, with the links to the rows that it belongs to.
    pub fn process_obj(
        &mut self,
        obj: Object,
        no_index_path: KeyPath,
        one_to_many_full_paths: Vec<FullPath>,
        one_to_many_no_index_paths: Vec<KeyPath>,
    )
        ensures
            *final(self) == old(self).with_store_of(*final(self)),
            final(self).store() == with_row(
                old(self).rules(),
                old(self).store(),
                fields(obj.view()),
                keys_of(no_index_path),
                full_paths(one_to_many_full_paths@),
                key_paths(one_to_many_no_index_paths@),
            ),
            old(self).wf() ==> final(self).wf(),
    {
        let ghost start_files = *self;
        let ghost place = Place {
            steps: Seq::empty(),
            keys: keys_of(no_index_path),
            item_steps: full_paths(one_to_many_full_paths@),
            item_keys: key_paths(one_to_many_no_index_paths@),
        };
        let ghost first_row = fields(obj.view());
        let _ = self.table_rows.len();
        let ghost rules = self.rules();
        let ghost item_steps = full_paths(one_to_many_full_paths@);
        let ghost item_keys = key_paths(one_to_many_no_index_paths@);
        let mut obj = obj;
        let number = decimal_text(self.row_number);
        if one_to_many_full_paths.len() == 0 {
            proof {
                lemma_fields_change(obj.view(), "_link"@, Value::String(number));
            }
            obj.insert("_link".to_owned(), Value::String(number.clone()));
        }
        let ghost start = fields(obj.view());
        let n = if one_to_many_full_paths.len() <= one_to_many_no_index_paths.len() {
            one_to_many_full_paths.len()
        } else {
            one_to_many_no_index_paths.len()
        };
        for i in 0..n
            invariant
                rules == self.rules(),
                number@ == decimal(rules.number),
                n <= item_steps.len(),
                n <= item_keys.len(),
                item_steps == full_paths(one_to_many_full_paths@),
                item_keys == key_paths(one_to_many_no_index_paths@),
                fields(obj.view()) == with_links(
                    rules,
                    start,
                    item_steps,
                    item_keys,
                    i as nat,
                    n as nat,
                ),
        {
            let link = number.clone().concat(".").concat(
                one_to_many_full_paths[i].join(".").as_str(),
            );
            let name = if i + 1 < n {
                "_link_".to_owned().concat(
                    one_to_many_no_index_paths[i].join(self.path_separator.as_str()).as_str(),
                )
            } else {
                "_link".to_owned()
            };
            proof {
                lemma_fields_change(obj.view(), name@, Value::String(link));
            }
            obj.insert(name, Value::String(link));
        }
        let name = "_link_".to_owned().concat(self.main_table_name.as_str());
        proof {
            lemma_fields_change(obj.view(), name@, Value::String(number));
        }
        obj.insert(name, Value::String(number));
        self.push_row(obj, &no_index_path);
        proof {
            assert(distinct(start_files.store().rows));
            lemma_with_row_extends(rules, start_files.store(), first_row, place, false);
            if start_files.wf() {
                lemma_rows_keep_wf(start_files, *self);
            }
        }
    }

    fn push_row(&mut self, row: Object, no_index_path: &KeyPath)
        ensures
            *final(self) == old(self).with_store_of(*final(self)),
            final(self).store() == (Store {
                rows: put(
                    old(self).store().rows,
                    table_name(old(self).rules(), keys_of(*no_index_path)),
                    rows_in(
                        old(self).store().rows,
                        table_name(old(self).rules(), keys_of(*no_index_path)),
                    ).push(fields(row.view())),
                ),
                ..old(self).store()
            }),
    {
        let name = if no_index_path.is_empty() {
            self.main_table_name.clone()
        } else {
            self.table_prefix.clone().concat(
                no_index_path.join(self.path_separator.as_str()).as_str(),
            )
        };
        let ghost before = self.table_rows.view();
        proof {
            lemma_same_keys(row_lists(before), before, name@);
            lemma_place_of(before, name@);
        }
        match self.table_rows.find(&name) {
            Some(i) => {
                let mut rows = self.table_rows.replace(i, Vec::new());
                rows.push(row);
                self.table_rows.replace(i, rows);
                proof {
                    assert(row_list(rows@) =~= rows_in(row_lists(before), name@).push(
                        fields(row.view()),
                    ));
                }
            },
            None => {
                let mut rows: Vec<Object> = Vec::new();
                rows.push(row);
                self.table_rows.insert(name, rows);
                proof {
                    assert(row_list(rows@) =~= rows_in(row_lists(before), name@).push(
                        fields(row.view()),
                    ));
                }
            },
        }
        assert(row_lists(self.table_rows.view()) =~= put(
            row_lists(before),
            name@,
            rows_in(row_lists(before), name@).push(fields(row.view())),
        ));
    }
}

/// What an array holds.
enum ArrayKind {
    Empty,
    Strings,
    Objects,
    Mixed,
}

/// Tells what an array holds.
fn array_kind(items: &Vec<Value>) -> (kind: ArrayKind)
    ensures
        kind is Empty <==> items@.len() == 0,
        kind is Strings <==> all_strings(item_list(items@)),
        kind is Objects <==> all_objects(item_list(items@)),
{
    if items.len() == 0 {
        return ArrayKind::Empty;
    }
    let ghost list = item_list(items@);
    let mut strings = true;
    let mut objects = true;
    for i in 0..items.len()
        invariant
            list == item_list(items@),
            strings <==> forall|j: int| 0 <= j < i ==> #[trigger] list[j] is Str,
            objects <==> forall|j: int| 0 <= j < i ==> #[trigger] list[j] is Object,
    {
        assert(list[i as int] == items@[i as int].json());
        match &items[i] {
            Value::String(_) => {
                objects = false;
            },
            Value::Object(_) => {
                strings = false;
            },
            _ => {
                strings = false;
                objects = false;
            },
        }
    }
    if strings {
        assert(list[0] is Str);
        ArrayKind::Strings
    } else if objects {
        ArrayKind::Objects
    } else {
        ArrayKind::Mixed
    }
}

/// Joins the strings of an array by commas.
fn joined_strings(items: &Vec<Value>) -> (text: String)
    requires
        all_strings(item_list(items@)),
    ensures
        text@ == join(string_texts(item_list(items@)), ","@),
{
    let ghost list = item_list(items@);
    let mut parts: Vec<String> = Vec::new();
    for i in 0..items.len()
        invariant
            list == item_list(items@),
            all_strings(list),
            parts@.len() == i,
            forall|j: int| 0 <= j < i ==> (#[trigger] parts@[j])@ == list[j]->Str_0,
    {
        assert(list[i as int] == items@[i as int].json());
        if let Value::String(text) = &items[i] {
            parts.push(text.clone());
        }
    }
    assert(texts(parts@) =~= string_texts(list));
    join_texts(&parts, ",")
}

/// The members that a list of entries stands for.
spec fn listed(entries: Seq<(String, Value)>) -> Fields {
    fields(by_name(entries))
}

/// One string more is one text more.
proof fn lemma_texts_push(list: Seq<String>, text: String)
    ensures
        texts(list.push(text)) == texts(list).push(text@),
{
    assert(texts(list.push(text)) =~= texts(list).push(text@));
}

/// What stands in an object for a member once the arrays in it have been dealt with: the only item
/// of an array that is put into the row, and null for any other array of objects.
spec fn settled(
    rules: Rules,
    one_to_many: Seq<Seq<Text>>,
    keys: Seq<Text>,
    member: (Text, Json),
) -> (Text, Json) {
    if inlined(rules, one_to_many, keys, member) {
        (member.0, member.1->Array_0[0])
    } else if member.1 is Array && all_objects(member.1->Array_0) {
        (member.0, Json::Null)
    } else {
        member
    }
}

/// Whether a value is an object.
fn is_object(value: &Value) -> (object: bool)
    ensures
        object == (value.json() is Object),
{
    match value {
        Value::Object(_) => true,
        _ => false,
    }
}

/// Lists the members of a row, with a prefix before each key.
fn list_under(prefix: &str, row: Object, list: &mut Vec<(String, Value)>)
    ensures
        listed(final(list)@) == listed(old(list)@) + under(prefix@, fields(row.view())),
{
    let ghost members = fields(row.view());
    let ghost first = listed(list@);
    let mut row = row;
    let n = row.len();
    proof {
        assert(first + under(prefix@, members).take(0) =~= first);
    }
    for i in 0..n
        invariant
            n == members.len(),
            n == row.view().len(),
            forall|p: int| i <= p < n ==> #[trigger] fields(row.view())[p] == members[p],
            listed(list@) == first + under(prefix@, members).take(i as int),
    {
        let ghost now = row.view();
        let ghost so_far = listed(list@);
        assert(fields(now)[i as int] == members[i as int]);
        let name = prefix.to_owned().concat(row.name(i).as_str());
        let value = row.replace(i, Value::Null);
        list.push((name, value));
        proof {
            assert(listed(list@) =~= so_far.push(under(prefix@, members)[i as int]));
            assert(listed(list@) =~= first + under(prefix@, members).take(i + 1));
            assert forall|p: int| i < p < n implies #[trigger] fields(row.view())[p]
                == members[p] by {
                assert(fields(now)[p] == members[p]);
            }
        }
    }
    assert(under(prefix@, members).take(n as int) =~= under(prefix@, members));
}

/// Takes keys away from an object, one after the other.
fn remove_all(obj: &mut Object, keys: &Vec<String>)
    ensures
        fields(final(obj).view()) == without_all(fields(old(obj).view()), texts(keys@)),
{
    let ghost first = fields(obj.view());
    assert(texts(keys@).take(0) =~= Seq::<Text>::empty());
    for i in 0..keys.len()
        invariant
            fields(obj.view()) == without_all(first, texts(keys@).take(i as int)),
    {
        proof {
            assert(texts(keys@).take(i + 1).drop_last() =~= texts(keys@).take(i as int));
            lemma_fields_change(obj.view(), keys@[i as int]@, Value::Null);
        }
        obj.remove(&keys[i]);
    }
    assert(texts(keys@).take(keys@.len() as int) =~= texts(keys@));
}

/// Puts members into an object, one after the other.
fn insert_all(obj: &mut Object, list: Vec<(String, Value)>)
    ensures
        fields(final(obj).view()) == put_all(fields(old(obj).view()), listed(list@)),
{
    let ghost first = fields(obj.view());
    let ghost others = listed(list@);
    let mut rest = list;
    let n = rest.len();
    assert(others.take(0) =~= Seq::<(Text, Json)>::empty());
    for i in 0..n
        invariant
            n == others.len(),
            n == rest@.len(),
            forall|p: int| i <= p < n ==> #[trigger] listed(rest@)[p] == others[p],
            fields(obj.view()) == put_all(first, others.take(i as int)),
    {
        let ghost now = rest@;
        let mut entry = (String::new(), Value::Null);
        rest.set_and_swap(i, &mut entry);
        proof {
            assert(others.take(i + 1).drop_last() =~= others.take(i as int));
            assert(listed(now)[i as int] == others[i as int]);
            lemma_fields_change(obj.view(), entry.0@, entry.1);
            assert forall|p: int| i < p < n implies #[trigger] listed(rest@)[p] == others[p] by {
                assert(listed(now)[p] == others[p]);
            }
        }
        obj.insert(entry.0, entry.1);
    }
    assert(others.take(n as int) =~= others);
}

/// A member that is an array of objects, or is or holds an object that goes into the row, is among
/// those that are taken away.
proof fn lemma_gone(
    rules: Rules,
    many: Seq<Seq<Text>>,
    keys: Seq<Text>,
    members: Fields,
)
    ensures
        forall|p: int|
            0 <= p < members.len() && settled(rules, many, keys, members[p]) != members[p]
                ==> gone_arrays(members).contains((#[trigger] members[p]).0),
        forall|p: int|
            0 <= p < members.len() && nested(rules, many, keys, members[p]) is Some
                ==> gone_objects(rules, many, keys, members).contains((#[trigger] members[p]).0),
{
    assert forall|p: int|
        0 <= p < members.len() && settled(rules, many, keys, members[p])
            != members[p] implies gone_arrays(members).contains((#[trigger] members[p]).0) by {
        lemma_gone_array(members, p);
    }
    assert forall|p: int|
        0 <= p < members.len() && nested(rules, many, keys, members[p]) is Some implies gone_objects(
        rules,
        many,
        keys,
        members,
    ).contains((#[trigger] members[p]).0) by {
        lemma_gone_object(rules, many, keys, members, p);
    }
}

impl FlatFiles {
    /// Notes an array of objects.
    fn note_array(&mut self, path: &KeyPath, items: usize)
        ensures
            *final(self) == old(self).with_store_of(*final(self)),
            final(self).store() == with_array(
                old(self).rules(),
                old(self).store(),
                keys_of(*path),
                items as nat,
            ),
    {
        if !self.inline_one_to_one || holds_path(&self.one_to_many_arrays, path) {
            return;
        }
        let ghost before = self.store();
        if items != 1 {
            let mut kept: Vec<KeyPath> = Vec::new();
            for i in 0..self.one_to_one_arrays.len()
                invariant
                    key_paths(kept@) == without_path(
                        key_paths(self.one_to_one_arrays@).take(i as int),
                        keys_of(*path),
                    ),
            {
                let ghost all = key_paths(self.one_to_one_arrays@);
                assert(all.take(i + 1).drop_last() =~= all.take(i as int));
                if !self.one_to_one_arrays[i].same(path) {
                    let ghost held = key_paths(kept@);
                    kept.push(self.one_to_one_arrays[i].clone());
                    assert(key_paths(kept@) =~= held.push(all[i as int]));
                }
            }
            let ghost all = key_paths(self.one_to_one_arrays@);
            assert(all.take(all.len() as int) =~= all);
            self.one_to_one_arrays = kept;
            self.one_to_many_arrays.push(path.clone());
            assert(key_paths(self.one_to_many_arrays@) =~= before.one_to_many.push(keys_of(*path)));
        } else if !holds_path(&self.one_to_one_arrays, path) {
            self.one_to_one_arrays.push(path.clone());
            assert(key_paths(self.one_to_one_arrays@) =~= before.one_to_one.push(keys_of(*path)));
        }
    }

    /// Gives the items of an array of objects their rows.
    fn handle_items(
        &mut self,
        items: Vec<Value>,
        key: &str,
        full_path: &FullPath,
        no_index_path: &KeyPath,
        one_to_many_full_paths: &Vec<FullPath>,
        one_to_many_no_index_paths: &Vec<KeyPath>,
    )
        requires
            all_objects(item_list(items@)),
        ensures
            tidy(Json::Array(item_list(items@))),
            *final(self) == old(self).with_store_of(*final(self)),
            final(self).store() == flatten_items(
                old(self).rules(),
                old(self).store(),
                item_list(items@),
                place_at(
                    *full_path,
                    *no_index_path,
                    one_to_many_full_paths@,
                    one_to_many_no_index_paths@,
                ),
                key@,
                items@.len(),
            ),
        decreases item_list(items@), 3int,
    {
        let ghost list = item_list(items@);
        let ghost start = *self;
        let ghost place = place_at(
            *full_path,
            *no_index_path,
            one_to_many_full_paths@,
            one_to_many_no_index_paths@,
        );
        let n = items.len();
        let mut rest = items;
        for i in 0..n
            invariant
                n == list.len(),
                n == rest@.len(),
                list == item_list(items@),
                all_objects(list),
                forall|j: int| 0 <= j < i ==> tidy(#[trigger] list[j]),
                place == place_at(
                    *full_path,
                    *no_index_path,
                    one_to_many_full_paths@,
                    one_to_many_no_index_paths@,
                ),
                *self == start.with_store_of(*self),
                self.store() == flatten_items(
                    start.rules(),
                    start.store(),
                    list,
                    place,
                    key@,
                    i as nat,
                ),
                forall|j: int| i <= j < n ==> (#[trigger] rest@[j]).json() == list[j],
        {
            let mut item = Value::Null;
            rest.set_and_swap(i, &mut item);
            proof {
                assert(item.json() == list[i as int]);
                assert(list[i as int] is Object);
            }
            if let Value::Object(inner) = item {
                proof {
                    lemma_object_json(inner);
                    assert(list[i as int] == Json::Object(fields(inner.view())));
                    assert(decreases_to!(list => list[i as int]->Object_0));
                }
                let item_path = full_path.child(PathItem::Key(key.to_owned())).child(
                    PathItem::Index(i),
                );
                let item_keys = no_index_path.child(key);
                let mut full_paths_below = copy_full_paths(one_to_many_full_paths);
                full_paths_below.push(item_path.clone());
                let mut key_paths_below = copy_key_paths(one_to_many_no_index_paths);
                key_paths_below.push(item_keys.clone());
                proof {
                    let there = place.item(key@, i as nat);
                    assert(full_paths(full_paths_below@) =~= there.item_steps);
                    assert(key_paths(key_paths_below@) =~= there.item_keys);
                    assert(place_at(
                        item_path,
                        item_keys,
                        full_paths_below@,
                        key_paths_below@,
                    ) =~= there);
                }
                self.handle_obj(
                    inner,
                    true,
                    item_path,
                    item_keys,
                    full_paths_below,
                    key_paths_below,
                    false,
                );
            }
        }
        proof {
            lemma_tidy_array(list);
        }
    }

    /// Flattens an object.
    fn handle_obj(
        &mut self,
        obj: Object,
        emit: bool,
        full_path: FullPath,
        no_index_path: KeyPath,
        one_to_many_full_paths: Vec<FullPath>,
        one_to_many_no_index_paths: Vec<KeyPath>,
        one_to_one_key: bool,
    ) -> (row: Option<Object>)
        requires
            one_to_one_key ==> tidy(Json::Object(fields(obj.view()))),
        ensures
            tidy(Json::Object(fields(obj.view()))),
            *final(self) == old(self).with_store_of(*final(self)),
            ({
                let (store, flat) = flatten(
                    old(self).rules(),
                    old(self).store(),
                    fields(obj.view()),
                    place_at(
                        full_path,
                        no_index_path,
                        one_to_many_full_paths@,
                        one_to_many_no_index_paths@,
                    ),
                    emit,
                    one_to_one_key,
                );
                &&& final(self).store() == store
                &&& row is Some == flat is Some
                &&& row is Some ==> fields(row->0.view()) == flat->0
            }),
        decreases fields(obj.view()), 2int,
    {
        let ghost members = fields(obj.view());
        let ghost place = place_at(
            full_path,
            no_index_path,
            one_to_many_full_paths@,
            one_to_many_no_index_paths@,
        );
        let ghost rules = self.rules();
        let ghost many = self.store().one_to_many;
        let mut obj = obj;
        let _ = obj.len();
        proof {
            lemma_fields_change(obj.view(), Seq::empty(), Value::Null);
        }
        let mut to_delete: Vec<String> = Vec::new();
        let mut to_insert: Vec<(String, Value)> = Vec::new();
        let only_items = self.handle_arrays(
            &mut obj,
            &full_path,
            &no_index_path,
            &one_to_many_full_paths,
            &one_to_many_no_index_paths,
            one_to_one_key,
            &mut to_delete,
            &mut to_insert,
        );
        let ghost middle = self.store();
        self.handle_objects(
            &mut obj,
            &only_items,
            &full_path,
            &no_index_path,
            &one_to_many_full_paths,
            &one_to_many_no_index_paths,
            &mut to_delete,
            &mut to_insert,
            Ghost(members),
            Ghost(many),
        );
        proof {
            lemma_tidy_object(members);
        }
        let ghost inner = flatten_objects(rules, middle, many, members, place, members.len()).1;
        let ghost gone = gone_arrays(members) + gone_objects(rules, many, place.keys, members);
        let ghost left = fields(obj.view());
        proof {
            lemma_gone(rules, many, place.keys, members);
            let arrays = gone_arrays(members);
            let objects = gone_objects(rules, many, place.keys, members);
            assert forall|i: int| 0 <= i < members.len() implies #[trigger] members[i].0
                == left[i].0 && (members[i] == left[i] || gone.contains(members[i].0)) by {
                assert(left[i].0 == members[i].0);
                if arrays.contains(members[i].0) {
                    let j = choose|j: int| 0 <= j < arrays.len() && arrays[j] == members[i].0;
                    assert(gone[j] == members[i].0);
                }
                if objects.contains(members[i].0) {
                    let j = choose|j: int| 0 <= j < objects.len() && objects[j] == members[i].0;
                    assert(gone[arrays.len() + j] == members[i].0);
                }
            }
            lemma_without_all_agree(members, left, gone);
        }
        remove_all(&mut obj, &to_delete);
        insert_all(&mut obj, to_insert);
        if emit {
            self.process_obj(
                obj,
                no_index_path,
                one_to_many_full_paths,
                one_to_many_no_index_paths,
            );
            None
        } else {
            Some(obj)
        }
    }

    /// Deals with the objects in an object, those that stand for an array too: flattens them, and
    /// lists what they put into the row.
    fn handle_objects(
        &mut self,
        obj: &mut Object,
        only_items: &Vec<bool>,
        full_path: &FullPath,
        no_index_path: &KeyPath,
        one_to_many_full_paths: &Vec<FullPath>,
        one_to_many_no_index_paths: &Vec<KeyPath>,
        to_delete: &mut Vec<String>,
        to_insert: &mut Vec<(String, Value)>,
        Ghost(members): Ghost<Fields>,
        Ghost(many): Ghost<Seq<Seq<Text>>>,
    )
        requires
            old(obj).view().len() == members.len(),
            only_items@.len() == members.len(),
            forall|p: int|
                0 <= p < members.len() ==> #[trigger] fields(old(obj).view())[p] == settled(
                    old(self).rules(),
                    many,
                    keys_of(*no_index_path),
                    members[p],
                ),
            forall|p: int|
                0 <= p < members.len() ==> #[trigger] only_items@[p] == inlined(
                    old(self).rules(),
                    many,
                    keys_of(*no_index_path),
                    members[p],
                ),
            forall|p: int|
                0 <= p < members.len() ==> (#[trigger] members[p]).1 is Object || tidy(
                    members[p].1,
                ),
        ensures
            forall|p: int| 0 <= p < members.len() ==> tidy((#[trigger] members[p]).1),
            *final(self) == old(self).with_store_of(*final(self)),
            ({
                let rules = old(self).rules();
                let place = place_at(
                    *full_path,
                    *no_index_path,
                    one_to_many_full_paths@,
                    one_to_many_no_index_paths@,
                );
                let (store, inner) = flatten_objects(
                    rules,
                    old(self).store(),
                    many,
                    members,
                    place,
                    members.len(),
                );
                &&& final(self).store() == store
                &&& texts(final(to_delete)@) == texts(old(to_delete)@) + gone_objects(
                    rules,
                    many,
                    place.keys,
                    members,
                )
                &&& listed(final(to_insert)@) == listed(old(to_insert)@) + inner
                &&& final(obj).view().len() == members.len()
                &&& forall|p: int|
                    0 <= p < members.len() ==> #[trigger] fields(final(obj).view())[p] == (
                    if nested(rules, many, place.keys, members[p]) is Some {
                        (members[p].0, Json::Null)
                    } else {
                        settled(rules, many, place.keys, members[p])
                    })
            }),
        decreases members, 1int,
    {
        let ghost start = *self;
        let ghost rules = self.rules();
        let ghost keys = keys_of(*no_index_path);
        let ghost place = place_at(
            *full_path,
            *no_index_path,
            one_to_many_full_paths@,
            one_to_many_no_index_paths@,
        );
        let ghost first_deleted = texts(to_delete@);
        let ghost first_inserted = listed(to_insert@);
        let n = obj.len();
        proof {
            assert(members.take(0) =~= Seq::<(Text, Json)>::empty());
            assert(first_deleted + Seq::<Text>::empty() =~= first_deleted);
            assert(first_inserted + Seq::<(Text, Json)>::empty() =~= first_inserted);
        }
        for i in 0..n
            invariant
                n == members.len(),
                only_items@.len() == members.len(),
                rules == start.rules(),
                keys == keys_of(*no_index_path),
                place == place_at(
                    *full_path,
                    *no_index_path,
                    one_to_many_full_paths@,
                    one_to_many_no_index_paths@,
                ),
                *self == start.with_store_of(*self),
                self.store() == flatten_objects(
                    rules,
                    start.store(),
                    many,
                    members,
                    place,
                    i as nat,
                ).0,
                texts(to_delete@) == first_deleted + gone_objects(
                    rules,
                    many,
                    keys,
                    members.take(i as int),
                ),
                listed(to_insert@) == first_inserted + flatten_objects(
                    rules,
                    start.store(),
                    many,
                    members,
                    place,
                    i as nat,
                ).1,
                obj.view().len() == members.len(),
                forall|p: int|
                    0 <= p < members.len() ==> (#[trigger] members[p]).1 is Object || tidy(
                        members[p].1,
                    ),
                forall|p: int| 0 <= p < i ==> tidy((#[trigger] members[p]).1),
                forall|p: int|
                    0 <= p < members.len() ==> #[trigger] only_items@[p] == inlined(
                        rules,
                        many,
                        keys,
                        members[p],
                    ),
                forall|p: int|
                    0 <= p < i ==> #[trigger] fields(obj.view())[p] == (if nested(
                        rules,
                        many,
                        keys,
                        members[p],
                    ) is Some {
                        (members[p].0, Json::Null)
                    } else {
                        settled(rules, many, keys, members[p])
                    }),
                forall|p: int|
                    i <= p < members.len() ==> #[trigger] fields(obj.view())[p] == settled(
                        rules,
                        many,
                        keys,
                        members[p],
                    ),
        {
            let ghost here = members[i as int];
            let ghost now = obj.view();
            let ghost deleted = gone_objects(rules, many, keys, members.take(i as int));
            let ghost inserted = flatten_objects(
                rules,
                start.store(),
                many,
                members,
                place,
                i as nat,
            ).1;
            proof {
                assert(members.take(i + 1).drop_last() =~= members.take(i as int));
                assert(fields(now)[i as int] == settled(rules, many, keys, here));
            }
            if is_object(obj.value(i)) {
                let key = obj.name(i).clone();
                let ghost deleted_before = to_delete@;
                to_delete.push(key.clone());
                proof {
                    lemma_texts_push(deleted_before, key);
                    assert(texts(to_delete@) =~= first_deleted + deleted.push(key@));
                }
                let taken = obj.replace(i, Value::Null);
                if let Value::Object(object) = taken {
                    proof {
                        lemma_object_json(object);
                        assert(nested(rules, many, keys, here) == Some(fields(object.view())));
                        if here.1 is Array {
                            lemma_tidy_item(here.1->Array_0, 0);
                            assert(decreases_to!(members => here.1->Array_0[0]->Object_0));
                        } else {
                            assert(decreases_to!(members => here.1->Object_0));
                        }
                    }
                    let child_keys = no_index_path.child(key.as_str());
                    let child_path = full_path.child(PathItem::Key(key.clone()));
                    let emit_child = holds_path(&self.emit_obj, &child_keys);
                    let full_paths_here = copy_full_paths(one_to_many_full_paths);
                    let key_paths_here = copy_key_paths(one_to_many_no_index_paths);
                    assert(place_at(child_path, child_keys, full_paths_here@, key_paths_here@)
                        =~= place.member(key@));
                    let row = self.handle_obj(
                        object,
                        emit_child,
                        child_path,
                        child_keys,
                        full_paths_here,
                        key_paths_here,
                        only_items[i],
                    );
                    if let Some(row) = row {
                        let prefix = key.concat(self.path_separator.as_str());
                        list_under(prefix.as_str(), row, to_insert);
                        assert(first_inserted + inserted + under(prefix@, fields(row.view()))
                            =~= first_inserted + (inserted + under(
                            prefix@,
                            fields(row.view()),
                        )));
                    }
                }
            }
            proof {
                assert forall|p: int| 0 <= p < members.len() && p != i implies #[trigger] fields(
                    obj.view(),
                )[p] == fields(now)[p] by {}
            }
        }
        assert(members.take(n as int) =~= members);
    }

    /// Deals with the arrays in an object: gives the items of arrays of objects their rows, and
    /// tells which of those arrays have their only item put in their place.
    fn handle_arrays(
        &mut self,
        obj: &mut Object,
        full_path: &FullPath,
        no_index_path: &KeyPath,
        one_to_many_full_paths: &Vec<FullPath>,
        one_to_many_no_index_paths: &Vec<KeyPath>,
        one_to_one_key: bool,
        to_delete: &mut Vec<String>,
        to_insert: &mut Vec<(String, Value)>,
    ) -> (only_items: Vec<bool>)
        requires
            old(to_delete)@.len() == 0,
            old(to_insert)@.len() == 0,
            one_to_one_key ==> tidy(Json::Object(fields(old(obj).view()))),
        ensures
            forall|p: int|
                0 <= p < fields(old(obj).view()).len() ==> (#[trigger] fields(
                    old(obj).view(),
                )[p]).1 is Object || tidy(fields(old(obj).view())[p].1),
            *final(self) == old(self).with_store_of(*final(self)),
            ({
                let members = fields(old(obj).view());
                let rules = old(self).rules();
                let many = old(self).store().one_to_many;
                let place = place_at(
                    *full_path,
                    *no_index_path,
                    one_to_many_full_paths@,
                    one_to_many_no_index_paths@,
                );
                &&& final(self).store() == flatten_arrays(
                    rules,
                    old(self).store(),
                    members,
                    place,
                    one_to_one_key,
                    members.len(),
                )
                &&& texts(final(to_delete)@) == gone_arrays(members)
                &&& listed(final(to_insert)@) == array_texts(members)
                &&& final(obj).view().len() == members.len()
                &&& only_items@.len() == members.len()
                &&& forall|p: int|
                    0 <= p < members.len() ==> #[trigger] fields(final(obj).view())[p] == settled(
                        rules,
                        many,
                        place.keys,
                        members[p],
                    )
                &&& forall|p: int|
                    0 <= p < members.len() ==> #[trigger] only_items@[p] == inlined(
                        rules,
                        many,
                        place.keys,
                        members[p],
                    )
            }),
        decreases fields(old(obj).view()), 1int,
    {
        let ghost members = fields(obj.view());
        let ghost start = *self;
        let ghost rules = self.rules();
        let ghost many = self.store().one_to_many;
        let ghost place = place_at(
            *full_path,
            *no_index_path,
            one_to_many_full_paths@,
            one_to_many_no_index_paths@,
        );
        let mut only_items: Vec<bool> = Vec::new();
        let n = obj.len();
        proof {
            lemma_fields_change(obj.view(), Seq::empty(), Value::Null);
            assert(members.take(0) =~= Seq::<(Text, Json)>::empty());
            assert(texts(to_delete@) =~= Seq::<Text>::empty());
            assert(listed(to_insert@) =~= Seq::<(Text, Json)>::empty());
        }
        for i in 0..n
            invariant
                n == members.len(),
                members == fields(old(obj).view()),
                distinct(members),
                one_to_one_key ==> tidy(Json::Object(members)),
                forall|p: int|
                    0 <= p < i ==> (#[trigger] members[p]).1 is Object || tidy(members[p].1),
                rules == start.rules(),
                many == start.store().one_to_many,
                place == place_at(
                    *full_path,
                    *no_index_path,
                    one_to_many_full_paths@,
                    one_to_many_no_index_paths@,
                ),
                *self == start.with_store_of(*self),
                self.store() == flatten_arrays(
                    rules,
                    start.store(),
                    members,
                    place,
                    one_to_one_key,
                    i as nat,
                ),
                texts(to_delete@) == gone_arrays(members.take(i as int)),
                listed(to_insert@) == array_texts(members.take(i as int)),
                obj.view().len() == members.len(),
                only_items@.len() == i,
                forall|p: int|
                    0 <= p < i ==> #[trigger] fields(obj.view())[p] == settled(
                        rules,
                        many,
                        place.keys,
                        members[p],
                    ),
                forall|p: int|
                    i <= p < members.len() ==> #[trigger] fields(obj.view())[p] == members[p],
                forall|p: int|
                    0 <= p < i ==> #[trigger] only_items@[p] == inlined(
                        rules,
                        many,
                        place.keys,
                        members[p],
                    ),
        {
            let ghost here = members[i as int];
            let ghost now = obj.view();
            proof {
                assert(members.take(i + 1).drop_last() =~= members.take(i as int));
                assert(fields(now)[i as int] == here);
                lemma_flatten_arrays_grows(
                    rules,
                    start.store(),
                    members,
                    place,
                    one_to_one_key,
                    i as nat,
                );
            }
            let kind = match obj.value(i) {
                Value::Array(items) => {
                    proof {
                        lemma_array_json(*items);
                    }
                    Some(array_kind(items))
                },
                _ => None,
            };
            let mut inline_here = false;
            match kind {
                None => {},
                Some(ArrayKind::Empty) => {
                    to_delete.push(obj.name(i).clone());
                },
                Some(ArrayKind::Strings) => {
                    if let Value::Array(items) = obj.value(i) {
                        let text = joined_strings(items);
                        to_insert.push((obj.name(i).clone(), Value::String(text)));
                    }
                },
                Some(ArrayKind::Mixed) => {
                    let text = obj.value(i).to_text();
                    to_insert.push((obj.name(i).clone(), Value::String(text)));
                },
                Some(ArrayKind::Objects) => {
                    let key = obj.name(i).clone();
                    to_delete.push(key.clone());
                    let taken = obj.replace(i, Value::Null);
                    if let Value::Array(items) = taken {
                        let keys_here = no_index_path.child(key.as_str());
                        inline_here = self.inline_one_to_one && items.len() == 1 && !holds_path(
                            &self.one_to_many_arrays,
                            &keys_here,
                        );
                        if inline_here {
                            obj.replace(i, items[0].clone());
                        }
                        self.note_array(&keys_here, items.len());
                        if !one_to_one_key {
                            self.handle_items(
                                items,
                                key.as_str(),
                                full_path,
                                no_index_path,
                                one_to_many_full_paths,
                                one_to_many_no_index_paths,
                            );
                        }
                    }
                },
            }
            only_items.push(inline_here);
            proof {
                if one_to_one_key {
                    lemma_tidy_member(members, i as int);
                }
                if let Json::Array(list) = here.1 {
                    if list.len() == 0 || all_strings(list) {
                        lemma_tidy_array(list);
                    }
                }
                assert forall|p: int| 0 <= p <= i implies #[trigger] fields(obj.view())[p]
                    == settled(rules, many, place.keys, members[p]) by {
                    if p < i {
                        assert(fields(now)[p] == settled(rules, many, place.keys, members[p]));
                    }
                }
                assert forall|p: int| i < p < members.len() implies #[trigger] fields(obj.view())[p]
                    == members[p] by {
                    assert(fields(now)[p] == members[p]);
                }
            }
        }
        assert(members.take(n as int) =~= members);
        only_items
    }

    /// Flattens a document into the tables. A document that is no object gives nothing.
    pub fn process_value(&mut self, value: Value)
        requires
            value.json() is Object ==> old(self).row_number < u128::MAX,
        ensures
            match value.json() {
                Json::Object(members) => {
                    &&& *final(self) == (FlatFiles {
                        row_number: (old(self).row_number + 1) as u128,
                        ..old(self).with_store_of(*final(self))
                    })
                    &&& final(self).store() == flatten(
                        old(self).rules(),
                        old(self).store(),
                        members,
                        Place::root(),
                        true,
                        false,
                    ).0
                },
                _ => *final(self) == *old(self),
            },
            value.json() is Object ==> tidy(value.json()),
            distinct(old(self).store().rows),
            distinct(final(self).store().rows),
            old(self).wf() ==> final(self).wf(),
    {
        let ghost before = *self;
        let _ = self.table_rows.len();
        assert(distinct(before.store().rows));
        if let Value::Object(obj) = value {
            let full_path = FullPath::new();
            let no_index_path = KeyPath::new();
            let full_paths_here: Vec<FullPath> = Vec::new();
            let key_paths_here: Vec<KeyPath> = Vec::new();
            proof {
                lemma_object_json(obj);
                assert(place_at(full_path, no_index_path, full_paths_here@, key_paths_here@)
                    =~= Place::root());
            }
            self.handle_obj(
                obj,
                true,
                full_path,
                no_index_path,
                full_paths_here,
                key_paths_here,
                false,
            );
            self.row_number = self.row_number + 1;
            proof {
                lemma_flatten_extends(
                    before.rules(),
                    before.store(),
                    fields(obj.view()),
                    Place::root(),
                    true,
                    false,
                    false,
                );
                if before.wf() {
                    lemma_rows_keep_wf(before, *self);
                }
            }
        }
    }
}

} // verus!

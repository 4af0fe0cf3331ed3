//! The start: the settings, and the directories that the output needs.

use crate::convert::{date_regexp, pattern_of, DATE_PATTERN};
use crate::files::FlatFiles;
use crate::path::{key_paths, KeyPath};
use crate::text::{texts, Text};
use crate::value::NameMap;
use vstd::prelude::*;

verus! {

/// Why the flattening cannot go on.
#[derive(Debug, PartialEq)]
pub enum Error {
    /// The output directory is there already, and it may not be removed.
    FlattererDirExists { dir: String },
    /// The number of a row is too large for a sheet.
    FlattererIntError,
}

impl Error {
    /// The message for the user.
    pub open spec fn message(self) -> Text {
        match self {
            Error::FlattererDirExists { dir } => "Directory `"@ + dir@ + "` already exists."@,
            Error::FlattererIntError => "Could not convert usize to int"@,
        }
    }

    /// Writes the message for the user.
    pub fn to_text(&self) -> (text: String)
        ensures
            text@ == self.message(),
    {
        match self {
            Error::FlattererDirExists { dir } => "Directory `".to_owned().concat(
                dir.as_str(),
            ).concat("` already exists."),
            Error::FlattererIntError => "Could not convert usize to int".to_owned(),
        }
    }
}

/// What has to be done to a directory.
#[derive(Debug, PartialEq, Eq, Structural, Clone, Copy)]
pub enum DirAction {
    Leave,
    Create,
    Remove,
}

/// What a schema says of the columns, by their full paths: their order and their titles.
#[derive(Debug)]
pub struct SchemaAnalysis {
    pub field_order_map: NameMap<usize>,
    pub field_titles_map: NameMap<String>,
}

/// The keys of each path of a list.
pub open spec fn path_keys(paths: Seq<Vec<String>>) -> Seq<Seq<Text>> {
    Seq::new(paths.len(), |i: int| texts(paths[i]@))
}

impl FlatFiles {
    /// What has to be done to the output directory before it is made anew, or that it is in the
    /// way.
    pub fn output_action(
        output_dir: &String,
        output_is_dir: bool,
        force: bool,
    ) -> (action: Result<DirAction, Error>)
        ensures
            action is Err <==> output_is_dir && !force,
            action matches Ok(a) ==> a == if output_is_dir {
                DirAction::Remove
            } else {
                DirAction::Leave
            },
            action matches Err(e) ==> e is FlattererDirExists && e->dir@ == output_dir@,
    {
        if output_is_dir {
            if force {
                Ok(DirAction::Remove)
            } else {
                Err(Error::FlattererDirExists { dir: output_dir.clone() })
            }
        } else {
            Ok(DirAction::Leave)
        }
    }

    /// Tables into which nothing has gone yet, with the settings that are taken where none are
    /// given.
    pub fn new_with_defaults(output_dir: String, output_is_dir: bool) -> (files: Result<
        FlatFiles,
        Error,
    >)
        ensures
            files is Err <==> output_is_dir,
            files matches Err(e) ==> e is FlattererDirExists && e->dir@ == output_dir@,
            files matches Ok(f) ==> {
                &&& f.wf()
                &&& f.is_new(output_dir@, true, false, "main"@, Seq::empty(), false, ""@, "_"@)
                &&& f.order_map.view().len() == 0
                &&& f.field_titles_map.view().len() == 0
            },
    {
        let ghost none: Seq<Vec<String>> = Seq::empty();
        proof {
            reveal_strlit("");
            assert(path_keys(none) =~= Seq::<Seq<Text>>::empty());
            assert(""@ + "main"@ =~= "main"@);
        }
        FlatFiles::new(
            output_dir,
            output_is_dir,
            true,
            false,
            false,
            "main".to_owned(),
            Vec::new(),
            false,
            None,
            "".to_owned(),
            "_".to_owned(),
        )
    }

    /// Whether nothing has gone into the tables yet, and the settings are the given ones.
    pub open spec fn is_new(
        self,
        output_path: Text,
        csv: bool,
        xlsx: bool,
        main_table_name: Text,
        emit_obj: Seq<Seq<Text>>,
        inline_one_to_one: bool,
        table_prefix: Text,
        path_separator: Text,
    ) -> bool {
        &&& self.output_path@ == output_path
        &&& self.csv == csv
        &&& self.xlsx == xlsx
        &&& self.main_table_name@ == main_table_name
        &&& key_paths(self.emit_obj@) == emit_obj
        &&& self.row_number == 1
        &&& pattern_of(self.date_regexp) == DATE_PATTERN@
        &&& self.table_rows.view().len() == 0
        &&& self.tmp_csvs.view().len() == 0
        &&& self.table_metadata.view().len() == 0
        &&& !self.only_fields
        &&& self.inline_one_to_one == inline_one_to_one
        &&& self.one_to_many_arrays@.len() == 0
        &&& self.one_to_one_arrays@.len() == 0
        &&& self.table_prefix@ == table_prefix
        &&& self.path_separator@ == path_separator
        &&& self.preview == 0
    }

    /// Tables into which nothing has gone yet. `output_is_dir` says whether the output directory is
    /// there, and `schema` what is known of the columns from a schema, if one is given.
    pub fn new(
        output_dir: String,
        output_is_dir: bool,
        csv: bool,
        xlsx: bool,
        force: bool,
        main_table_name: String,
        emit_obj: Vec<Vec<String>>,
        inline_one_to_one: bool,
        schema: Option<SchemaAnalysis>,
        table_prefix: String,
        path_separator: String,
    ) -> (files: Result<FlatFiles, Error>)
        ensures
            files is Err <==> output_is_dir && !force,
            files matches Err(e) ==> e is FlattererDirExists && e->dir@ == output_dir@,
            files matches Ok(f) ==> {
                &&& f.wf()
                &&& f.is_new(
                    output_dir@,
                    csv,
                    xlsx,
                    table_prefix@ + main_table_name@,
                    path_keys(emit_obj@),
                    inline_one_to_one,
                    table_prefix@,
                    path_separator@,
                )
                &&& match schema {
                    Some(s) => f.order_map == s.field_order_map && f.field_titles_map
                        == s.field_titles_map,
                    None => f.order_map.view().len() == 0 && f.field_titles_map.view().len() == 0,
                }
            },
    {
        match FlatFiles::output_action(&output_dir, output_is_dir, force) {
            Err(error) => {
                return Err(error);
            },
            Ok(_) => {},
        }
        let mut files = FlatFiles {
            output_path: output_dir,
            csv,
            xlsx,
            main_table_name: table_prefix.clone().concat(main_table_name.as_str()),
            emit_obj: Vec::new(),
            row_number: 1,
            date_regexp: date_regexp(),
            table_rows: NameMap::new(),
            tmp_csvs: NameMap::new(),
            table_metadata: NameMap::new(),
            only_fields: false,
            inline_one_to_one,
            one_to_many_arrays: Vec::new(),
            one_to_one_arrays: Vec::new(),
            table_prefix,
            path_separator,
            order_map: NameMap::new(),
            field_titles_map: NameMap::new(),
            preview: 0,
        };
        if let Some(schema) = schema {
            files.set_schema(schema);
        }
        files.set_emit_obj(emit_obj);
        assert(key_paths(files.emit_obj@) =~= path_keys(emit_obj@));
        Ok(files)
    }

    /// Sets whether CSV files are made, and tells what has to be done to the directory for them.
    pub fn set_csv(&mut self, csv: bool, csv_is_dir: bool) -> (action: DirAction)
        ensures
            *final(self) == (FlatFiles { csv, ..*old(self) }),
            action == if csv && !csv_is_dir {
                DirAction::Create
            } else if !csv && csv_is_dir {
                DirAction::Remove
            } else {
                DirAction::Leave
            },
    {
        self.csv = csv;
        if csv {
            if csv_is_dir {
                DirAction::Leave
            } else {
                DirAction::Create
            }
        } else {
            if csv_is_dir {
                DirAction::Remove
            } else {
                DirAction::Leave
            }
        }
    }

    /// Takes over what a schema says of the columns.
    pub fn set_schema(&mut self, schema: SchemaAnalysis)
        ensures
            *final(self) == (FlatFiles {
                order_map: schema.field_order_map,
                field_titles_map: schema.field_titles_map,
                ..*old(self)
            }),
    {
        self.order_map = schema.field_order_map;
        self.field_titles_map = schema.field_titles_map;
    }

    /// Adds to the paths of the objects that get rows of their own.
    pub fn set_emit_obj(&mut self, emit_obj: Vec<Vec<String>>)
        ensures
            *final(self) == (FlatFiles { emit_obj: final(self).emit_obj, ..*old(self) }),
            key_paths(final(self).emit_obj@) == key_paths(old(self).emit_obj@) + path_keys(
                emit_obj@,
            ),
    {
        let ghost first = key_paths(self.emit_obj@);
        let ghost start = *self;
        assert(first + path_keys(emit_obj@).take(0) =~= first);
        for i in 0..emit_obj.len()
            invariant
                *self == (FlatFiles { emit_obj: self.emit_obj, ..start }),
                key_paths(self.emit_obj@) == first + path_keys(emit_obj@).take(i as int),
        {
            let ghost before = key_paths(self.emit_obj@);
            self.emit_obj.push(KeyPath::from_keys(&emit_obj[i]));
            proof {
                assert(key_paths(self.emit_obj@) =~= before.push(texts(emit_obj@[i as int]@)));
                assert(key_paths(self.emit_obj@) =~= first + path_keys(emit_obj@).take(i + 1));
            }
        }
        assert(path_keys(emit_obj@).take(emit_obj@.len() as int) =~= path_keys(emit_obj@));
    }
}

} // verus!

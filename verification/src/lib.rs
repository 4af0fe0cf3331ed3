//! Flattening of JSON documents into tables.

pub mod text;
pub mod value;
pub mod path;
pub mod convert;
pub mod metadata;
pub mod rows;
pub mod flatten;
pub mod files;
pub mod setup;
pub mod spool;
pub mod extend;
pub mod columns;
pub mod listing;
pub mod sheets;
pub mod sql;
pub mod package;
pub mod finish;
pub mod lines;
pub mod laws;
pub mod table_laws;
pub mod batches;
pub mod links;
pub mod row_laws;
pub mod column_laws;
pub mod output_laws;

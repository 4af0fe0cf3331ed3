# libflatterer

Flattening of JSON documents into tables, verified with Verus.

A document is an object. Each object that it holds becomes columns of the row around it, each array
of objects becomes a table of its own, an empty array is dropped, and every other array becomes a
text. Every row has an identity in the column `_link` and links to the rows that it belongs to.

The library, under `src/`:

- `text`, `value`, `path`: texts, JSON values and maps in insertion order, paths
- `flatten`: what becomes of a document, as mathematics
- `files`: the code that flattens documents
- `setup`: settings and directories at the start
- `convert`, `metadata`, `rows`, `spool`: cells, columns, and how rows become records of their tables
- `columns`: columns given beforehand, columns left out, the order of columns
- `listing`, `sheets`, `sql`, `package`, `finish`: what is written
- `lines`: the lines of a stream of documents
- `extend`, `laws`, `links`, `batches`, `table_laws`: what holds whatever the documents are

What Verus believes without proof are the functions marked `external_body` and the names declared
with `uninterp`; each says in its comment which function of another crate it stands for.

`app/` reads and writes the files, with the crates that do so.

//! An in-memory, dynamically-schemed tabular store: tables of text cells
//! with named columns, stable integer row keys, predicate search, sorting,
//! horizontal sharding and a binary persistence round-trip.
//!
//! Rows are plain values here. Search and sort hand out owned copies of
//! rows, and a cell is overwritten by addressing its row's natural key
//! through the table, so every operation's effect is stated exactly in its
//! contract; the parallel search scans a snapshot of the rows on a worker
//! pool. There is deliberately no per-row locking: overwriting a cell
//! while a search runs on the same table is not possible, since a writer
//! needs the one `&mut` reference to the table. Callers that share a
//! table across threads serialize all access to it, as they must for
//! schema changes in any case.

pub mod codec;
pub mod data;
pub mod filtering;
pub mod ingest;
pub mod table;
pub mod text;

//! A minimal single-file-per-table tabular store.
//!
//! Each table is backed by one CSV-like text file: the first line holds the
//! ordered column names, every further line holds one row of cell values.
//! The crate provides the in-memory table representation (a flat, row-major
//! buffer of cells), the text codec between tables and their file form, and
//! a left join over two tables in a naive and a grouped-index variant.

pub mod schema;
pub mod table;
pub mod join;
pub mod codec;

//! Query-plan reading, SQL text building and value rendering for a service
//! that loads CSV files into DuckDB and answers SQL over them.
//!
//! - `text`: characters, whitespace, searching, joining, decimal numbers.
//! - `sql`: quoting and the statements sent to the database.
//! - `values`: database values as display text and as JSON cells.
//! - `plan`: reading an `EXPLAIN` listing into a tree of operators.
pub mod plan;
pub mod sql;
pub mod text;
pub mod values;

//! A small pipeline query language over one in-memory table: a query string is
//! parsed into a `Query`, which is then run against a `Table`.
pub mod text;
pub mod query;
pub mod eval;
pub mod engine;
pub mod laws;

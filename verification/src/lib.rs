//! Shape sync for SQLite.
//!
//! A shape is some columns of the rows of a table that satisfy a predicate. A client gets a
//! snapshot of it, pinned to a position in a log of changes, and then the messages of every change
//! behind that position that concerns the shape.
//!
//! The library decides and computes: predicates, handles, statements, messages, pages, responses.
//! It reads no database and no socket. An application performs its statements and hands it what
//! they give.
pub mod engine;
pub mod json;
pub mod native;
pub mod number;
pub mod registry;
pub mod server;
pub mod sha256;
pub mod sort;
pub mod sql;
pub mod sqlite;
pub mod text;

//! The engine: shapes of SQLite tables served as snapshots and replays of a change log.
pub mod compact;
pub mod compile;
pub mod condition;
pub mod error;
pub mod log;
pub mod parse;
pub mod predicate;
pub mod replay;
pub mod replaying;
pub mod request;
pub mod route;
pub mod schema;
pub mod shape;
pub mod snapshot;
pub mod statement;
pub mod stream;
pub mod table;
pub mod trigger;

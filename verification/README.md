# Electrolite

Shape sync for SQLite: clients keep a copy of the rows of a table that satisfy a predicate, from a
snapshot and the changes since then.

`src/` is a library in Verus. Every function states what it returns, and Verus proves it.

| module | what it holds |
| --- | --- |
| `text`, `number`, `json`, `sort`, `sha256`, `sql` | values: texts, JSON numbers and documents, sorting, digests, SQL text |
| `engine::predicate`, `engine::parse`, `engine::compile`, `engine::condition`, `engine::table` | predicates: on rows, from JSON, as SQL conditions and what these mean, checked against a table |
| `engine::shape`, `engine::snapshot` | shapes, their canonical JSON and handles, snapshots |
| `engine::log`, `engine::replay`, `engine::replaying`, `engine::compact` | changes and their messages, replays page by page, compaction |
| `engine::route`, `engine::request`, `engine::stream` | requests from path to response, and streams of events |
| `engine::schema` | the tables and triggers of the engine, and its statements |
| `registry`, `sqlite`, `server`, `native` | shapes registered by name: their log, their HTTP server, their bindings |

Functions named `law_...` state what holds of the library as a whole: that a copy stays up to date,
that replays leave nothing out and send the columns of the shape only, that a handle names one shape
whatever the order it is written in, that a snapshot and its replays select the same rows, that a hidden
shape looks like a missing one, and more.

What the library takes from elsewhere on trust is marked `external_body` or `assume_specification`:
text escapes and lists of texts from `serde_json`, a digest from `sha2`, upper case and UTF-8 from
the standard library, and the header types of `http`, which it carries without looking inside.

`app/` is the rest: an engine on `rusqlite`, an HTTP server on `axum`, bindings for Node, and a small
server for tests of clients. `tests/` runs the library on real databases.

//! The tables of the engine, the triggers that fill its log, and the statements it runs.
use vstd::prelude::*;
use crate::engine::error::{Error, ErrorView};
use crate::engine::table;
use crate::engine::table::{TableInfo, TableInfoView};
use crate::json;
use crate::json::JsonView;
use crate::sha256;
use crate::sql;
use crate::text;

verus! {

/// Creates the tables of the engine where they are missing.
pub const BOOTSTRAP: &'static str = "CREATE TABLE IF NOT EXISTS _electrolite_meta (key TEXT PRIMARY KEY, value TEXT NOT NULL); CREATE TABLE IF NOT EXISTS _electrolite_watched_tables (table_name TEXT PRIMARY KEY, pk_columns TEXT NOT NULL); CREATE TABLE IF NOT EXISTS _electrolite_log (seq INTEGER PRIMARY KEY AUTOINCREMENT, batch_id TEXT NOT NULL, table_name TEXT NOT NULL, op TEXT NOT NULL, pk_json TEXT NOT NULL, old_pk_json TEXT, new_pk_json TEXT, old_json TEXT, new_json TEXT, created_at INTEGER NOT NULL DEFAULT (unixepoch())); CREATE INDEX IF NOT EXISTS _electrolite_log_table_seq_idx ON _electrolite_log (table_name, seq);";

/// Reads the identity of the log.
pub const READ_LOG_ID: &'static str = "SELECT value FROM _electrolite_meta WHERE key = 'log_id'";

/// Stores the identity of a new log.
pub const STORE_LOG_ID: &'static str = "INSERT INTO _electrolite_meta (key, value) VALUES ('log_id', ?)";

/// Starts a batch: every change until its end carries its identity.
pub const START_BATCH: &'static str = "INSERT INTO _electrolite_meta (key, value) VALUES ('current_batch_id', ?) ON CONFLICT(key) DO UPDATE SET value = excluded.value";

/// Ends a batch. A batch that a crash left open ends when the engine starts.
pub const END_BATCH: &'static str = "DELETE FROM _electrolite_meta WHERE key = 'current_batch_id'";

/// Remembers a watched table and its key columns.
pub const WATCH_TABLE: &'static str = "INSERT INTO _electrolite_watched_tables (table_name, pk_columns) VALUES (?, ?) ON CONFLICT(table_name) DO UPDATE SET pk_columns = excluded.pk_columns";

/// Reads the key columns of a watched table.
pub const READ_WATCHED: &'static str = "SELECT pk_columns FROM _electrolite_watched_tables WHERE table_name = ?";

/// Reads the position of the newest change of any table.
pub const READ_HIGH_WATER: &'static str = "SELECT COALESCE(MAX(seq), 0) FROM _electrolite_log";

/// Reads a stored value by its key.
pub const READ_META: &'static str = "SELECT value FROM _electrolite_meta WHERE key = ?";

/// Stores a value under a key.
pub const STORE_META: &'static str = "INSERT INTO _electrolite_meta (key, value) VALUES (?, ?) ON CONFLICT(key) DO UPDATE SET value = excluded.value";

/// Reads a page of the changes of a table behind a position.
pub const READ_PAGE: &'static str = "SELECT seq, batch_id, op, pk_json, old_pk_json, new_pk_json, old_json, new_json FROM _electrolite_log WHERE table_name = ? AND seq > ? ORDER BY seq LIMIT ?";

/// Reads the rest of a batch behind a position, as many changes as are allowed.
pub const READ_BATCH: &'static str = "SELECT seq, batch_id, op, pk_json, old_pk_json, new_pk_json, old_json, new_json FROM _electrolite_log WHERE table_name = ? AND seq > ? AND batch_id = ? ORDER BY seq LIMIT ?";

/// Asks whether a table has changes behind a position.
pub const HAS_NEWER: &'static str = "SELECT 1 FROM _electrolite_log WHERE table_name = ? AND seq > ? LIMIT 1";

/// Finds the newest change of a table to drop, behind as many as are kept.
pub const NEWEST_TO_DROP: &'static str = "SELECT seq FROM _electrolite_log WHERE table_name = ? ORDER BY seq DESC LIMIT 1 OFFSET ?";

/// Drops the changes of a table up to a position.
pub const DROP_CHANGES: &'static str = "DELETE FROM _electrolite_log WHERE table_name = ? AND seq <= ?";

/// The statement that lists the columns of a table.
pub open spec fn pragma_text(table: Seq<char>) -> Seq<char> {
    "PRAGMA table_info("@ + sql::literal(table) + ")"@
}

/// The statement that lists the columns of a table.
pub fn list_columns(table: &str) -> (r: String)
    ensures
        r@ == pragma_text(table@),
{
    let mut out = "PRAGMA table_info(".to_string();
    let name = sql::quote_string(table);
    out.append(name.as_str());
    out.append(")");
    out
}

/// The expression for the batch of a change: the open one, or one of its own.
pub open spec fn batch_expression() -> Seq<char> {
    "COALESCE((SELECT value FROM _electrolite_meta WHERE key = 'current_batch_id'), lower(hex(randomblob(16))))"@
}

/// The quoted name of a trigger of a table.
pub open spec fn trigger_name(table: Seq<char>, suffix: Seq<char>) -> Seq<char> {
    sql::ident("_electrolite_"@ + table + suffix)
}

/// The statement that removes a trigger.
pub open spec fn drop_trigger(table: Seq<char>, suffix: Seq<char>) -> Seq<char> {
    "DROP TRIGGER IF EXISTS "@ + trigger_name(table, suffix) + "; "@
}

/// The values that a trigger writes behind the table.
pub open spec fn logged(
    op: Seq<char>,
    pk: Seq<char>,
    old_pk: Seq<char>,
    new_pk: Seq<char>,
    old_row: Seq<char>,
    new_row: Seq<char>,
) -> Seq<char> {
    sql::literal(op) + ", "@ + pk + ", "@ + old_pk + ", "@ + new_pk + ", "@ + old_row + ", "@ + new_row
}

/// The statement that creates a trigger.
pub open spec fn create_trigger(
    table: Seq<char>,
    suffix: Seq<char>,
    event: Seq<char>,
    values: Seq<char>,
) -> Seq<char> {
    "CREATE TRIGGER "@ + trigger_name(table, suffix) + " AFTER "@ + event + " ON "@ + sql::ident(table)
        + " BEGIN INSERT INTO _electrolite_log (batch_id, table_name, op, pk_json, old_pk_json, new_pk_json, old_json, new_json) VALUES ("@
        + batch_expression() + ", "@ + sql::literal(table) + ", "@ + values + "); END; "@
}

/// The script that puts the triggers on a table: one for each kind of change, in place of those
/// that were there.
pub open spec fn trigger_script(
    table: Seq<char>,
    columns: Seq<Seq<char>>,
    pk: Seq<Seq<char>>,
) -> Seq<char> {
    let new_row = sql::row_object("NEW."@, columns);
    let old_row = sql::row_object("OLD."@, columns);
    let new_pk = sql::row_object("NEW."@, pk);
    let old_pk = sql::row_object("OLD."@, pk);
    drop_trigger(table, "_ai"@) + drop_trigger(table, "_au"@) + drop_trigger(table, "_ad"@) + create_trigger(
        table,
        "_ai"@,
        "INSERT"@,
        logged("insert"@, new_pk, "NULL"@, new_pk, "NULL"@, new_row),
    ) + create_trigger(
        table,
        "_au"@,
        "UPDATE"@,
        logged("update"@, new_pk, old_pk, new_pk, old_row, new_row),
    ) + create_trigger(
        table,
        "_ad"@,
        "DELETE"@,
        logged("delete"@, old_pk, old_pk, "NULL"@, old_row, "NULL"@),
    )
}

/// What it takes to watch a table: the text under which its key columns are stored, and the
/// script that puts the triggers on it.
#[derive(Debug)]
pub struct Watch {
    pub pk_columns: String,
    pub script: String,
}

/// The model of what it takes to watch a table.
pub struct WatchView {
    pub pk_columns: Seq<char>,
    pub script: Seq<char>,
}

impl View for Watch {
    type V = WatchView;

    open spec fn view(&self) -> WatchView {
        WatchView { pk_columns: self.pk_columns@, script: self.script@ }
    }
}

/// What it takes to watch a table: a table without a primary key cannot be watched.
pub open spec fn watch(table: Seq<char>, info: TableInfoView) -> Result<WatchView, ErrorView> {
    if info.pk.len() == 0 {
        Err(ErrorView::Bad("table "@ + table + " must have a primary key"@))
    } else {
        Ok(
            WatchView {
                pk_columns: json::encoded(JsonView::Array(json::text_values(info.pk))),
                script: trigger_script(table, info.columns, info.pk),
            },
        )
    }
}

/// The model of a result.
pub open spec fn watch_result(r: Result<Watch, Error>) -> Result<WatchView, ErrorView> {
    match r {
        Ok(w) => Ok(w@),
        Err(e) => Err(e@),
    }
}

fn quoted_trigger_name(table: &str, suffix: &str) -> (r: String)
    ensures
        r@ == trigger_name(table@, suffix@),
{
    let mut out = "_electrolite_".to_string();
    out.append(table);
    out.append(suffix);
    sql::quote_ident(out.as_str())
}

fn append_drop(out: &mut String, table: &str, suffix: &str)
    ensures
        final(out)@ == old(out)@ + drop_trigger(table@, suffix@),
{
    out.append("DROP TRIGGER IF EXISTS ");
    let name = quoted_trigger_name(table, suffix);
    out.append(name.as_str());
    out.append("; ");
    assert(out@ =~= old(out)@ + drop_trigger(table@, suffix@));
}

/// The values that a trigger writes behind the table.
pub fn logged_values(op: &str, pk: &str, old_pk: &str, new_pk: &str, old_row: &str, new_row: &str) -> (r: String)
    ensures
        r@ == logged(op@, pk@, old_pk@, new_pk@, old_row@, new_row@),
{
    let mut out = sql::quote_string(op);
    out.append(", ");
    out.append(pk);
    out.append(", ");
    out.append(old_pk);
    out.append(", ");
    out.append(new_pk);
    out.append(", ");
    out.append(old_row);
    out.append(", ");
    out.append(new_row);
    out
}

fn create(table: &str, suffix: &str, event: &str, values: &str) -> (r: String)
    ensures
        r@ == create_trigger(table@, suffix@, event@, values@),
{
    let mut out = "CREATE TRIGGER ".to_string();
    let name = quoted_trigger_name(table, suffix);
    out.append(name.as_str());
    out.append(" AFTER ");
    out.append(event);
    out.append(" ON ");
    let on = sql::quote_ident(table);
    out.append(on.as_str());
    out.append(
        " BEGIN INSERT INTO _electrolite_log (batch_id, table_name, op, pk_json, old_pk_json, new_pk_json, old_json, new_json) VALUES (",
    );
    out.append(
        "COALESCE((SELECT value FROM _electrolite_meta WHERE key = 'current_batch_id'), lower(hex(randomblob(16))))",
    );
    out.append(", ");
    let lit = sql::quote_string(table);
    out.append(lit.as_str());
    out.append(", ");
    out.append(values);
    out.append("); END; ");
    out
}

fn script_for(table: &str, columns: &Vec<String>, pk: &Vec<String>) -> (r: String)
    ensures
        r@ == trigger_script(table@, text::texts(columns@), text::texts(pk@)),
{
    let new_row = sql::object_expr("NEW.", columns);
    let old_row = sql::object_expr("OLD.", columns);
    let new_pk = sql::object_expr("NEW.", pk);
    let old_pk = sql::object_expr("OLD.", pk);
    let none = "NULL";
    let mut out = String::new();
    append_drop(&mut out, table, "_ai");
    append_drop(&mut out, table, "_au");
    append_drop(&mut out, table, "_ad");
    let inserted = logged_values("insert", new_pk.as_str(), none, new_pk.as_str(), none, new_row.as_str());
    let on_insert = create(table, "_ai", "INSERT", inserted.as_str());
    out.append(on_insert.as_str());
    let updated = logged_values(
        "update",
        new_pk.as_str(),
        old_pk.as_str(),
        new_pk.as_str(),
        old_row.as_str(),
        new_row.as_str(),
    );
    let on_update = create(table, "_au", "UPDATE", updated.as_str());
    out.append(on_update.as_str());
    let deleted = logged_values("delete", old_pk.as_str(), old_pk.as_str(), none, old_row.as_str(), none);
    let on_delete = create(table, "_ad", "DELETE", deleted.as_str());
    out.append(on_delete.as_str());
    assert(out@ =~= trigger_script(table@, text::texts(columns@), text::texts(pk@)));
    out
}

/// What it takes to watch a table.
pub fn install_triggers(table: &str, info: &TableInfo) -> (r: Result<Watch, Error>)
    ensures
        watch_result(r) == watch(table@, info@),
        r matches Ok(w) ==> json::parsed_texts(w.pk_columns@) == Some(info@.pk),
{
    if info.pk.len() == 0 {
        let mut message = "table ".to_string();
        message.append(table);
        message.append(" must have a primary key");
        return Err(Error::Bad(message));
    }
    let pk_columns = table::key_columns_text(info);
    let script = script_for(table, &info.columns, &info.pk);
    Ok(Watch { pk_columns, script })
}

/// An identity made of random bytes: two lower-case hexadecimal digits for each, so that different
/// bytes make different identities.
pub fn random_hex(random: &[u8]) -> (r: String)
    ensures
        r@ == sha256::hex(random@),
        r@.len() == 2 * random@.len(),
        forall|other: Seq<u8>| #[trigger] sha256::hex(other) == r@ ==> other == random@,
{
    proof {
        sha256::law_hex_shape(random@);
        assert forall|other: Seq<u8>| #[trigger] sha256::hex(other) == sha256::hex(random@) implies other
            == random@ by {
            sha256::law_hex_tells_bytes_apart(other, random@);
        }
    }
    sha256::to_hex(random)
}

proof fn lemma_found(hay: Seq<char>, at: int, needle: Seq<char>)
    requires
        0 <= at <= hay.len() - needle.len(),
        forall|i: int| 0 <= i < needle.len() ==> hay[at + i] == #[trigger] needle[i],
    ensures
        text::contains(hay, needle),
{
    assert(hay.subrange(at, at + needle.len()) =~= needle);
}

/// Opening a batch, ending it and reading it are about one stored value: the statements that open
/// and end a batch and the triggers name the same key.
pub proof fn law_batches_have_one_key()
    ensures
        text::contains(START_BATCH@, "'current_batch_id'"@),
        text::contains(END_BATCH@, "'current_batch_id'"@),
        text::contains(batch_expression(), "'current_batch_id'"@),
{
    reveal_strlit("'current_batch_id'");
    reveal_strlit("INSERT INTO _electrolite_meta (key, value) VALUES ('current_batch_id', ?) ON CONFLICT(key) DO UPDATE SET value = excluded.value");
    reveal_strlit("DELETE FROM _electrolite_meta WHERE key = 'current_batch_id'");
    reveal_strlit("COALESCE((SELECT value FROM _electrolite_meta WHERE key = 'current_batch_id'), lower(hex(randomblob(16))))");
    let k = "'current_batch_id'"@;
    assert(k.len() == 18);
    lemma_found(START_BATCH@, 51, k);
    lemma_found(END_BATCH@, 42, k);
    lemma_found(batch_expression(), 58, k);
}

/// A table can be watched where it has a primary key. What is stored of it is its key, and its
/// triggers are those of its columns and its key.
pub proof fn law_tables_with_a_key_are_watched(table: Seq<char>, info: TableInfoView)
    ensures
        watch(table, info) is Ok <==> info.pk.len() > 0,
        watch(table, info) matches Err(e) ==> e == ErrorView::Bad("table "@ + table + " must have a primary key"@),
        watch(table, info) matches Ok(w) ==> {
            &&& w.script == trigger_script(table, info.columns, info.pk)
            &&& w.pk_columns == json::encoded(
                JsonView::Array(Seq::new(info.pk.len(), |i: int| JsonView::Text(info.pk[i]))),
            )
        },
{
    assert(json::text_values(info.pk) =~= Seq::new(info.pk.len(), |i: int| JsonView::Text(info.pk[i])));
}

/// The columns that are listed for a table are those of the table of that name, whatever characters
/// it has.
pub proof fn law_listed_columns_are_those_of_the_table(a: Seq<char>, b: Seq<char>)
    ensures
        pragma_text(a) == "PRAGMA table_info("@ + sql::literal(a) + ")"@,
        pragma_text(a) == pragma_text(b) ==> a == b,
{
    if pragma_text(a) == pragma_text(b) {
        reveal_strlit("PRAGMA table_info(");
        reveal_strlit(")");
        let (x, y) = (pragma_text(a), pragma_text(b));
        assert(sql::literal(a) =~= x.subrange(18, x.len() - 1));
        assert(sql::literal(b) =~= y.subrange(18, y.len() - 1));
        sql::law_quoting_is_injective(a, b);
    }
}

/// The changes of a table are read in the order of their positions, those behind a position and of
/// the table alone; a compaction drops those of the table up to a position, and keeps the newest.
pub proof fn law_changes_are_read_by_table_and_position()
    ensures
        text::contains(READ_PAGE@, " FROM _electrolite_log WHERE table_name = ? AND seq > ? ORDER BY seq LIMIT ?"@),
        text::contains(READ_BATCH@, " FROM _electrolite_log WHERE table_name = ? AND seq > ? AND batch_id = ? ORDER BY seq LIMIT ?"@),
        text::contains(HAS_NEWER@, " FROM _electrolite_log WHERE table_name = ? AND seq > ? LIMIT 1"@),
        text::contains(NEWEST_TO_DROP@, "SELECT seq FROM _electrolite_log WHERE table_name = ? ORDER BY seq DESC LIMIT 1 OFFSET ?"@),
        text::contains(DROP_CHANGES@, "DELETE FROM _electrolite_log WHERE table_name = ? AND seq <= ?"@),
        text::contains(READ_HIGH_WATER@, "MAX(seq)"@),
        text::contains(READ_PAGE@, "SELECT seq, batch_id, op, pk_json, old_pk_json, new_pk_json, old_json, new_json"@),
        text::contains(READ_BATCH@, "SELECT seq, batch_id, op, pk_json, old_pk_json, new_pk_json, old_json, new_json"@),
{
    assert(text::contains(READ_PAGE@, " FROM _electrolite_log WHERE table_name = ? AND seq > ? ORDER BY seq LIMIT ?"@)) by {
        reveal_strlit("SELECT seq, batch_id, op, pk_json, old_pk_json, new_pk_json, old_json, new_json FROM _electrolite_log WHERE table_name = ? AND seq > ? ORDER BY seq LIMIT ?");
        reveal_strlit(" FROM _electrolite_log WHERE table_name = ? AND seq > ? ORDER BY seq LIMIT ?");
        lemma_found(READ_PAGE@, 79, " FROM _electrolite_log WHERE table_name = ? AND seq > ? ORDER BY seq LIMIT ?"@);
    }
    assert(text::contains(READ_BATCH@, " FROM _electrolite_log WHERE table_name = ? AND seq > ? AND batch_id = ? ORDER BY seq LIMIT ?"@)) by {
        reveal_strlit("SELECT seq, batch_id, op, pk_json, old_pk_json, new_pk_json, old_json, new_json FROM _electrolite_log WHERE table_name = ? AND seq > ? AND batch_id = ? ORDER BY seq LIMIT ?");
        reveal_strlit(" FROM _electrolite_log WHERE table_name = ? AND seq > ? AND batch_id = ? ORDER BY seq LIMIT ?");
        lemma_found(READ_BATCH@, 79, " FROM _electrolite_log WHERE table_name = ? AND seq > ? AND batch_id = ? ORDER BY seq LIMIT ?"@);
    }
    assert(text::contains(HAS_NEWER@, " FROM _electrolite_log WHERE table_name = ? AND seq > ? LIMIT 1"@)) by {
        reveal_strlit("SELECT 1 FROM _electrolite_log WHERE table_name = ? AND seq > ? LIMIT 1");
        reveal_strlit(" FROM _electrolite_log WHERE table_name = ? AND seq > ? LIMIT 1");
        lemma_found(HAS_NEWER@, 8, " FROM _electrolite_log WHERE table_name = ? AND seq > ? LIMIT 1"@);
    }
    assert(text::contains(NEWEST_TO_DROP@, "SELECT seq FROM _electrolite_log WHERE table_name = ? ORDER BY seq DESC LIMIT 1 OFFSET ?"@)) by {
        reveal_strlit("SELECT seq FROM _electrolite_log WHERE table_name = ? ORDER BY seq DESC LIMIT 1 OFFSET ?");
        reveal_strlit("SELECT seq FROM _electrolite_log WHERE table_name = ? ORDER BY seq DESC LIMIT 1 OFFSET ?");
        lemma_found(NEWEST_TO_DROP@, 0, "SELECT seq FROM _electrolite_log WHERE table_name = ? ORDER BY seq DESC LIMIT 1 OFFSET ?"@);
    }
    assert(text::contains(DROP_CHANGES@, "DELETE FROM _electrolite_log WHERE table_name = ? AND seq <= ?"@)) by {
        reveal_strlit("DELETE FROM _electrolite_log WHERE table_name = ? AND seq <= ?");
        reveal_strlit("DELETE FROM _electrolite_log WHERE table_name = ? AND seq <= ?");
        lemma_found(DROP_CHANGES@, 0, "DELETE FROM _electrolite_log WHERE table_name = ? AND seq <= ?"@);
    }
    assert(text::contains(READ_HIGH_WATER@, "MAX(seq)"@)) by {
        reveal_strlit("SELECT COALESCE(MAX(seq), 0) FROM _electrolite_log");
        reveal_strlit("MAX(seq)");
        lemma_found(READ_HIGH_WATER@, 16, "MAX(seq)"@);
    }
    assert(text::contains(READ_PAGE@, "SELECT seq, batch_id, op, pk_json, old_pk_json, new_pk_json, old_json, new_json"@)) by {
        reveal_strlit("SELECT seq, batch_id, op, pk_json, old_pk_json, new_pk_json, old_json, new_json FROM _electrolite_log WHERE table_name = ? AND seq > ? ORDER BY seq LIMIT ?");
        reveal_strlit("SELECT seq, batch_id, op, pk_json, old_pk_json, new_pk_json, old_json, new_json");
        lemma_found(READ_PAGE@, 0, "SELECT seq, batch_id, op, pk_json, old_pk_json, new_pk_json, old_json, new_json"@);
    }
    assert(text::contains(READ_BATCH@, "SELECT seq, batch_id, op, pk_json, old_pk_json, new_pk_json, old_json, new_json"@)) by {
        reveal_strlit("SELECT seq, batch_id, op, pk_json, old_pk_json, new_pk_json, old_json, new_json FROM _electrolite_log WHERE table_name = ? AND seq > ? AND batch_id = ? ORDER BY seq LIMIT ?");
        reveal_strlit("SELECT seq, batch_id, op, pk_json, old_pk_json, new_pk_json, old_json, new_json");
        lemma_found(READ_BATCH@, 0, "SELECT seq, batch_id, op, pk_json, old_pk_json, new_pk_json, old_json, new_json"@);
    }
}

/// What is stored is found under the key that it was stored under.
pub proof fn law_stored_values_are_found_by_their_key()
    ensures
        text::contains(READ_META@, "value FROM _electrolite_meta WHERE key = ?"@),
        text::contains(STORE_META@, "_electrolite_meta (key, value) VALUES (?, ?)"@),
        text::contains(READ_LOG_ID@, "_electrolite_meta WHERE key = 'log_id'"@),
        text::contains(STORE_LOG_ID@, "_electrolite_meta (key, value) VALUES ('log_id', ?)"@),
        text::contains(WATCH_TABLE@, "_electrolite_watched_tables (table_name, pk_columns) VALUES (?, ?)"@),
        text::contains(READ_WATCHED@, "pk_columns FROM _electrolite_watched_tables WHERE table_name = ?"@),
{
    assert(text::contains(READ_META@, "value FROM _electrolite_meta WHERE key = ?"@)) by {
        reveal_strlit("SELECT value FROM _electrolite_meta WHERE key = ?");
        reveal_strlit("value FROM _electrolite_meta WHERE key = ?");
        lemma_found(READ_META@, 7, "value FROM _electrolite_meta WHERE key = ?"@);
    }
    assert(text::contains(STORE_META@, "_electrolite_meta (key, value) VALUES (?, ?)"@)) by {
        reveal_strlit("INSERT INTO _electrolite_meta (key, value) VALUES (?, ?) ON CONFLICT(key) DO UPDATE SET value = excluded.value");
        reveal_strlit("_electrolite_meta (key, value) VALUES (?, ?)");
        lemma_found(STORE_META@, 12, "_electrolite_meta (key, value) VALUES (?, ?)"@);
    }
    assert(text::contains(READ_LOG_ID@, "_electrolite_meta WHERE key = 'log_id'"@)) by {
        reveal_strlit("SELECT value FROM _electrolite_meta WHERE key = 'log_id'");
        reveal_strlit("_electrolite_meta WHERE key = 'log_id'");
        lemma_found(READ_LOG_ID@, 18, "_electrolite_meta WHERE key = 'log_id'"@);
    }
    assert(text::contains(STORE_LOG_ID@, "_electrolite_meta (key, value) VALUES ('log_id', ?)"@)) by {
        reveal_strlit("INSERT INTO _electrolite_meta (key, value) VALUES ('log_id', ?)");
        reveal_strlit("_electrolite_meta (key, value) VALUES ('log_id', ?)");
        lemma_found(STORE_LOG_ID@, 12, "_electrolite_meta (key, value) VALUES ('log_id', ?)"@);
    }
    assert(text::contains(WATCH_TABLE@, "_electrolite_watched_tables (table_name, pk_columns) VALUES (?, ?)"@)) by {
        reveal_strlit("INSERT INTO _electrolite_watched_tables (table_name, pk_columns) VALUES (?, ?) ON CONFLICT(table_name) DO UPDATE SET pk_columns = excluded.pk_columns");
        reveal_strlit("_electrolite_watched_tables (table_name, pk_columns) VALUES (?, ?)");
        lemma_found(WATCH_TABLE@, 12, "_electrolite_watched_tables (table_name, pk_columns) VALUES (?, ?)"@);
    }
    assert(text::contains(READ_WATCHED@, "pk_columns FROM _electrolite_watched_tables WHERE table_name = ?"@)) by {
        reveal_strlit("SELECT pk_columns FROM _electrolite_watched_tables WHERE table_name = ?");
        reveal_strlit("pk_columns FROM _electrolite_watched_tables WHERE table_name = ?");
        lemma_found(READ_WATCHED@, 7, "pk_columns FROM _electrolite_watched_tables WHERE table_name = ?"@);
    }
}

} // verus!

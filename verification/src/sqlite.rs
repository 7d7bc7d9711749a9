//! The change log of an SQLite database: triggers that fill it, and the changes read from it.
use vstd::prelude::*;
use crate::engine;
use crate::engine::schema;
use crate::engine::snapshot::Query;
use crate::engine::table::{ColumnRow, ColumnView};
use crate::json;
use crate::json::{Json, JsonView};
use crate::registry;
use crate::registry::{LogOp, LogRow, LogRowView, MessageView, Replay, Shape, ShapeMessage, ShapeView, Snapshot};
use crate::sql;
use crate::text;

verus! {

/// Why the log of a database could not be set up or read.
#[derive(Debug)]
pub enum Error {
    /// SQLite failed, with what it reported.
    Sqlite(String),
    /// A logged value is no JSON, with what the parser reported.
    Json(String),
    /// The table lacks the key column.
    MissingPrimaryKey { table: String, pk_column: String },
    /// The table has no columns: there is none.
    EmptyTable { table: String },
    /// The log holds a change of an unknown kind.
    InvalidLogOp(String),
}

/// The model of an error.
pub enum ErrorView {
    Sqlite(Seq<char>),
    Json(Seq<char>),
    MissingPrimaryKey { table: Seq<char>, pk_column: Seq<char> },
    EmptyTable { table: Seq<char> },
    InvalidLogOp(Seq<char>),
}

impl View for Error {
    type V = ErrorView;

    open spec fn view(&self) -> ErrorView {
        match self {
            Error::Sqlite(s) => ErrorView::Sqlite(s@),
            Error::Json(s) => ErrorView::Json(s@),
            Error::MissingPrimaryKey { table, pk_column } => ErrorView::MissingPrimaryKey {
                table: table@,
                pk_column: pk_column@,
            },
            Error::EmptyTable { table } => ErrorView::EmptyTable { table: table@ },
            Error::InvalidLogOp(s) => ErrorView::InvalidLogOp(s@),
        }
    }
}

/// A table whose changes are logged, with its key column and all its columns.
#[derive(Debug, Clone, PartialEq, Eq)]
pub struct WatchedTable {
    pub table: String,
    pub pk_column: String,
    pub columns: Vec<String>,
}

/// The model of a watched table.
pub struct WatchedView {
    pub table: Seq<char>,
    pub pk_column: Seq<char>,
    pub columns: Seq<Seq<char>>,
}

impl View for WatchedTable {
    type V = WatchedView;

    open spec fn view(&self) -> WatchedView {
        WatchedView {
            table: self.table@,
            pk_column: self.pk_column@,
            columns: text::texts(self.columns@),
        }
    }
}

/// Creates the log where it is missing.
pub const BOOTSTRAP: &'static str = "CREATE TABLE IF NOT EXISTS _electrolite_log (seq INTEGER PRIMARY KEY AUTOINCREMENT, table_name TEXT NOT NULL, op TEXT NOT NULL, pk_json TEXT NOT NULL, old_pk_json TEXT, new_pk_json TEXT, old_json TEXT, new_json TEXT, created_at INTEGER NOT NULL DEFAULT (unixepoch())); CREATE INDEX IF NOT EXISTS _electrolite_log_table_seq ON _electrolite_log(table_name, seq); CREATE TABLE IF NOT EXISTS _electrolite_meta (key TEXT PRIMARY KEY, value TEXT NOT NULL);";

/// Reads the changes of all tables behind a position.
pub const READ_LOG: &'static str = "SELECT seq, table_name, op, pk_json, old_pk_json, new_pk_json, old_json, new_json, created_at FROM _electrolite_log WHERE seq > ?1 ORDER BY seq ASC LIMIT ?2";

/// Whether some column is the key column of that name.
pub open spec fn has_key(rows: Seq<ColumnView>, pk_column: Seq<char>) -> bool {
    exists|i: int| 0 <= i < rows.len() && (#[trigger] rows[i]).name == pk_column && rows[i].pk > 0
}

/// The result of inspecting a table by its listed columns.
pub open spec fn inspected(
    table: Seq<char>,
    pk_column: Seq<char>,
    rows: Seq<ColumnView>,
) -> Result<WatchedView, ErrorView> {
    if rows.len() == 0 {
        Err(ErrorView::EmptyTable { table })
    } else if !has_key(rows, pk_column) {
        Err(ErrorView::MissingPrimaryKey { table, pk_column })
    } else {
        Ok(WatchedView { table, pk_column, columns: engine::table::names(rows) })
    }
}

/// The model of a result.
pub open spec fn watched_result(r: Result<WatchedTable, Error>) -> Result<WatchedView, ErrorView> {
    match r {
        Ok(w) => Ok(w@),
        Err(e) => Err(e@),
    }
}

/// A table to watch, by its listed columns.
pub fn inspect_table(table: &str, pk_column: &str, rows: &Vec<ColumnRow>) -> (r: Result<WatchedTable, Error>)
    ensures
        watched_result(r) == inspected(table@, pk_column@, engine::table::column_views(rows@)),
{
    let ghost all = engine::table::column_views(rows@);
    let mut columns: Vec<String> = Vec::new();
    let mut found = false;
    let mut i: usize = 0;
    while i < rows.len()
        invariant
            i <= rows@.len(),
            all == engine::table::column_views(rows@),
            columns@.len() == i,
            forall|j: int| 0 <= j < i ==> (#[trigger] columns@[j])@ == all[j].name,
            found == exists|j: int| 0 <= j < i && (#[trigger] all[j]).name == pk_column@ && all[j].pk > 0,
        decreases rows@.len() - i,
    {
        assert(all[i as int] == rows@[i as int]@);
        if rows[i].pk > 0 && text::same_text(rows[i].name.as_str(), pk_column) {
            found = true;
        }
        columns.push(rows[i].name.clone());
        i += 1;
    }
    if columns.len() == 0 {
        return Err(Error::EmptyTable { table: table.to_string() });
    }
    if !found {
        return Err(Error::MissingPrimaryKey { table: table.to_string(), pk_column: pk_column.to_string() });
    }
    assert(text::texts(columns@) =~= engine::table::names(all));
    Ok(WatchedTable { table: table.to_string(), pk_column: pk_column.to_string(), columns })
}

/// Whether a character may stand in the name of a trigger.
pub open spec fn is_word(c: char) -> bool {
    ('0' <= c <= '9') || ('A' <= c <= 'Z') || ('a' <= c <= 'z') || c == '_'
}

/// The start of the names of the triggers of a table: its name with an underscore in place of
/// every character but ASCII letters, digits and underscores.
pub open spec fn prefix_text(table: Seq<char>) -> Seq<char> {
    "_electrolite__"@ + Seq::new(
        table.len(),
        |i: int|
            if is_word(table[i]) {
                table[i]
            } else {
                '_'
            },
    )
}

/// The start of the names of the triggers of a table.
pub fn trigger_prefix(table: &str) -> (r: String)
    ensures
        r@ == prefix_text(table@),
{
    let chars = text::chars_of(table);
    let mut out = "_electrolite__".to_string();
    let ghost head = out@;
    let mut i: usize = 0;
    assert(out@ =~= prefix_text(table@).take(head.len() as int));
    while i < chars.len()
        invariant
            i <= chars@.len(),
            chars@ == table@,
            head == "_electrolite__"@,
            out@ == prefix_text(table@).take(head.len() + i),
        decreases chars@.len() - i,
    {
        let c: char = chars[i];
        if ('0' <= c && c <= '9') || ('A' <= c && c <= 'Z') || ('a' <= c && c <= 'z') || c == '_' {
            out.push(c);
        } else {
            out.push('_');
        }
        i += 1;
        assert(out@ =~= prefix_text(table@).take(head.len() + i));
    }
    assert(out@ =~= prefix_text(table@));
    out
}

/// The expression that builds a JSON object of some columns of the row that a prefix names.
pub fn row_json_expr(prefix: &str, columns: &Vec<String>) -> (r: String)
    ensures
        r@ == sql::row_object(prefix@ + "."@, text::texts(columns@)),
{
    let mut qualifier = prefix.to_string();
    qualifier.append(".");
    sql::object_expr(qualifier.as_str(), columns)
}

/// The statement that creates a trigger where it is missing.
pub open spec fn create_trigger(
    table: Seq<char>,
    suffix: Seq<char>,
    event: Seq<char>,
    values: Seq<char>,
) -> Seq<char> {
    "CREATE TRIGGER IF NOT EXISTS "@ + sql::ident(prefix_text(table) + suffix) + " AFTER "@ + event + " ON "@
        + sql::ident(table)
        + " BEGIN INSERT INTO _electrolite_log (table_name, op, pk_json, old_pk_json, new_pk_json, old_json, new_json) VALUES ("@
        + sql::literal(table) + ", "@ + values + "); END; "@
}

/// The script that puts the triggers on a table: one for each kind of change.
pub open spec fn trigger_script(w: WatchedView) -> Seq<char> {
    let new_pk = sql::row_object("NEW"@ + "."@, seq![w.pk_column]);
    let old_pk = sql::row_object("OLD"@ + "."@, seq![w.pk_column]);
    let new_row = sql::row_object("NEW"@ + "."@, w.columns);
    let old_row = sql::row_object("OLD"@ + "."@, w.columns);
    create_trigger(
        w.table,
        "_ai"@,
        "INSERT"@,
        schema::logged("insert"@, new_pk, "NULL"@, new_pk, "NULL"@, new_row),
    ) + create_trigger(
        w.table,
        "_au"@,
        "UPDATE"@,
        schema::logged("update"@, new_pk, old_pk, new_pk, old_row, new_row),
    ) + create_trigger(
        w.table,
        "_ad"@,
        "DELETE"@,
        schema::logged("delete"@, old_pk, old_pk, "NULL"@, old_row, "NULL"@),
    )
}

fn create(table: &str, suffix: &str, event: &str, values: &str) -> (r: String)
    ensures
        r@ == create_trigger(table@, suffix@, event@, values@),
{
    let mut name = trigger_prefix(table);
    name.append(suffix);
    let name = sql::quote_ident(name.as_str());
    let mut out = "CREATE TRIGGER IF NOT EXISTS ".to_string();
    out.append(name.as_str());
    out.append(" AFTER ");
    out.append(event);
    out.append(" ON ");
    let on = sql::quote_ident(table);
    out.append(on.as_str());
    out.append(
        " BEGIN INSERT INTO _electrolite_log (table_name, op, pk_json, old_pk_json, new_pk_json, old_json, new_json) VALUES (",
    );
    let lit = sql::quote_string(table);
    out.append(lit.as_str());
    out.append(", ");
    out.append(values);
    out.append("); END; ");
    out
}

/// The script that puts the triggers on a watched table.
pub fn install_triggers(watched: &WatchedTable) -> (r: String)
    ensures
        r@ == trigger_script(watched@),
{
    let table = watched.table.as_str();
    let mut key: Vec<String> = Vec::new();
    key.push(watched.pk_column.clone());
    assert(text::texts(key@) =~= seq![watched@.pk_column]);
    let new_pk = row_json_expr("NEW", &key);
    let old_pk = row_json_expr("OLD", &key);
    let new_row = row_json_expr("NEW", &watched.columns);
    let old_row = row_json_expr("OLD", &watched.columns);
    let none = "NULL";
    let inserted = schema::logged_values("insert", new_pk.as_str(), none, new_pk.as_str(), none, new_row.as_str());
    let mut out = create(table, "_ai", "INSERT", inserted.as_str());
    let updated = schema::logged_values(
        "update",
        new_pk.as_str(),
        old_pk.as_str(),
        new_pk.as_str(),
        old_row.as_str(),
        new_row.as_str(),
    );
    let on_update = create(table, "_au", "UPDATE", updated.as_str());
    out.append(on_update.as_str());
    let deleted = schema::logged_values("delete", old_pk.as_str(), old_pk.as_str(), none, old_row.as_str(), none);
    let on_delete = create(table, "_ad", "DELETE", deleted.as_str());
    out.append(on_delete.as_str());
    out
}

/// The kind of a change by its name in the log.
pub open spec fn op_named(s: Seq<char>) -> Option<LogOp> {
    if s == "insert"@ {
        Some(LogOp::Insert)
    } else if s == "update"@ {
        Some(LogOp::Update)
    } else if s == "delete"@ {
        Some(LogOp::Delete)
    } else {
        None
    }
}

/// The kind of a change by its name in the log.
pub fn parse_op(s: &str) -> (r: Option<LogOp>)
    ensures
        r == op_named(s@),
{
    if text::same_text(s, "insert") {
        Some(LogOp::Insert)
    } else if text::same_text(s, "update") {
        Some(LogOp::Update)
    } else if text::same_text(s, "delete") {
        Some(LogOp::Delete)
    } else {
        None
    }
}

/// A logged value: what the JSON parser made of its text, or what it reported.
pub type Parsed = std::result::Result<Json, String>;

/// One line of the log as it was read.
#[derive(Debug)]
pub struct RawLogRow {
    pub seq: i64,
    pub table_name: String,
    pub op: String,
    pub pk_json: Parsed,
    pub old_pk_json: Option<Parsed>,
    pub new_pk_json: Option<Parsed>,
    pub old_json: Option<Parsed>,
    pub new_json: Option<Parsed>,
    pub created_at: i64,
}

/// The model of a line of the log.
pub struct RawView {
    pub seq: i64,
    pub table_name: Seq<char>,
    pub op: Seq<char>,
    pub pk_json: Result<JsonView, Seq<char>>,
    pub old_pk_json: Option<Result<JsonView, Seq<char>>>,
    pub new_pk_json: Option<Result<JsonView, Seq<char>>>,
    pub old_json: Option<Result<JsonView, Seq<char>>>,
    pub new_json: Option<Result<JsonView, Seq<char>>>,
    pub created_at: i64,
}

/// The model of a logged value.
pub open spec fn parsed_view(p: Parsed) -> Result<JsonView, Seq<char>> {
    match p {
        Ok(v) => Ok(v@),
        Err(e) => Err(e@),
    }
}

/// The model of a logged value that may be missing.
pub open spec fn option_parsed(p: Option<Parsed>) -> Option<Result<JsonView, Seq<char>>> {
    match p {
        Some(p) => Some(parsed_view(p)),
        None => None,
    }
}

impl View for RawLogRow {
    type V = RawView;

    open spec fn view(&self) -> RawView {
        RawView {
            seq: self.seq,
            table_name: self.table_name@,
            op: self.op@,
            pk_json: parsed_view(self.pk_json),
            old_pk_json: option_parsed(self.old_pk_json),
            new_pk_json: option_parsed(self.new_pk_json),
            old_json: option_parsed(self.old_json),
            new_json: option_parsed(self.new_json),
            created_at: self.created_at,
        }
    }
}

/// What reading a line of the log gave: the line, or what SQLite reported.
pub type ReadRow = std::result::Result<RawLogRow, String>;

/// The model of a read line.
pub open spec fn read_view(r: ReadRow) -> Result<RawView, Seq<char>> {
    match r {
        Ok(row) => Ok(row@),
        Err(e) => Err(e@),
    }
}

/// The models of some read lines.
pub open spec fn read_views(rows: Seq<ReadRow>) -> Seq<Result<RawView, Seq<char>>> {
    Seq::new(rows.len(), |i: int| read_view(rows[i]))
}

/// A logged value that may be missing.
pub open spec fn logged_value(
    p: Option<Result<JsonView, Seq<char>>>,
) -> Result<Option<JsonView>, ErrorView> {
    match p {
        None => Ok(None),
        Some(Ok(v)) => Ok(Some(v)),
        Some(Err(e)) => Err(ErrorView::Json(e)),
    }
}

/// The change that a line of the log stands for, or the first thing that is wrong with it: its
/// kind, then its values in their order.
pub open spec fn change(row: Result<RawView, Seq<char>>) -> Result<LogRowView, ErrorView> {
    match row {
        Err(e) => Err(ErrorView::Sqlite(e)),
        Ok(raw) => match op_named(raw.op) {
            None => Err(ErrorView::InvalidLogOp(raw.op)),
            Some(op) => match raw.pk_json {
                Err(e) => Err(ErrorView::Json(e)),
                Ok(pk_json) => match logged_value(raw.old_pk_json) {
                    Err(e) => Err(e),
                    Ok(old_pk_json) => match logged_value(raw.new_pk_json) {
                        Err(e) => Err(e),
                        Ok(new_pk_json) => match logged_value(raw.old_json) {
                            Err(e) => Err(e),
                            Ok(old_json) => match logged_value(raw.new_json) {
                                Err(e) => Err(e),
                                Ok(new_json) => Ok(
                                    LogRowView {
                                        seq: raw.seq,
                                        table_name: raw.table_name,
                                        op,
                                        pk_json,
                                        old_pk_json,
                                        new_pk_json,
                                        old_json,
                                        new_json,
                                        created_at: raw.created_at,
                                    },
                                ),
                            },
                        },
                    },
                },
            },
        },
    }
}

/// The changes that some lines of the log stand for, or the first error among them.
pub open spec fn changes(
    rows: Seq<Result<RawView, Seq<char>>>,
) -> Result<Seq<LogRowView>, ErrorView>
    decreases rows.len(),
{
    if rows.len() == 0 {
        Ok(Seq::empty())
    } else {
        match changes(rows.drop_last()) {
            Err(e) => Err(e),
            Ok(front) => match change(rows.last()) {
                Err(e) => Err(e),
                Ok(row) => Ok(front.push(row)),
            },
        }
    }
}

/// The models of some changes.
pub open spec fn log_views(rows: Seq<LogRow>) -> Seq<LogRowView> {
    Seq::new(rows.len(), |i: int| rows[i]@)
}

/// The model of a result.
pub open spec fn row_result(r: Result<LogRow, Error>) -> Result<LogRowView, ErrorView> {
    match r {
        Ok(row) => Ok(row@),
        Err(e) => Err(e@),
    }
}

/// The model of a result.
pub open spec fn rows_result(r: Result<Vec<LogRow>, Error>) -> Result<Seq<LogRowView>, ErrorView> {
    match r {
        Ok(rows) => Ok(log_views(rows@)),
        Err(e) => Err(e@),
    }
}

fn take_value(p: Option<Parsed>) -> (r: Result<Option<Json>, Error>)
    ensures
        (match r {
            Ok(v) => Ok(json::option_view(v)),
            Err(e) => Err(e@),
        }) == logged_value(option_parsed(p)),
{
    match p {
        None => Ok(None),
        Some(p) => match p {
            Ok(v) => Ok(Some(v)),
            Err(e) => Err(Error::Json(e)),
        },
    }
}

fn take_row(row: ReadRow) -> (r: Result<LogRow, Error>)
    ensures
        row_result(r) == change(read_view(row)),
{
    let raw = match row {
        Ok(raw) => raw,
        Err(e) => {
            return Err(Error::Sqlite(e));
        },
    };
    let op = match parse_op(raw.op.as_str()) {
        Some(op) => op,
        None => {
            return Err(Error::InvalidLogOp(raw.op));
        },
    };
    let pk_json = match raw.pk_json {
        Ok(v) => v,
        Err(e) => {
            return Err(Error::Json(e));
        },
    };
    let old_pk_json = match take_value(raw.old_pk_json) {
        Ok(v) => v,
        Err(e) => {
            return Err(e);
        },
    };
    let new_pk_json = match take_value(raw.new_pk_json) {
        Ok(v) => v,
        Err(e) => {
            return Err(e);
        },
    };
    let old_json = match take_value(raw.old_json) {
        Ok(v) => v,
        Err(e) => {
            return Err(e);
        },
    };
    let new_json = match take_value(raw.new_json) {
        Ok(v) => v,
        Err(e) => {
            return Err(e);
        },
    };
    Ok(
        LogRow {
            seq: raw.seq,
            table_name: raw.table_name,
            op,
            pk_json,
            old_pk_json,
            new_pk_json,
            old_json,
            new_json,
            created_at: raw.created_at,
        },
    )
}

proof fn lemma_changes_error_stays(rows: Seq<Result<RawView, Seq<char>>>, k: int)
    requires
        0 <= k <= rows.len(),
        changes(rows.take(k)) is Err,
    ensures
        changes(rows) == changes(rows.take(k)),
    decreases rows.len() - k,
{
    if k == rows.len() {
        assert(rows.take(k) =~= rows);
    } else {
        assert(rows.take(k + 1).drop_last() =~= rows.take(k));
        lemma_changes_error_stays(rows, k + 1);
    }
}

/// The changes behind a position, from the lines of the log that were read for them.
pub fn read_log_since(rows: Vec<ReadRow>) -> (r: Result<Vec<LogRow>, Error>)
    ensures
        rows_result(r) == changes(read_views(rows@)),
{
    let ghost all = rows@;
    let ghost vs = read_views(rows@);
    let mut out: Vec<LogRow> = Vec::new();
    assert(log_views(out@) =~= Seq::empty());
    for row in it: rows
        invariant
            it.seq() == all,
            vs == read_views(all),
            changes(vs.take(it.index())) == Ok::<Seq<LogRowView>, ErrorView>(log_views(out@)),
    {
        assert(vs.take(it.index() + 1).drop_last() =~= vs.take(it.index()));
        assert(vs.take(it.index() + 1).last() == read_view(row));
        match take_row(row) {
            Ok(row) => {
                let ghost before = log_views(out@);
                out.push(row);
                assert(log_views(out@) =~= before.push(row@));
            },
            Err(e) => {
                proof {
                    lemma_changes_error_stays(vs, it.index() + 1);
                }
                return Err(e);
            },
        }
    }
    assert(vs.take(vs.len() as int) =~= vs);
    Ok(out)
}

/// The messages that some changes send to the readers of a shape.
pub open spec fn all_messages(shape: ShapeView, rows: Seq<LogRowView>) -> Seq<MessageView>
    decreases rows.len(),
{
    if rows.len() == 0 {
        Seq::empty()
    } else {
        all_messages(shape, rows.drop_last()) + registry::messages(shape, rows.last())
    }
}

/// The position behind some changes.
pub open spec fn latest(rows: Seq<LogRowView>, offset: i64) -> i64 {
    if rows.len() == 0 {
        offset
    } else {
        rows.last().seq
    }
}

/// The replay of some changes for the readers of a shape.
pub fn replay(shape: &Shape, offset: i64, rows: &Vec<LogRow>) -> (r: Replay)
    ensures
        registry::message_views(r.messages@) == all_messages(shape@, log_views(rows@)),
        r.offset == latest(log_views(rows@), offset),
{
    let ghost all = log_views(rows@);
    let mut messages: Vec<ShapeMessage> = Vec::new();
    let mut i: usize = 0;
    assert(registry::message_views(messages@) =~= all_messages(shape@, all.take(0)));
    while i < rows.len()
        invariant
            i <= rows@.len(),
            all == log_views(rows@),
            registry::message_views(messages@) == all_messages(shape@, all.take(i as int)),
        decreases rows@.len() - i,
    {
        assert(all.take(i + 1).drop_last() =~= all.take(i as int));
        assert(all.take(i + 1).last() == rows@[i as int]@);
        let mut more = registry::messages_for_log(shape, &rows[i]);
        let ghost before = messages@;
        let ghost extra = more@;
        messages.append(&mut more);
        assert(registry::message_views(messages@) =~= registry::message_views(before) + registry::message_views(
            extra,
        ));
        i += 1;
    }
    assert(all.take(rows@.len() as int) =~= all);
    let n: usize = rows.len();
    let offset: i64 = if n == 0 {
        offset
    } else {
        assert(all.last() == rows@[n - 1]@);
        rows[n - 1].seq
    };
    Replay { messages, offset }
}

/// The statement that reads the rows of a shape in the order of the key columns of its table.
pub fn initial_snapshot(shape: &Shape, pk: &Vec<String>) -> (r: Query)
    ensures
        r.sql@ == engine::snapshot::snapshot_sql(
            shape@.table,
            shape@.columns,
            registry::engine_predicate(shape@.predicate),
            text::texts(pk@),
        ),
        sql::sql_views(r.args@) == engine::compile::arguments(registry::engine_predicate(shape@.predicate)),
{
    let predicate = registry::to_engine(&shape.predicate);
    engine::snapshot::select_rows(shape.table.as_str(), &shape.columns, &predicate, pk)
}

/// The snapshot of a shape from what the database read: the rows, the position of the newest change
/// in the log, and the position that the table is retained from.
pub fn snapshot(rows: Vec<Json>, high_water: i64, retained: i64) -> (r: Snapshot)
    ensures
        r.rows == rows,
        r.offset == engine::snapshot::pinned(high_water, retained),
        r.offset >= retained,
{
    Snapshot { rows, offset: engine::snapshot::snapshot_offset(high_water, retained) }
}

/// The changes behind a position.
pub open spec fn behind(log: Seq<LogRowView>, offset: i64) -> Seq<LogRowView>
    decreases log.len(),
{
    if log.len() == 0 {
        Seq::empty()
    } else if log.last().seq > offset {
        behind(log.drop_last(), offset).push(log.last())
    } else {
        behind(log.drop_last(), offset)
    }
}

/// A log after a compaction of a table: without the changes of the table up to a position.
pub open spec fn compacted(log: Seq<LogRowView>, table: Seq<char>, retained: i64) -> Seq<LogRowView>
    decreases log.len(),
{
    if log.len() == 0 {
        Seq::empty()
    } else if log.last().table_name == table && log.last().seq <= retained {
        compacted(log.drop_last(), table, retained)
    } else {
        compacted(log.drop_last(), table, retained).push(log.last())
    }
}

/// A compaction takes no message from a reader whose position is accepted: where the table of the
/// shape is compacted, the messages behind a position that is not before the retained one are those
/// of the whole log, and a compaction of another table changes nothing for the shape.
pub proof fn law_accepted_positions_lose_nothing(
    shape: ShapeView,
    log: Seq<LogRowView>,
    table: Seq<char>,
    retained: i64,
    offset: i64,
)
    requires
        table == shape.table ==> offset >= retained,
    ensures
        all_messages(shape, behind(compacted(log, table, retained), offset)) == all_messages(
            shape,
            behind(log, offset),
        ),
    decreases log.len(),
{
    if log.len() > 0 {
        let front = log.drop_last();
        let last = log.last();
        law_accepted_positions_lose_nothing(shape, front, table, retained, offset);
        let (a, b) = (behind(compacted(front, table, retained), offset), behind(front, offset));
        assert(a.push(last).drop_last() =~= a);
        assert(b.push(last).drop_last() =~= b);
        if last.table_name == table && last.seq <= retained {
            if last.seq > offset {
                assert(registry::messages(shape, last) =~= Seq::empty());
                assert(all_messages(shape, b.push(last)) =~= all_messages(shape, b));
            }
        } else {
            let c = compacted(front, table, retained);
            assert(c.push(last).drop_last() =~= c);
        }
    }
}

proof fn lemma_messages_concat(shape: ShapeView, a: Seq<LogRowView>, b: Seq<LogRowView>)
    ensures
        all_messages(shape, a + b) == all_messages(shape, a) + all_messages(shape, b),
    decreases b.len(),
{
    if b.len() == 0 {
        assert(a + b =~= a);
        assert(all_messages(shape, a) + all_messages(shape, b) =~= all_messages(shape, a));
    } else {
        assert((a + b).drop_last() =~= a + b.drop_last());
        lemma_messages_concat(shape, a, b.drop_last());
        assert(all_messages(shape, a + b) =~= all_messages(shape, a) + all_messages(shape, b));
    }
}

/// A replay of the first changes and one of the others, from where the first ended, are together
/// the replay of all of them.
pub proof fn law_replays_follow_without_gap(shape: ShapeView, rows: Seq<LogRowView>, offset: i64, n: int)
    requires
        0 <= n <= rows.len(),
    ensures
        all_messages(shape, rows.take(n)) + all_messages(shape, rows.skip(n)) == all_messages(shape, rows),
        latest(rows.skip(n), latest(rows.take(n), offset)) == latest(rows, offset),
{
    lemma_messages_concat(shape, rows.take(n), rows.skip(n));
    assert(rows.take(n) + rows.skip(n) =~= rows);
}

/// The name of a kind of change in the log, which its trigger writes.
pub open spec fn op_name(op: LogOp) -> Seq<char> {
    match op {
        LogOp::Insert => "insert"@,
        LogOp::Update => "update"@,
        LogOp::Delete => "delete"@,
    }
}

/// The kind of a change reads back from its name, and no other name stands for a kind.
pub proof fn law_kinds_read_back(op: LogOp, s: Seq<char>)
    ensures
        op_named(op_name(op)) == Some(op),
        op_named(s) == Some(op) ==> s == op_name(op),
{
    reveal_strlit("insert");
    reveal_strlit("update");
    reveal_strlit("delete");
    assert("insert"@[0] == 'i' && "update"@[0] == 'u' && "delete"@[0] == 'd');
}

/// Whether a logged value that may be missing is as it was parsed.
pub open spec fn value_kept(p: Option<Result<JsonView, Seq<char>>>, v: Option<JsonView>) -> bool {
    match v {
        Some(x) => p == Some(Ok::<JsonView, Seq<char>>(x)),
        None => p is None,
    }
}

/// Whether a logged value that may be missing was parsed.
pub open spec fn readable(p: Option<Result<JsonView, Seq<char>>>) -> bool {
    p matches Some(r) ==> r is Ok
}

/// A change is read as it was logged: each of its fields is that of the line, and a line is refused
/// where its kind is unknown or one of its values is no JSON.
pub proof fn law_changes_are_read_as_logged(raw: RawView)
    ensures
        change(Ok(raw)) is Ok <==> {
            &&& raw.op == "insert"@ || raw.op == "update"@ || raw.op == "delete"@
            &&& raw.pk_json is Ok
            &&& readable(raw.old_pk_json)
            &&& readable(raw.new_pk_json)
            &&& readable(raw.old_json)
            &&& readable(raw.new_json)
        },
        change(Ok(raw)) matches Ok(row) ==> {
            &&& row.seq == raw.seq
            &&& row.table_name == raw.table_name
            &&& op_name(row.op) == raw.op
            &&& raw.pk_json == Ok::<JsonView, Seq<char>>(row.pk_json)
            &&& value_kept(raw.old_pk_json, row.old_pk_json)
            &&& value_kept(raw.new_pk_json, row.new_pk_json)
            &&& value_kept(raw.old_json, row.old_json)
            &&& value_kept(raw.new_json, row.new_json)
            &&& row.created_at == raw.created_at
        },
        change(Ok(raw)) matches Err(e) ==> e is InvalidLogOp || e is Json,
        forall|e: Seq<char>| #[trigger] change(Err(e)) == Err::<LogRowView, ErrorView>(ErrorView::Sqlite(e)),
{
    law_kinds_read_back(LogOp::Insert, raw.op);
    law_kinds_read_back(LogOp::Update, raw.op);
    law_kinds_read_back(LogOp::Delete, raw.op);
}

/// Lines are read in order and none is left out: as many changes as lines, each that of the line at
/// its place. Where a line is refused, the first of them says why.
pub proof fn law_lines_are_read_in_order(rows: Seq<Result<RawView, Seq<char>>>)
    ensures
        changes(rows) is Ok <==> forall|i: int| 0 <= i < rows.len() ==> (#[trigger] change(rows[i])) is Ok,
        changes(rows) matches Ok(list) ==> {
            &&& list.len() == rows.len()
            &&& forall|i: int|
                0 <= i < rows.len() ==> #[trigger] change(rows[i]) == Ok::<LogRowView, ErrorView>(list[i])
        },
        changes(rows) matches Err(e) ==> exists|k: int|
            {
                &&& 0 <= k < rows.len()
                &&& #[trigger] change(rows[k]) == Err::<LogRowView, ErrorView>(e)
                &&& forall|i: int| 0 <= i < k ==> (#[trigger] change(rows[i])) is Ok
            },
    decreases rows.len(),
{
    if rows.len() > 0 {
        let front = rows.drop_last();
        let last = rows.len() - 1;
        law_lines_are_read_in_order(front);
        assert(forall|i: int| 0 <= i < front.len() ==> #[trigger] front[i] == rows[i]);
        match changes(front) {
            Ok(list) => {
                assert forall|i: int| 0 <= i < front.len() implies #[trigger] change(rows[i]) == Ok::<
                    LogRowView,
                    ErrorView,
                >(list[i]) by {
                    assert(change(front[i]) == Ok::<LogRowView, ErrorView>(list[i]));
                }
                assert(rows[last] == rows.last());
                if let Ok(row) = change(rows.last()) {
                    assert(changes(rows) == Ok::<Seq<LogRowView>, ErrorView>(list.push(row)));
                }
            },
            Err(e) => {
                let k = choose|k: int|
                    {
                        &&& 0 <= k < front.len()
                        &&& #[trigger] change(front[k]) == Err::<LogRowView, ErrorView>(e)
                        &&& forall|i: int| 0 <= i < k ==> (#[trigger] change(front[i])) is Ok
                    };
                assert(change(rows[k]) == Err::<LogRowView, ErrorView>(e));
                assert forall|i: int| 0 <= i < k implies (#[trigger] change(rows[i])) is Ok by {
                    assert(change(front[i]) is Ok);
                }
            },
        }
    }
}

/// A watched table has the columns of the table in the order in which they are listed, and the key
/// column that was asked for, which has to be one of its primary key.
pub proof fn law_watched_tables_are_as_listed(table: Seq<char>, pk_column: Seq<char>, rows: Seq<ColumnView>)
    ensures
        inspected(table, pk_column, rows) is Ok <==> exists|i: int|
            0 <= i < rows.len() && (#[trigger] rows[i]).name == pk_column && rows[i].pk > 0,
        inspected(table, pk_column, rows) matches Ok(w) ==> {
            &&& w.table == table
            &&& w.pk_column == pk_column
            &&& w.columns.len() == rows.len()
            &&& forall|i: int| 0 <= i < rows.len() ==> #[trigger] w.columns[i] == rows[i].name
            &&& w.columns.contains(pk_column)
        },
        inspected(table, pk_column, rows) matches Err(e) ==> if rows.len() == 0 {
            e == ErrorView::EmptyTable { table }
        } else {
            e == ErrorView::MissingPrimaryKey { table, pk_column }
        },
{
    if let Ok(w) = inspected(table, pk_column, rows) {
        let i = choose|i: int| 0 <= i < rows.len() && (#[trigger] rows[i]).name == pk_column && rows[i].pk > 0;
        assert(w.columns[i] == pk_column);
    }
}

/// The names of triggers are words: each character of the name of the table that may stand in a
/// word is kept at its place, and every other is an underscore.
pub proof fn law_trigger_names_are_words(table: Seq<char>)
    ensures
        prefix_text(table).len() == 14 + table.len(),
        text::starts_with(prefix_text(table), "_electrolite__"@),
        forall|i: int|
            0 <= i < table.len() && is_word(#[trigger] table[i]) ==> prefix_text(table)[14 + i] == table[i],
        forall|i: int| 0 <= i < prefix_text(table).len() ==> is_word(#[trigger] prefix_text(table)[i]),
{
    reveal_strlit("_electrolite__");
    let head = "_electrolite__"@;
    assert(prefix_text(table).take(14) =~= head);
    assert forall|i: int| 0 <= i < prefix_text(table).len() implies is_word(#[trigger] prefix_text(table)[i]) by {
        if i < 14 {
            assert(prefix_text(table)[i] == head[i]);
        }
    }
    assert forall|i: int| 0 <= i < table.len() && is_word(#[trigger] table[i]) implies prefix_text(table)[14 + i]
        == table[i] by {}
}

/// A replay ends at the newest of its changes, and stays where it is without any.
pub proof fn law_replays_end_at_their_newest_change(rows: Seq<LogRowView>, offset: i64)
    requires
        forall|i: int, j: int| 0 <= i < j < rows.len() ==> (#[trigger] rows[i]).seq < (#[trigger] rows[j]).seq,
        forall|i: int| 0 <= i < rows.len() ==> (#[trigger] rows[i]).seq > offset,
    ensures
        latest(rows, offset) >= offset,
        forall|i: int| 0 <= i < rows.len() ==> (#[trigger] rows[i]).seq <= latest(rows, offset),
        rows.len() == 0 ==> latest(rows, offset) == offset,
        rows.len() > 0 ==> exists|i: int| 0 <= i < rows.len() && (#[trigger] rows[i]).seq == latest(rows, offset),
{
    if rows.len() > 0 {
        assert(rows[rows.len() - 1].seq == latest(rows, offset));
    }
}

/// The statement that reads the rows of a shape reads its columns from its table, under the condition
/// of its predicate, in the order of the key, and all of them.
pub proof fn law_snapshots_are_read_by_the_shape(shape: ShapeView, pk: Seq<Seq<char>>)
    ensures
        engine::snapshot::snapshot_sql(
            shape.table,
            shape.columns,
            registry::engine_predicate(shape.predicate),
            pk,
        ) == engine::statement::written(
            engine::statement::Select {
                columns: shape.columns,
                table: shape.table,
                condition: engine::condition::compiled(registry::engine_predicate(shape.predicate), 0),
                order: pk,
                limit: None,
            },
        ),
{
    engine::statement::law_snapshot_statement_is_written(
        shape.table,
        shape.columns,
        registry::engine_predicate(shape.predicate),
        pk,
    );
}

/// What may stand in the name of a trigger are the digits, the letters of ASCII and the underscore.
pub proof fn law_words_are_letters_digits_and_underscores(c: char)
    ensures
        is_word(c) <==> "0123456789ABCDEFGHIJKLMNOPQRSTUVWXYZabcdefghijklmnopqrstuvwxyz_"@.contains(c),
{
    reveal_strlit("0123456789ABCDEFGHIJKLMNOPQRSTUVWXYZabcdefghijklmnopqrstuvwxyz_");
    let all = "0123456789ABCDEFGHIJKLMNOPQRSTUVWXYZabcdefghijklmnopqrstuvwxyz_"@;
    if is_word(c) {
        let i = if c <= '9' {
            c as int - 48
        } else if c <= 'Z' {
            c as int - 55
        } else if c == '_' {
            62
        } else {
            c as int - 61
        };
        assert(all[i] == c);
    }
}

} // verus!

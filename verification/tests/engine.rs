//! The engine on a real database: shapes served from snapshots and replays.
use electrolite::engine::compact::{compact_stats, compact_watermark, kept_rows, CompactStats};
use electrolite::engine::error::Error;
use electrolite::engine::log::LogRow;
use electrolite::engine::predicate::{all, and, eq, gt, in_list, lt, Predicate, RangeOp};
use electrolite::engine::replay::{retained_key, retained_offset, Replay};
use electrolite::engine::replaying::{start_replay, step_replay, ReplayAction, ReplayEvent};
use electrolite::engine::request::{self, step, Action, AuthContext, BuildContext, Electrolite, Event, Phase, ShapeDef};
use electrolite::engine::schema;
use electrolite::engine::shape::Shape;
use electrolite::engine::snapshot::{describe, snapshot, snapshot_query, Snapshot};
use electrolite::engine::table::{inspect_table, stored_key_columns, watched_info, ColumnRow, TableInfo};
use electrolite::json::{Json, JsonObject};
use electrolite::number::Number;
use electrolite::sql::SqlValue;
use rusqlite::types::Value;
use rusqlite::{params_from_iter, Connection, OptionalExtension};
use std::cell::Cell;
use std::collections::HashMap;
use std::time::{Duration, Instant};

fn to_json(v: &serde_json::Value) -> Json {
    match v {
        serde_json::Value::Null => Json::Null,
        serde_json::Value::Bool(b) => Json::Bool(*b),
        serde_json::Value::Number(n) => {
            if let Some(u) = n.as_u64() {
                Json::Number(Number::PosInt(u))
            } else if let Some(i) = n.as_i64() {
                Json::Number(Number::NegInt(i))
            } else {
                let x = n.as_f64().unwrap();
                Json::Number(Number::Float { bits: x.to_bits(), text: n.to_string() })
            }
        }
        serde_json::Value::String(s) => Json::Text(s.clone()),
        serde_json::Value::Array(a) => Json::Array(a.iter().map(to_json).collect()),
        serde_json::Value::Object(o) => {
            let mut out = JsonObject::new();
            for (k, v) in o {
                out.insert(k.clone(), to_json(v));
            }
            Json::Object(out)
        }
    }
}

fn j(text: &str) -> Json {
    to_json(&serde_json::from_str::<serde_json::Value>(text).unwrap())
}

fn sqlite(e: rusqlite::Error) -> Error {
    Error::Sqlite(e.to_string())
}

fn bound(v: &SqlValue) -> Value {
    match v {
        SqlValue::Null => Value::Null,
        SqlValue::Integer(n) => Value::Integer(*n),
        SqlValue::Real(bits) => Value::Real(f64::from_bits(*bits)),
        SqlValue::Text(s) => Value::Text(s.clone()),
    }
}

type WhereFn = Box<dyn Fn(&BuildContext) -> Predicate>;
type ScopeFn = Box<dyn Fn(&BuildContext) -> String>;
type AuthFn = Box<dyn Fn(&AuthContext) -> bool>;

struct Callbacks {
    where_fn: Option<WhereFn>,
    scope_fn: Option<ScopeFn>,
    authorize_fn: Option<AuthFn>,
}

struct App {
    db: Connection,
    engine: Electrolite,
    callbacks: HashMap<String, Callbacks>,
}

impl App {
    fn open(path: &str) -> Result<App, Error> {
        let db = Connection::open(path).map_err(sqlite)?;
        db.execute_batch(schema::BOOTSTRAP).map_err(sqlite)?;
        let existing: Option<String> =
            db.query_row(schema::READ_LOG_ID, [], |r| r.get(0)).optional().map_err(sqlite)?;
        if existing.is_none() {
            let random: Vec<u8> =
                db.query_row("SELECT randomblob(16)", [], |r| r.get(0)).map_err(sqlite)?;
            db.execute(schema::STORE_LOG_ID, [schema::random_hex(&random)]).map_err(sqlite)?;
        }
        db.execute(schema::END_BATCH, []).map_err(sqlite)?;
        Ok(App { db, engine: Electrolite::new(), callbacks: HashMap::new() })
    }

    fn add_shape(&mut self, name: &str, def: ShapeDef, callbacks: Callbacks) {
        self.engine.add_shape(name, def);
        self.callbacks.insert(name.to_string(), callbacks);
    }

    fn execute(&self, sql: &str, args: &[Value]) -> Result<usize, Error> {
        self.db.execute(sql, params_from_iter(args.iter())).map_err(sqlite)
    }

    fn execute_batch(&self, sql: &str) -> Result<(), Error> {
        self.db.execute_batch(sql).map_err(sqlite)
    }

    fn columns(&self, table: &str) -> Result<Vec<ColumnRow>, Error> {
        let mut stmt = self.db.prepare(&schema::list_columns(table)).map_err(sqlite)?;
        let rows = stmt
            .query_map([], |r| {
                Ok(ColumnRow { cid: r.get(0)?, name: r.get(1)?, decl: r.get(2)?, pk: r.get(5)? })
            })
            .map_err(sqlite)?
            .collect::<Result<Vec<_>, _>>()
            .map_err(sqlite)?;
        Ok(rows)
    }

    fn install_triggers(&self, table: &str) -> Result<(), Error> {
        let info = inspect_table(table, self.columns(table)?)?;
        let watch = schema::install_triggers(table, &info)?;
        self.db.execute(schema::WATCH_TABLE, [table, watch.pk_columns.as_str()]).map_err(sqlite)?;
        self.db.execute_batch(&watch.script).map_err(sqlite)
    }

    fn write_batch(&self, statements: &[(&str, Vec<Value>)]) -> Result<(), Error> {
        let random: Vec<u8> =
            self.db.query_row("SELECT randomblob(16)", [], |r| r.get(0)).map_err(sqlite)?;
        let tx = self.db.unchecked_transaction().map_err(sqlite)?;
        tx.execute(schema::START_BATCH, [schema::random_hex(&random)]).map_err(sqlite)?;
        for (sql, args) in statements {
            tx.execute(sql, params_from_iter(args.iter())).map_err(sqlite)?;
        }
        tx.execute(schema::END_BATCH, []).map_err(sqlite)?;
        tx.commit().map_err(sqlite)
    }

    fn meta(&self, key: &str) -> Result<Option<String>, Error> {
        self.db.query_row(schema::READ_META, [key], |r| r.get(0)).optional().map_err(sqlite)
    }

    fn compact(&self, table: &str, keep_last: usize) -> Result<CompactStats, Error> {
        let key = retained_key(table);
        let retained = retained_offset(self.meta(&key)?.as_deref());
        let candidate: Option<i64> = self
            .db
            .query_row(schema::NEWEST_TO_DROP, (table, kept_rows(keep_last)), |r| r.get(0))
            .optional()
            .map_err(sqlite)?;
        let watermark = compact_watermark(candidate, retained);
        let deleted = self.db.execute(schema::DROP_CHANGES, (table, watermark)).map_err(sqlite)?;
        self.db.execute(schema::STORE_META, [key, watermark.to_string()]).map_err(sqlite)?;
        Ok(compact_stats(watermark, deleted))
    }

    fn watched(&self, table: &str) -> Result<TableInfo, Error> {
        let info = inspect_table(table, self.columns(table)?)?;
        let stored: Option<String> =
            self.db.query_row(schema::READ_WATCHED, [table], |r| r.get(0)).optional().map_err(sqlite)?;
        let pk = stored.map(|s| stored_key_columns(&s).unwrap());
        watched_info(info, table, pk)
    }

    fn log_id(&self) -> Result<String, Error> {
        self.db.query_row(schema::READ_LOG_ID, [], |r| r.get(0)).map_err(sqlite)
    }

    fn snapshot(&self, shape: &Shape) -> Result<Snapshot, Error> {
        let info = self.watched(&shape.table)?;
        let described = describe(&info, shape)?;
        let query = snapshot_query(&info, shape, &described);
        let mut stmt = self.db.prepare(&query.sql).map_err(sqlite)?;
        let rows = stmt
            .query_map(params_from_iter(query.args.iter().map(bound)), |r| {
                let s: String = r.get(0)?;
                Ok(j(&s))
            })
            .map_err(sqlite)?
            .collect::<Result<Vec<_>, _>>()
            .map_err(sqlite)?;
        let high_water: i64 = self.db.query_row(schema::READ_HIGH_WATER, [], |r| r.get(0)).map_err(sqlite)?;
        let retained = retained_offset(self.meta(&retained_key(&shape.table))?.as_deref());
        Ok(snapshot(info, described, rows, high_water, retained, self.log_id()?))
    }

    fn rows(&self, sql: &str, args: Vec<Value>) -> Result<Vec<LogRow>, rusqlite::Error> {
        let mut stmt = self.db.prepare(sql)?;
        let rows = stmt
            .query_map(params_from_iter(args.iter()), |r| {
                let pk: String = r.get(3)?;
                let old_pk: Option<String> = r.get(4)?;
                let new_pk: Option<String> = r.get(5)?;
                let old_row: Option<String> = r.get(6)?;
                let new_row: Option<String> = r.get(7)?;
                Ok(LogRow {
                    seq: r.get(0)?,
                    batch_id: r.get(1)?,
                    op: r.get(2)?,
                    pk: j(&pk),
                    old_pk: old_pk.map(|s| j(&s)),
                    new_pk: new_pk.map(|s| j(&s)),
                    old_row: old_row.map(|s| j(&s)),
                    new_row: new_row.map(|s| j(&s)),
                })
            })?
            .collect::<Result<Vec<_>, _>>()?;
        Ok(rows)
    }

    fn replay(&self, shape: &Shape, offset: i64, limit: i64) -> Result<Replay, Error> {
        let info = self.watched(&shape.table)?;
        let described = describe(&info, shape)?;
        let (mut phase, mut action) = start_replay(described, &shape.table, offset, limit);
        loop {
            let event = match action {
                ReplayAction::Finish(r) => return r,
                ReplayAction::ReadMeta { key } => ReplayEvent::Stored(self.meta(&key)?),
                ReplayAction::ReadPage { table, offset, limit } => ReplayEvent::Rows(
                    self.rows(
                        schema::READ_PAGE,
                        vec![Value::Text(table), Value::Integer(offset), Value::Integer(limit)],
                    )
                    .map_err(sqlite)?,
                ),
                ReplayAction::ReadBatch { table, after, batch_id, limit } => ReplayEvent::Rows(
                    self.rows(
                        schema::READ_BATCH,
                        vec![
                            Value::Text(table),
                            Value::Integer(after),
                            Value::Text(batch_id),
                            Value::Integer(limit),
                        ],
                    )
                    .map_err(sqlite)?,
                ),
                ReplayAction::HasNewer { table, after } => {
                    let newer: Option<i64> = self
                        .db
                        .query_row(schema::HAS_NEWER, (table, after), |r| r.get(0))
                        .optional()
                        .map_err(sqlite)?;
                    ReplayEvent::Newer(newer.is_some())
                }
                ReplayAction::ReadLogId => ReplayEvent::LogId(self.log_id()?),
            };
            (phase, action) = step_replay(phase, event);
        }
    }

    fn handle(&self, path: &str, query: &str, context: &Json) -> (u16, Json) {
        self.handle_waiting(path, query, context, &|| false)
    }

    fn handle_waiting(
        &self,
        path: &str,
        query: &str,
        context: &Json,
        wait: &dyn Fn() -> bool,
    ) -> (u16, Json) {
        let (mut phase, mut action) = self.engine.begin(path, query);
        loop {
            let event = match (&phase, action) {
                (_, Action::Respond { status, body }) => return (status, body),
                (Phase::Authorizing { request: asked }, Action::Authorize) => {
                    let callbacks = &self.callbacks[&asked.route.name];
                    let build = BuildContext { params: &asked.params, context };
                    let scope = request::audience(callbacks.scope_fn.as_ref().map(|f| f(&build)));
                    let auth = AuthContext { params: &asked.params, context, scope: &scope };
                    request::authorized(callbacks.authorize_fn.as_ref().map(|f| f(&auth)), Some(scope))
                }
                (Phase::Filtering { request: asked, .. }, Action::Filter) => {
                    let callbacks = &self.callbacks[&asked.route.name];
                    let build = BuildContext { params: &asked.params, context };
                    request::filtered(callbacks.where_fn.as_ref().map(|f| f(&build)))
                }
                (_, Action::ReadLogId) => Event::LogId(self.log_id()),
                (Phase::Naming { shape, .. }, Action::Describe) => Event::Handle(
                    self.watched(&shape.table)
                        .and_then(|info| describe(&info, shape))
                        .map(|d| d.shape_handle),
                ),
                (Phase::Reading { shape, .. }, Action::ReadSnapshot) => Event::Snapshot(self.snapshot(shape)),
                (Phase::Reading { route, shape }, Action::ReadReplay) => {
                    Event::Replay(self.replay(shape, route.offset, self.engine.replay_limit))
                }
                (Phase::Rereading { route, shape, .. }, Action::ReadReplay) => {
                    Event::Replay(self.replay(shape, route.offset, self.engine.replay_limit))
                }
                (_, Action::Wait) => Event::Woken { shutdown: wait() },
                _ => unreachable!(),
            };
            (phase, action) = step(phase, event);
        }
    }
}

fn no_callbacks() -> Callbacks {
    Callbacks { where_fn: None, scope_fn: None, authorize_fn: None }
}

fn filtered(f: impl Fn(&BuildContext) -> Predicate + 'static) -> Callbacks {
    Callbacks { where_fn: Some(Box::new(f)), scope_fn: None, authorize_fn: None }
}

fn texts(list: &[&str]) -> Vec<String> {
    list.iter().map(|s| s.to_string()).collect()
}

fn open_app() -> (tempfile::TempDir, App) {
    let tmp = tempfile::tempdir().unwrap();
    let path = tmp.path().join("app.db");
    let app = App::open(path.to_str().unwrap()).unwrap();
    app.execute_batch(
        r#"
        CREATE TABLE todos (
          id INTEGER PRIMARY KEY,
          project_id TEXT NOT NULL,
          title TEXT NOT NULL,
          done INTEGER NOT NULL DEFAULT 0
        );
        INSERT INTO todos (id, project_id, title, done) VALUES
          (1, 'p1', 'ship electrolite', 0),
          (2, 'p2', 'other project', 0),
          (3, 'p1', 'second p1', 0);
        "#,
    )
    .unwrap();
    app.install_triggers("todos").unwrap();
    (tmp, app)
}

fn param(ctx: &BuildContext, name: &str) -> String {
    ctx.params.get(name).unwrap().clone()
}

fn project_todos_app() -> (tempfile::TempDir, App) {
    let (tmp, mut app) = open_app();
    app.add_shape(
        "projectTodos",
        ShapeDef::new("todos", texts(&["id", "project_id", "title", "done"])).params(texts(&["project_id"])),
        Callbacks {
            where_fn: Some(Box::new(|ctx| eq("project_id", Json::Text(param(ctx, "project_id"))))),
            scope_fn: Some(Box::new(|ctx| format!("project:{}", param(ctx, "project_id")))),
            authorize_fn: Some(Box::new(|ctx| match ctx.context.get("projects") {
                Some(Json::Array(arr)) => {
                    arr.iter().any(|p| p.as_text() == Some(ctx.params.get("project_id").unwrap()))
                }
                _ => false,
            })),
        },
    );
    (tmp, app)
}

fn field<'a>(v: &'a Json, key: &str) -> &'a Json {
    v.get(key).unwrap()
}

fn array(v: &Json) -> &Vec<Json> {
    match v {
        Json::Array(a) => a,
        other => panic!("expected an array, got {:?}", other),
    }
}

fn text(v: &Json) -> &str {
    v.as_text().unwrap().as_str()
}

fn number(v: &Json) -> i64 {
    v.as_i64().unwrap()
}

fn ids(body: &Json) -> Vec<i64> {
    array(field(body, "rows")).iter().map(|r| number(field(r, "id"))).collect()
}

fn position(snap: &Json) -> String {
    format!(
        "offset={}&log_id={}&shape_handle={}",
        number(field(snap, "offset")),
        text(field(snap, "log_id")),
        text(field(snap, "shape_handle")),
    )
}

fn s(v: &str) -> Value {
    Value::Text(v.to_string())
}

const INSERT_TODO: &str = "INSERT INTO todos (id, project_id, title, done) VALUES (?, ?, ?, 0)";

#[test]
fn snapshot_returns_matching_rows_ordered_by_key() {
    let (_tmp, app) = project_todos_app();
    let (status, body) =
        app.handle("/electrolite/v1/projectTodos/p1", "offset=-1", &j(r#"{"projects": ["p1"]}"#));
    assert_eq!(status, 200);
    assert_eq!(text(field(&body, "type")), "snapshot");
    assert_eq!(ids(&body), vec![1, 3]);
    assert_eq!(field(&body, "key_columns"), &j(r#"["id"]"#));
    assert_eq!(text(field(&body, "shape_handle")).len(), 64);
}

#[test]
fn eq_predicate_filters_snapshot() {
    let (_tmp, app) = project_todos_app();
    let (status, body) =
        app.handle("/electrolite/v1/projectTodos/p2", "offset=-1", &j(r#"{"projects": ["p2"]}"#));
    assert_eq!(status, 200);
    assert_eq!(ids(&body), vec![2]);
}

#[test]
fn in_predicate_filters_snapshot() {
    let (_tmp, mut app) = open_app();
    app.add_shape(
        "todoSet",
        ShapeDef::new("todos", texts(&["id", "project_id"])),
        filtered(|_| in_list("project_id", vec![j("\"p1\""), j("\"p2\"")])),
    );
    let (status, body) = app.handle("/electrolite/v1/todoSet", "offset=-1", &j("{}"));
    assert_eq!(status, 200);
    assert_eq!(array(field(&body, "rows")).len(), 3);
}

#[test]
fn range_predicate_filters_snapshot() {
    let (_tmp, mut app) = open_app();
    app.add_shape(
        "highIds",
        ShapeDef::new("todos", texts(&["id", "project_id"])),
        filtered(|_| gt("id", Json::integer(1))),
    );
    let (status, body) = app.handle("/electrolite/v1/highIds", "offset=-1", &j("{}"));
    assert_eq!(status, 200);
    assert_eq!(ids(&body), vec![2, 3]);
}

#[test]
fn and_predicate_combines_conditions() {
    let (_tmp, mut app) = open_app();
    app.add_shape(
        "p1HighIds",
        ShapeDef::new("todos", texts(&["id", "project_id"])),
        filtered(|_| and(vec![eq("project_id", j("\"p1\"")), gt("id", Json::integer(1))])),
    );
    let (status, body) = app.handle("/electrolite/v1/p1HighIds", "offset=-1", &j("{}"));
    assert_eq!(status, 200);
    assert_eq!(ids(&body), vec![3]);
}

#[test]
fn replay_emits_insert_update_delete() {
    let (_tmp, app) = project_todos_app();
    let (_, snap) =
        app.handle("/electrolite/v1/projectTodos/p1", "offset=-1", &j(r#"{"projects": ["p1"]}"#));
    app.execute(INSERT_TODO, &[Value::Integer(10), s("p1"), s("new")]).unwrap();
    app.execute("UPDATE todos SET title = ? WHERE id = ?", &[s("renamed"), Value::Integer(10)]).unwrap();
    app.execute("DELETE FROM todos WHERE id = ?", &[Value::Integer(10)]).unwrap();

    let (status, body) =
        app.handle("/electrolite/v1/projectTodos/p1", &position(&snap), &j(r#"{"projects": ["p1"]}"#));
    assert_eq!(status, 200, "got body: {}", body.to_text());
    let kinds: Vec<&str> = array(field(&body, "messages")).iter().map(|m| text(field(m, "type"))).collect();
    assert_eq!(kinds, vec!["insert", "update", "delete"]);
}

#[test]
fn write_batch_shares_batch_id() {
    let (_tmp, app) = project_todos_app();
    let (_, snap) =
        app.handle("/electrolite/v1/projectTodos/p1", "offset=-1", &j(r#"{"projects": ["p1"]}"#));
    app.write_batch(&[
        (INSERT_TODO, vec![Value::Integer(11), s("p1"), s("a")]),
        (INSERT_TODO, vec![Value::Integer(12), s("p1"), s("b")]),
    ])
    .unwrap();
    let (_, body) =
        app.handle("/electrolite/v1/projectTodos/p1", &position(&snap), &j(r#"{"projects": ["p1"]}"#));
    let messages = array(field(&body, "messages"));
    assert_eq!(messages.len(), 2);
    assert_eq!(field(&messages[0], "batch_id"), field(&messages[1], "batch_id"));
}

#[test]
fn replay_extends_past_limit_to_finish_batch() {
    let (_tmp, app) = project_todos_app();
    let shape = Shape::new("todos", texts(&["id", "project_id"]), eq("project_id", j("\"p1\"")));
    let snap = app.snapshot(&shape).unwrap();
    app.write_batch(&[
        (INSERT_TODO, vec![Value::Integer(21), s("p1"), s("a")]),
        (INSERT_TODO, vec![Value::Integer(22), s("p1"), s("b")]),
        (INSERT_TODO, vec![Value::Integer(23), s("p1"), s("c")]),
    ])
    .unwrap();
    let r = app.replay(&shape, snap.offset, 1).unwrap();
    assert_eq!(r.messages.len(), 3);
    assert_eq!(field(&r.messages[0], "batch_id"), field(&r.messages[1], "batch_id"));
    assert_eq!(field(&r.messages[1], "batch_id"), field(&r.messages[2], "batch_id"));
}

#[test]
fn pk_change_replays_as_delete_then_insert() {
    let tmp = tempfile::tempdir().unwrap();
    let path = tmp.path().join("app.db");
    let mut app = App::open(path.to_str().unwrap()).unwrap();
    app.execute_batch(
        r#"
        CREATE TABLE things (thing_id TEXT PRIMARY KEY, owner TEXT NOT NULL);
        INSERT INTO things (thing_id, owner) VALUES ('a', 'alice');
        "#,
    )
    .unwrap();
    app.install_triggers("things").unwrap();
    app.add_shape(
        "thingsByOwner",
        ShapeDef::new("things", texts(&["thing_id", "owner"])).params(texts(&["owner"])),
        filtered(|ctx| eq("owner", Json::Text(param(ctx, "owner")))),
    );

    let (_, snap) = app.handle("/electrolite/v1/thingsByOwner/alice", "offset=-1", &j("{}"));
    app.execute("UPDATE things SET thing_id = ? WHERE thing_id = ?", &[s("b"), s("a")]).unwrap();

    let (_, body) = app.handle("/electrolite/v1/thingsByOwner/alice", &position(&snap), &j("{}"));
    let messages = array(field(&body, "messages"));
    assert_eq!(text(field(&messages[0], "type")), "delete");
    assert_eq!(field(&messages[0], "key"), &j(r#"{"thing_id": "a"}"#));
    assert_eq!(text(field(&messages[1], "type")), "insert");
    assert_eq!(field(&messages[1], "key"), &j(r#"{"thing_id": "b"}"#));
}

#[test]
fn unauthorized_shape_returns_404() {
    let (_tmp, app) = project_todos_app();
    let (status, body) =
        app.handle("/electrolite/v1/projectTodos/p1", "offset=-1", &j(r#"{"projects": ["p2"]}"#));
    assert_eq!(status, 404);
    assert_eq!(body, j(r#"{"error": "shape_not_found"}"#));
}

#[test]
fn log_id_mismatch_returns_409() {
    let (_tmp, app) = project_todos_app();
    let (_, snap) =
        app.handle("/electrolite/v1/projectTodos/p1", "offset=-1", &j(r#"{"projects": ["p1"]}"#));
    let q = format!("offset={}&log_id=00000000000000000000000000000000", number(field(&snap, "offset")));
    let (status, body) =
        app.handle("/electrolite/v1/projectTodos/p1", &q, &j(r#"{"projects": ["p1"]}"#));
    assert_eq!(status, 409);
    assert_eq!(body, j(r#"{"error": "resync_required"}"#));
}

#[test]
fn compact_makes_old_offsets_resync() {
    let (_tmp, app) = project_todos_app();
    let (_, snap) =
        app.handle("/electrolite/v1/projectTodos/p1", "offset=-1", &j(r#"{"projects": ["p1"]}"#));
    app.execute(INSERT_TODO, &[Value::Integer(50), s("p1"), s("x")]).unwrap();
    let stats = app.compact("todos", 0).unwrap();
    assert!(stats.retained_offset >= number(field(&snap, "offset")));

    let (status, body) =
        app.handle("/electrolite/v1/projectTodos/p1", &position(&snap), &j(r#"{"projects": ["p1"]}"#));
    assert_eq!(status, 409);
    assert_eq!(body, j(r#"{"error": "resync_required"}"#));
}

#[test]
fn log_id_missing_on_replay_returns_409() {
    let (_tmp, app) = project_todos_app();
    let (status, body) =
        app.handle("/electrolite/v1/projectTodos/p1", "offset=0", &j(r#"{"projects": ["p1"]}"#));
    assert_eq!(status, 409);
    assert_eq!(body, j(r#"{"error": "resync_required"}"#));
}

#[test]
fn compact_quiet_table_keeps_its_log() {
    let tmp = tempfile::tempdir().unwrap();
    let path = tmp.path().join("app.db");
    let app = App::open(path.to_str().unwrap()).unwrap();
    app.execute_batch(
        r#"
        CREATE TABLE todos (
          id INTEGER PRIMARY KEY,
          title TEXT NOT NULL
        );
        CREATE TABLE events (
          id INTEGER PRIMARY KEY,
          name TEXT NOT NULL
        );
        "#,
    )
    .unwrap();
    app.install_triggers("todos").unwrap();
    app.install_triggers("events").unwrap();

    for i in 1..=3 {
        app.execute(
            "INSERT INTO todos (id, title) VALUES (?, ?)",
            &[Value::Integer(i), Value::Text(format!("todo {i}"))],
        )
        .unwrap();
    }
    for i in 1..=500 {
        app.execute(
            "INSERT INTO events (id, name) VALUES (?, ?)",
            &[Value::Integer(i), Value::Text(format!("ev {i}"))],
        )
        .unwrap();
    }

    let stats = app.compact("todos", 1000).unwrap();
    assert_eq!(stats.deleted_rows, 0, "quiet table log should be untouched");
    assert_eq!(stats.retained_offset, 0, "must not jump to global high-water");

    let remaining = app.compact("todos", 1000).unwrap();
    assert_eq!(remaining.deleted_rows, 0);
    assert_eq!(remaining.retained_offset, 0);
}

#[test]
fn compact_retained_offset_is_monotonic() {
    let tmp = tempfile::tempdir().unwrap();
    let path = tmp.path().join("app.db");
    let app = App::open(path.to_str().unwrap()).unwrap();
    app.execute_batch(
        r#"
        CREATE TABLE todos (id INTEGER PRIMARY KEY, title TEXT NOT NULL);
        "#,
    )
    .unwrap();
    app.install_triggers("todos").unwrap();
    for i in 1..=5 {
        app.execute(
            "INSERT INTO todos (id, title) VALUES (?, ?)",
            &[Value::Integer(i), Value::Text(format!("todo {i}"))],
        )
        .unwrap();
    }

    let high = app.compact("todos", 0).unwrap().retained_offset;
    assert!(high > 0, "retained offset should advance to todos max");

    let later = app.compact("todos", 1000).unwrap();
    assert_eq!(
        later.retained_offset, high,
        "retained offset must not regress below the previous value"
    );
    assert_eq!(later.deleted_rows, 0, "nothing new to delete");
}

#[test]
fn install_triggers_requires_primary_key() {
    let tmp = tempfile::tempdir().unwrap();
    let path = tmp.path().join("app.db");
    let app = App::open(path.to_str().unwrap()).unwrap();
    app.execute_batch("CREATE TABLE no_pk (a INTEGER, b INTEGER);").unwrap();
    let err = app.install_triggers("no_pk").unwrap_err();
    match err {
        Error::Bad(message) => assert_eq!(message, "table no_pk must have a primary key"),
        other => panic!("expected Bad error, got {:?}", other),
    }
}

#[test]
fn composite_primary_keys_exposed_and_used_in_keys() {
    let tmp = tempfile::tempdir().unwrap();
    let path = tmp.path().join("app.db");
    let mut app = App::open(path.to_str().unwrap()).unwrap();
    app.execute_batch(
        r#"
        CREATE TABLE memberships (
          org TEXT NOT NULL,
          user TEXT NOT NULL,
          role TEXT NOT NULL,
          PRIMARY KEY (org, user)
        );
        INSERT INTO memberships (org, user, role) VALUES ('o1', 'u1', 'admin');
        "#,
    )
    .unwrap();
    app.install_triggers("memberships").unwrap();
    app.add_shape(
        "memberships",
        ShapeDef::new("memberships", texts(&["org", "user", "role"])),
        no_callbacks(),
    );

    let (_, snap) = app.handle("/electrolite/v1/memberships", "offset=-1", &j("{}"));
    assert_eq!(field(&snap, "key_columns"), &j(r#"["org", "user"]"#));
    assert_eq!(field(&snap, "rows"), &j(r#"[{"org": "o1", "user": "u1", "role": "admin"}]"#));

    app.execute("DELETE FROM memberships WHERE org = ? AND user = ?", &[s("o1"), s("u1")]).unwrap();
    let (_, body) = app.handle("/electrolite/v1/memberships", &position(&snap), &j("{}"));
    let messages = array(field(&body, "messages"));
    assert_eq!(text(field(&messages[0], "type")), "delete");
    assert_eq!(field(&messages[0], "key"), &j(r#"{"org": "o1", "user": "u1"}"#));
}

#[test]
fn live_wait_wakes_when_write_commits() {
    let tmp = tempfile::tempdir().unwrap();
    let path = tmp.path().join("app.db");
    let mut app = App::open(path.to_str().unwrap()).unwrap();
    app.execute_batch(
        r#"
        CREATE TABLE todos (id INTEGER PRIMARY KEY, project_id TEXT NOT NULL);
        INSERT INTO todos (id, project_id) VALUES (1, 'p1');
        "#,
    )
    .unwrap();
    app.install_triggers("todos").unwrap();
    app.add_shape(
        "projectTodos",
        ShapeDef::new("todos", texts(&["id", "project_id"])).params(texts(&["project_id"])),
        filtered(|ctx| eq("project_id", Json::Text(param(ctx, "project_id")))),
    );

    let (_, snap) = app.handle("/electrolite/v1/projectTodos/p1", "offset=-1", &j("{}"));
    let q = format!(
        "offset={}&live=true&log_id={}&shape_handle={}",
        number(field(&snap, "offset")),
        text(field(&snap, "log_id")),
        text(field(&snap, "shape_handle")),
    );
    let (status, body) = app.handle_waiting("/electrolite/v1/projectTodos/p1", &q, &j("{}"), &|| {
        app.execute("INSERT INTO todos (id, project_id) VALUES (?, ?)", &[Value::Integer(99), s("p1")])
            .unwrap();
        false
    });

    assert_eq!(status, 200);
    let messages = array(field(&body, "messages"));
    assert!(!messages.is_empty());
    assert_eq!(text(field(&messages[0], "type")), "insert");
}

#[test]
fn log_id_is_collision_free_across_rapid_opens() {
    let mut ids = std::collections::HashSet::new();
    for i in 0..1000 {
        let tmp = tempfile::tempdir().unwrap();
        let path = tmp.path().join(format!("app-{i}.db"));
        let app = App::open(path.to_str().unwrap()).unwrap();
        app.execute_batch("CREATE TABLE t (id INTEGER PRIMARY KEY);").unwrap();
        app.install_triggers("t").unwrap();
        let shape = Shape::new("t", texts(&["id"]), all());
        let snap = app.snapshot(&shape).unwrap();
        assert!(
            ids.insert(snap.log_id.clone()),
            "duplicate log_id at iteration {i}: {}",
            snap.log_id
        );
    }
}

#[test]
fn batch_cap_signals_more_to_come() {
    let tmp = tempfile::tempdir().unwrap();
    let path = tmp.path().join("app.db");
    let app = App::open(path.to_str().unwrap()).unwrap();
    app.execute_batch("CREATE TABLE t (id INTEGER PRIMARY KEY, v TEXT NOT NULL);").unwrap();
    app.install_triggers("t").unwrap();

    let stmts: Vec<(&str, Vec<Value>)> = (1..=25)
        .map(|i| {
            (
                "INSERT INTO t (id, v) VALUES (?, ?)",
                vec![Value::Integer(i), Value::Text(format!("row-{i}"))],
            )
        })
        .collect();
    app.write_batch(&stmts).unwrap();

    let shape = Shape::new("t", texts(&["id", "v"]), all());
    let r = app.replay(&shape, 0, 1).unwrap();
    assert_eq!(r.messages.len(), 11);
    assert!(!r.up_to_date);
}

#[test]
fn stale_current_batch_id_cleared_on_bootstrap() {
    let tmp = tempfile::tempdir().unwrap();
    let path = tmp.path().join("app.db");
    {
        let app = App::open(path.to_str().unwrap()).unwrap();
        app.execute_batch("CREATE TABLE t (id INTEGER PRIMARY KEY, v TEXT NOT NULL);").unwrap();
        app.install_triggers("t").unwrap();
        app.execute(
            "INSERT INTO _electrolite_meta (key, value) VALUES ('current_batch_id', 'STALE') \
             ON CONFLICT(key) DO UPDATE SET value = excluded.value",
            &[],
        )
        .unwrap();
    }
    let app = App::open(path.to_str().unwrap()).unwrap();
    app.execute("INSERT INTO t (id, v) VALUES (?, ?)", &[Value::Integer(1), s("hello")]).unwrap();
    let shape = Shape::new("t", texts(&["id", "v"]), all());
    let r = app.replay(&shape, 0, 100).unwrap();
    assert_eq!(r.messages.len(), 1);
    let batch_id = text(field(&r.messages[0], "batch_id"));
    assert_ne!(batch_id, "STALE");
    assert_eq!(batch_id.len(), 32);
}

#[test]
fn shutdown_wakes_live_waiters_with_clean_response() {
    let tmp = tempfile::tempdir().unwrap();
    let path = tmp.path().join("app.db");
    let mut app = App::open(path.to_str().unwrap()).unwrap();
    app.execute_batch("CREATE TABLE t (id INTEGER PRIMARY KEY, v TEXT NOT NULL);").unwrap();
    app.install_triggers("t").unwrap();
    app.add_shape("all", ShapeDef::new("t", texts(&["id", "v"])), no_callbacks());

    let (_, snap) = app.handle("/electrolite/v1/all", "offset=-1", &j("{}"));
    let q = format!(
        "offset={}&live=true&log_id={}&shape_handle={}",
        number(field(&snap, "offset")),
        text(field(&snap, "log_id")),
        text(field(&snap, "shape_handle")),
    );
    let started = Cell::new(None);
    let (status, body) = app.handle_waiting("/electrolite/v1/all", &q, &j("{}"), &|| {
        started.set(Some(Instant::now()));
        true
    });
    let elapsed = started.get().unwrap().elapsed();

    assert_eq!(status, 200);
    assert_eq!(field(&body, "shutdown"), &j("true"));
    assert_eq!(field(&body, "messages"), &j("[]"));
    assert!(elapsed < Duration::from_secs(1), "shutdown should wake within 1s, took {elapsed:?}");
}

#[test]
fn direct_snapshot_replay_still_works() {
    let (_tmp, app) = open_app();
    let shape = Shape::new(
        "todos",
        texts(&["id", "project_id"]),
        Predicate::Range { op: RangeOp::Lt, column: "id".into(), value: Json::integer(3) },
    );
    let snap = app.snapshot(&shape).unwrap();
    assert_eq!(snap.rows.len(), 2);
    let _ = all();
    let _ = lt("id", Json::integer(3));
}

#[test]
fn boolean_predicates_keep_their_handle_through_a_replay() {
    let (_tmp, mut app) = open_app();
    app.execute_batch(
        "CREATE TABLE feature_flags (id INTEGER PRIMARY KEY, enabled BOOLEAN NOT NULL DEFAULT 0);
         INSERT INTO feature_flags (id, enabled) VALUES (1, 1), (2, 0);",
    )
    .unwrap();
    app.install_triggers("feature_flags").unwrap();
    app.add_shape(
        "enabledFlags",
        ShapeDef::new("feature_flags", texts(&["id", "enabled"])),
        filtered(|_| eq("enabled", Json::Bool(true))),
    );
    let (status, snap) = app.handle("/electrolite/v1/enabledFlags", "offset=-1", &j("{}"));
    assert_eq!(status, 200);
    assert_eq!(field(&snap, "rows"), &j(r#"[{"id": 1, "enabled": 1}]"#));

    app.execute("UPDATE feature_flags SET enabled = 1 WHERE id = 2", &[]).unwrap();
    let (status, body) = app.handle("/electrolite/v1/enabledFlags", &position(&snap), &j("{}"));
    assert_eq!(status, 200);
    let messages = array(field(&body, "messages"));
    assert_eq!(messages.len(), 1);
    assert_eq!(text(field(&messages[0], "type")), "insert");
    assert_eq!(field(&messages[0], "value"), &j(r#"{"id": 2, "enabled": 1}"#));
    assert_eq!(field(&messages[0], "offset"), field(&body, "offset"));
    assert_eq!(field(&body, "up_to_date"), &j("true"));
}

#[test]
fn bad_predicates_are_bad_requests() {
    let (_tmp, mut app) = open_app();
    app.add_shape(
        "bogusGt",
        ShapeDef::new("todos", texts(&["id"])),
        filtered(|_| gt("id", Json::Null)),
    );
    app.add_shape(
        "noColumn",
        ShapeDef::new("todos", texts(&["id"])),
        filtered(|_| eq("nope", Json::integer(1))),
    );
    app.add_shape(
        "badBool",
        ShapeDef::new("todos", texts(&["id"])),
        filtered(|_| eq("done", Json::Bool(true))),
    );
    app.add_shape("unwatched", ShapeDef::new("nowhere", texts(&["id"])), no_callbacks());
    let (status, body) = app.handle("/electrolite/v1/bogusGt", "offset=-1", &j("{}"));
    assert_eq!(status, 400);
    assert_eq!(
        body,
        j(r#"{"error": "bad_request", "detail": "range predicate gt requires a non-null value"}"#)
    );
    let (status, body) = app.handle("/electrolite/v1/noColumn", "offset=-1", &j("{}"));
    assert_eq!(status, 400);
    assert_eq!(body, j(r#"{"error": "bad_request", "detail": "predicate column nope does not exist"}"#));
    let (status, body) = app.handle("/electrolite/v1/badBool", "offset=-1", &j("{}"));
    assert_eq!(status, 400);
    assert_eq!(
        body,
        j(r#"{"error": "bad_request", "detail": "boolean predicates require BOOLEAN columns"}"#)
    );
    let (status, body) = app.handle("/electrolite/v1/unwatched", "offset=-1", &j("{}"));
    assert_eq!(status, 500);
    assert_eq!(body, j(r#"{"error": "internal"}"#));
}

#[test]
fn changed_handles_resync() {
    let (_tmp, app) = project_todos_app();
    let context = j(r#"{"projects": ["p1"]}"#);
    let (_, snap) = app.handle("/electrolite/v1/projectTodos/p1", "offset=-1", &context);
    let q = format!(
        "offset={}&log_id={}&shape_handle={}",
        number(field(&snap, "offset")),
        text(field(&snap, "log_id")),
        "0".repeat(64),
    );
    let (status, body) = app.handle("/electrolite/v1/projectTodos/p1", &q, &context);
    assert_eq!(status, 409);
    assert_eq!(body, j(r#"{"error": "resync_required"}"#));
}

#[test]
fn unknown_names_and_missing_parameters_are_not_found() {
    let (_tmp, app) = project_todos_app();
    let context = j(r#"{"projects": ["p1"]}"#);
    let missing = j(r#"{"error": "shape_not_found"}"#);
    for path in [
        "/electrolite/v1/nope",
        "/electrolite/v1/",
        "/electrolite/v1",
        "/elsewhere/projectTodos/p1",
        "/electrolite/v1/projectTodos",
    ] {
        let (status, body) = app.handle(path, "offset=-1", &context);
        assert_eq!(status, 404, "{path}");
        assert_eq!(body, missing, "{path}");
    }
}

#[test]
fn replayed_messages_keep_a_copy_up_to_date() {
    let (_tmp, app) = open_app();
    let shape = Shape::new(
        "todos",
        texts(&["id", "project_id", "title", "done"]),
        and(vec![eq("project_id", j("\"p1\"")), eq("done", Json::integer(0))]),
    );
    let snap = app.snapshot(&shape).unwrap();
    let mut copy: HashMap<String, String> = HashMap::new();
    for row in &snap.rows {
        let mut key = JsonObject::new();
        key.insert("id".to_string(), field(row, "id").clone());
        copy.insert(Json::Object(key).to_text(), row.to_text());
    }
    app.write_batch(&[
        ("UPDATE todos SET project_id = 'p1' WHERE id = 2", vec![]),
        ("UPDATE todos SET done = 1 WHERE id = 1", vec![]),
        ("UPDATE todos SET id = 30 WHERE id = 3", vec![]),
    ])
    .unwrap();
    app.execute("UPDATE todos SET title = 'again' WHERE id = 30", &[]).unwrap();
    app.execute(INSERT_TODO, &[Value::Integer(4), s("p9"), s("hidden")]).unwrap();
    app.execute("DELETE FROM todos WHERE id = 4", &[]).unwrap();

    let mut offset = snap.offset;
    loop {
        let r = app.replay(&shape, offset, 2).unwrap();
        assert_eq!(r.shape_handle, snap.shape_handle);
        assert_eq!(r.log_id, snap.log_id);
        for m in &r.messages {
            let key = field(m, "key").to_text();
            match m.get("value") {
                Some(v) => copy.insert(key, v.to_text()),
                None => copy.remove(&key),
            };
        }
        assert!(r.offset > offset || r.up_to_date);
        offset = r.offset;
        if r.up_to_date {
            break;
        }
    }
    let now = app.snapshot(&shape).unwrap();
    let mut want: Vec<String> = now.rows.iter().map(|r| r.to_text()).collect();
    let mut have: Vec<String> = copy.values().cloned().collect();
    want.sort();
    have.sort();
    assert_eq!(have, want);
    assert_eq!(have.len(), 2);
}

#[test]
fn snapshot_conditions_select_what_predicates_select() {
    let (_tmp, app) = open_app();
    app.execute_batch(
        "CREATE TABLE mixed (id INTEGER PRIMARY KEY, a INTEGER, b TEXT);
         INSERT INTO mixed (id, a, b) VALUES (1, 1, 'x'), (2, NULL, 'y'), (3, 3, NULL), (4, 4, 'it''s');",
    )
    .unwrap();
    app.install_triggers("mixed").unwrap();
    let columns = texts(&["id", "a", "b"]);
    let every = app.snapshot(&Shape::new("mixed", texts(&["id", "a", "b"]), all())).unwrap();
    let predicates = vec![
        eq("a", Json::Null),
        eq("b", j("\"it's\"")),
        in_list("a", vec![Json::Null, Json::integer(3)]),
        in_list("a", vec![Json::Null]),
        in_list("a", vec![]),
        gt("a", Json::integer(1)),
        lt("b", j("\"y\"")),
        and(vec![]),
        and(vec![all(), gt("a", Json::integer(0)), in_list("b", vec![j("\"x\""), Json::Null])]),
    ];
    for p in predicates {
        let want: Vec<String> = every
            .rows
            .iter()
            .filter(|r| electrolite::engine::predicate::predicate_matches_row(&p, r))
            .map(|r| r.to_text())
            .collect();
        let shape = Shape::new("mixed", columns.clone(), p);
        let have: Vec<String> = app.snapshot(&shape).unwrap().rows.iter().map(|r| r.to_text()).collect();
        assert_eq!(have, want, "{:?}", shape.predicate);
    }
}

#[test]
fn compaction_keeps_the_newest_changes() {
    let (_tmp, app) = open_app();
    for i in 10..15 {
        app.execute(INSERT_TODO, &[Value::Integer(i), s("p1"), s("x")]).unwrap();
    }
    let shape = Shape::new("todos", texts(&["id"]), all());
    let before = app.replay(&shape, 0, 100).unwrap();
    assert_eq!(before.messages.len(), 5);
    let stats = app.compact("todos", 2).unwrap();
    assert_eq!(stats.deleted_rows, 3);
    let after = app.replay(&shape, stats.retained_offset, 100).unwrap();
    assert_eq!(after.messages.len(), 2);
    assert_eq!(after.messages[0], before.messages[3]);
    assert_eq!(after.messages[1], before.messages[4]);
    assert_eq!(after.offset, before.offset);
    assert!(matches!(app.replay(&shape, stats.retained_offset - 1, 100), Err(Error::ResyncRequired)));
}

#[test]
fn internal_errors_look_alike() {
    for e in [Error::Sqlite("disk".to_string()), Error::Bad("table".to_string())] {
        match electrolite::engine::request::refuse(&e) {
            (Phase::Done, Action::Respond { status, body }) => {
                assert_eq!(status, 500);
                assert_eq!(body, j(r#"{"error": "internal"}"#));
            }
            _ => panic!("no answer"),
        }
    }
}

#[test]
fn failed_reads_end_a_replay() {
    let (_tmp, app) = open_app();
    let shape = Shape::new("todos", texts(&["id"]), all());
    let described = describe(&app.watched("todos").unwrap(), &shape).unwrap();
    let (phase, action) = start_replay(described, "todos", 0, 10);
    assert!(matches!(action, ReplayAction::ReadMeta { ref key } if key == "retained_offset:todos"));
    let (phase, action) = step_replay(phase, ReplayEvent::Failed("disk".to_string()));
    match action {
        ReplayAction::Finish(Err(Error::Sqlite(message))) => assert_eq!(message, "disk"),
        other => panic!("{:?}", other),
    }
    let (_, action) = step_replay(phase, ReplayEvent::Newer(true));
    assert!(matches!(action, ReplayAction::Finish(Err(Error::Bad(_)))));
}

#[test]
fn replays_send_the_columns_of_the_shape() {
    let (_tmp, mut app) = open_app();
    let shape = Shape::new("todos", texts(&["id", "title"]), eq("project_id", j("\"p1\"")));
    let snap = app.snapshot(&shape).unwrap();
    assert_eq!(snap.rows[0], j(r#"{"id": 1, "title": "ship electrolite"}"#));
    app.execute(INSERT_TODO, &[Value::Integer(4), s("p1"), s("new")]).unwrap();
    app.execute("UPDATE todos SET title = 'renamed', done = 1 WHERE id = 1", &[]).unwrap();
    app.execute("UPDATE todos SET project_id = 'p1' WHERE id = 2", &[]).unwrap();
    app.execute("UPDATE todos SET project_id = 'p2' WHERE id = 3", &[]).unwrap();
    let r = app.replay(&shape, snap.offset, 100).unwrap();
    let got: Vec<(String, Json, Option<Json>)> = r
        .messages
        .iter()
        .map(|m| (text(field(m, "type")).to_string(), field(m, "key").clone(), m.get("value").cloned()))
        .collect();
    let want = vec![
        ("insert".to_string(), j(r#"{"id": 4}"#), Some(j(r#"{"id": 4, "title": "new"}"#))),
        ("update".to_string(), j(r#"{"id": 1}"#), Some(j(r#"{"id": 1, "title": "renamed"}"#))),
        ("insert".to_string(), j(r#"{"id": 2}"#), Some(j(r#"{"id": 2, "title": "other project"}"#))),
        ("delete".to_string(), j(r#"{"id": 3}"#), None),
    ];
    assert_eq!(got, want);

    app.add_shape("titles", ShapeDef::new("todos", texts(&["title"])), no_callbacks());
    let (status, body) = app.handle("/electrolite/v1/titles", "offset=-1", &j("{}"));
    assert_eq!(status, 200);
    app.execute(INSERT_TODO, &[Value::Integer(5), s("p3"), s("last")]).unwrap();
    let (status, body) = app.handle("/electrolite/v1/titles", &position(&body), &j("{}"));
    assert_eq!(status, 200);
    let messages = array(field(&body, "messages"));
    assert_eq!(messages.len(), 1);
    assert_eq!(field(&messages[0], "value"), &j(r#"{"title": "last"}"#));
    assert_eq!(field(&messages[0], "key"), &j(r#"{"id": 5}"#));
}

#[test]
fn snapshots_lead_to_replays_after_a_compaction() {
    let (_tmp, mut app) = open_app();
    app.add_shape("todos", ShapeDef::new("todos", texts(&["id"])), no_callbacks());
    for i in 10..13 {
        app.execute(INSERT_TODO, &[Value::Integer(i), s("p1"), s("x")]).unwrap();
    }
    let stats = app.compact("todos", 0).unwrap();
    assert_eq!(stats.deleted_rows, 3);
    let (status, snap) = app.handle("/electrolite/v1/todos", "offset=-1", &j("{}"));
    assert_eq!(status, 200);
    assert_eq!(number(field(&snap, "offset")), stats.retained_offset);
    let (status, body) = app.handle("/electrolite/v1/todos", &position(&snap), &j("{}"));
    assert_eq!(status, 200);
    assert_eq!(field(&body, "shape_handle"), field(&snap, "shape_handle"));
    assert_eq!(array(field(&body, "messages")).len(), 0);
    app.execute(INSERT_TODO, &[Value::Integer(13), s("p1"), s("x")]).unwrap();
    let (status, body) = app.handle("/electrolite/v1/todos", &position(&snap), &j("{}"));
    assert_eq!(status, 200);
    assert_eq!(array(field(&body, "messages")).len(), 1);
}

#[test]
fn missing_columns_are_bad_requests_without_values_too() {
    let (_tmp, mut app) = open_app();
    app.add_shape(
        "none",
        ShapeDef::new("todos", texts(&["id"])),
        filtered(|_| in_list("nope", vec![])),
    );
    let (status, body) = app.handle("/electrolite/v1/none", "offset=-1", &j("{}"));
    assert_eq!(status, 400);
    assert_eq!(body, j(r#"{"error": "bad_request", "detail": "predicate column nope does not exist"}"#));
}

#[test]
fn tables_with_odd_names_are_watched() {
    let (_tmp, app) = open_app();
    app.execute_batch("CREATE TABLE \"odd \"\" one\" (\"a?\" INTEGER PRIMARY KEY, b TEXT);").unwrap();
    app.install_triggers("odd \" one").unwrap();
    app.execute("INSERT INTO \"odd \"\" one\" VALUES (1, 'x'), (2, 'y')", &[]).unwrap();
    let shape = Shape::new("odd \" one", texts(&["a?"]), and(vec![eq("a?", j("1")), eq("b", j("\"x\""))]));
    let snap = app.snapshot(&shape).unwrap();
    assert_eq!(snap.rows, vec![j(r#"{"a?": 1}"#)]);
    let r = app.replay(&shape, 0, 10).unwrap();
    assert_eq!(r.messages.len(), 1);
    assert_eq!(field(&r.messages[0], "value"), &j(r#"{"a?": 1}"#));
}

#[test]
fn handles_are_compared_where_the_table_is_not_watched() {
    let (_tmp, mut app) = open_app();
    app.add_shape("unwatched", ShapeDef::new("nowhere", texts(&["id"])), no_callbacks());
    let log_id = app.log_id().unwrap();
    let wrong = format!("offset=0&log_id={log_id}&shape_handle={}", "0".repeat(64));
    let (status, body) = app.handle("/electrolite/v1/unwatched", &wrong, &j("{}"));
    assert_eq!(status, 409);
    assert_eq!(body, j(r#"{"error": "resync_required"}"#));

    let shape = Shape::new("nowhere", texts(&["id"]), all());
    let handle = electrolite::engine::shape::handle(&electrolite::engine::shape::normalize_shape(&shape));
    let right = format!("offset=0&log_id={log_id}&shape_handle={handle}");
    let (status, body) = app.handle("/electrolite/v1/unwatched", &right, &j("{}"));
    assert_eq!(status, 500);
    assert_eq!(body, j(r#"{"error": "internal"}"#));

    app.add_shape("bogus", ShapeDef::new("todos", texts(&["id"])), filtered(|_| gt("id", Json::Null)));
    let (status, _) = app.handle("/electrolite/v1/bogus", &wrong, &j("{}"));
    assert_eq!(status, 400);
}

#[test]
fn missing_callbacks_let_everybody_read_every_row() {
    assert!(matches!(
        request::authorized(None, None),
        Event::Authorized { allowed: true, scope } if scope.is_empty()
    ));
    assert!(matches!(
        request::authorized(Some(false), Some("me".to_string())),
        Event::Authorized { allowed: false, scope } if scope == "me"
    ));
    assert!(matches!(request::authorized(Some(true), None), Event::Authorized { allowed: true, .. }));
    assert_eq!(request::audience(Some("me".to_string())), "me");
    assert!(matches!(request::filtered(None), Event::Filtered(Predicate::All)));
    assert!(matches!(request::filtered(Some(gt("id", Json::integer(1)))), Event::Filtered(Predicate::Range { .. })));
}

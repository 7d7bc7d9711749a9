//! The HTTP server's decisions, on a real database.
use electrolite::engine::compact::{compact_watermark, kept_rows};
use electrolite::engine::replay::{retained_key, retained_offset};
use electrolite::engine::schema::{
    list_columns, DROP_CHANGES, NEWEST_TO_DROP, READ_HIGH_WATER, READ_META, STORE_META,
};
use electrolite::engine::table::{self, ColumnRow};
use electrolite::json::{Json, JsonObject};
use electrolite::number::Number;
use electrolite::registry::{Predicate, Replay, Shape, ShapeMessage, ShapeRegistry, Snapshot};
use electrolite::server::{
    check_position, deadline, get_shape, live_replay, AllowAll, AuthContext, AuthDecision, Authorizer,
    ErrorBody, LiveStep, Plan, ServerError, ServerState, ShapeQuery, ShapeResponse,
};
use electrolite::sql::SqlValue;
use electrolite::sqlite::{
    initial_snapshot, inspect_table, install_triggers, read_log_since, replay, snapshot, RawLogRow, BOOTSTRAP,
    READ_LOG,
};
use rusqlite::types::Value;
use rusqlite::{params_from_iter, Connection, OptionalExtension};
use std::collections::BTreeMap;
use std::sync::{Arc, Mutex};

fn to_json(v: &serde_json::Value) -> Json {
    match v {
        serde_json::Value::Null => Json::Null,
        serde_json::Value::Bool(b) => Json::Bool(*b),
        serde_json::Value::Number(n) => match (n.as_u64(), n.as_i64()) {
            (Some(u), _) => Json::Number(Number::PosInt(u)),
            (_, Some(i)) => Json::Number(Number::NegInt(i)),
            _ => Json::Number(Number::Float { bits: n.as_f64().unwrap().to_bits(), text: n.to_string() }),
        },
        serde_json::Value::String(s) => Json::Text(s.clone()),
        serde_json::Value::Array(a) => Json::Array(a.iter().map(to_json).collect()),
        serde_json::Value::Object(o) => {
            let mut out = JsonObject::new();
            for (k, v) in o {
                out.insert(k.clone(), to_json(v));
            }
            Json::Object(out)
        }
    }
}

fn parse(text: &str) -> Result<Json, String> {
    serde_json::from_str::<serde_json::Value>(text).map(|v| to_json(&v)).map_err(|e| e.to_string())
}

fn j(text: &str) -> Json {
    parse(text).unwrap()
}

fn columns(conn: &Connection, table: &str) -> Vec<ColumnRow> {
    let mut stmt = conn.prepare(&list_columns(table)).unwrap();
    let rows = stmt
        .query_map([], |r| Ok(ColumnRow { cid: r.get(0)?, name: r.get(1)?, decl: r.get(2)?, pk: r.get(5)? }))
        .unwrap();
    rows.map(|r| r.unwrap()).collect()
}

fn watch(conn: &Connection, table: &str, pk_column: &str) {
    conn.execute_batch(BOOTSTRAP).unwrap();
    let watched = inspect_table(table, pk_column, &columns(conn, table)).unwrap();
    conn.execute_batch(&install_triggers(&watched)).unwrap();
}

fn bound(v: &SqlValue) -> Value {
    match v {
        SqlValue::Null => Value::Null,
        SqlValue::Integer(n) => Value::Integer(*n),
        SqlValue::Real(bits) => Value::Real(f64::from_bits(*bits)),
        SqlValue::Text(s) => Value::Text(s.clone()),
    }
}

fn read_snapshot(conn: &Connection, shape: &Shape) -> Snapshot {
    let info = table::inspect_table(&shape.table, columns(conn, &shape.table)).unwrap();
    let query = initial_snapshot(shape, &info.pk);
    let mut stmt = conn.prepare(&query.sql).unwrap();
    let rows = stmt
        .query_map(params_from_iter(query.args.iter().map(bound)), |r| {
            let s: String = r.get(0)?;
            Ok(j(&s))
        })
        .unwrap();
    let rows: Vec<Json> = rows.map(|r| r.unwrap()).collect();
    let high_water: i64 = conn.query_row(READ_HIGH_WATER, [], |r| r.get(0)).unwrap();
    snapshot(rows, high_water, retained(conn, &shape.table))
}

fn retained(conn: &Connection, table: &str) -> i64 {
    let stored: Option<String> =
        conn.query_row(READ_META, [retained_key(table)], |r| r.get(0)).optional().unwrap();
    retained_offset(stored.as_deref())
}

fn compact(conn: &Connection, table: &str, keep_last: usize) -> i64 {
    let newest: Option<i64> =
        conn.query_row(NEWEST_TO_DROP, (table, kept_rows(keep_last)), |r| r.get(0)).optional().unwrap();
    let watermark = compact_watermark(newest, retained(conn, table));
    conn.execute(DROP_CHANGES, (table, watermark)).unwrap();
    conn.execute(STORE_META, [retained_key(table), watermark.to_string()]).unwrap();
    watermark
}

fn read_replay(conn: &Connection, shape: &Shape, offset: i64, limit: i64) -> Replay {
    let mut stmt = conn.prepare(READ_LOG).unwrap();
    let rows = stmt
        .query_map([offset, limit], |r| {
            let pk: String = r.get(3)?;
            let old_pk: Option<String> = r.get(4)?;
            let new_pk: Option<String> = r.get(5)?;
            let old: Option<String> = r.get(6)?;
            let new: Option<String> = r.get(7)?;
            Ok(RawLogRow {
                seq: r.get(0)?,
                table_name: r.get(1)?,
                op: r.get(2)?,
                pk_json: parse(&pk),
                old_pk_json: old_pk.map(|s| parse(&s)),
                new_pk_json: new_pk.map(|s| parse(&s)),
                old_json: old.map(|s| parse(&s)),
                new_json: new.map(|s| parse(&s)),
                created_at: r.get(8)?,
            })
        })
        .unwrap();
    let rows = read_log_since(rows.map(|r| r.map_err(|e| e.to_string())).collect()).unwrap();
    replay(shape, offset, &rows)
}

#[derive(Debug, PartialEq)]
enum Answer {
    Data(ShapeResponse),
    NoContent,
    Error(u16, ErrorBody),
}

impl Answer {
    fn status(&self) -> u16 {
        match self {
            Answer::Data(_) => 200,
            Answer::NoContent => 204,
            Answer::Error(status, _) => *status,
        }
    }
}

fn failed(e: ServerError) -> Answer {
    let (status, body) = e.into_parts();
    Answer::Error(status, body)
}

/// One request. The clock stands still but for waits, each of which may change the database.
fn request<A: Authorizer>(
    state: &ServerState<A>,
    headers: &http::HeaderMap,
    extensions: &http::Extensions,
    name: &str,
    query: ShapeQuery,
    wait: &mut dyn FnMut(),
) -> Answer {
    let (shape, plan) = match get_shape(state, headers, extensions, name, &query) {
        Ok(found) => found,
        Err(e) => return failed(e),
    };
    let conn = match Connection::open(&state.db_path) {
        Ok(conn) => conn,
        Err(_) => return failed(ServerError::Sqlite),
    };
    match plan {
        Plan::Snapshot => Answer::Data(ShapeResponse::from(read_snapshot(&conn, &shape))),
        Plan::Replay => {
            if let Err(e) = check_position(query.offset, retained(&conn, &shape.table)) {
                return failed(e);
            }
            Answer::Data(ShapeResponse::from(read_replay(&conn, &shape, query.offset, state.replay_limit)))
        }
        Plan::Live => {
            let mut now = 1_000;
            let end = deadline(now, state.live_timeout);
            loop {
                if let Err(e) = check_position(query.offset, retained(&conn, &shape.table)) {
                    return failed(e);
                }
                let r = read_replay(&conn, &shape, query.offset, state.replay_limit);
                match live_replay(&r, query.offset, now, end, state.poll_interval) {
                    LiveStep::Respond => return Answer::Data(ShapeResponse::from(r)),
                    LiveStep::NoContent => return Answer::NoContent,
                    LiveStep::Wait { until } => {
                        assert!(until <= end);
                        now = until;
                        wait();
                    }
                }
            }
        }
    }
}

fn plain<A: Authorizer>(state: &ServerState<A>, name: &str, offset: i64, live: bool) -> Answer {
    request(
        state,
        &http::HeaderMap::new(),
        &http::Extensions::new(),
        name,
        ShapeQuery { offset, live },
        &mut || {},
    )
}

#[derive(Debug, Clone)]
struct Session {
    scope: String,
}

#[derive(Debug, Clone, PartialEq, Eq)]
struct RecordedAuth {
    shape_name: String,
    auth_scope: String,
    header_scope: Option<String>,
    session_scope: Option<String>,
    offset: i64,
    live: bool,
}

#[derive(Debug)]
struct DenyAll;

impl Authorizer for DenyAll {
    fn authorize(&self, _context: &AuthContext<'_>) -> AuthDecision {
        AuthDecision::Deny
    }
}

#[derive(Debug)]
struct ScopeAuthorizer {
    seen: Arc<Mutex<Vec<RecordedAuth>>>,
}

impl Authorizer for ScopeAuthorizer {
    fn authorize(&self, context: &AuthContext<'_>) -> AuthDecision {
        let header_scope = context
            .headers
            .get("x-electrolite-scope")
            .and_then(|value| value.to_str().ok())
            .map(str::to_string);
        let session_scope = context.extensions.get::<Session>().map(|session| session.scope.clone());
        self.seen.lock().unwrap().push(RecordedAuth {
            shape_name: context.shape_name.to_string(),
            auth_scope: context.shape.auth_scope.clone(),
            header_scope: header_scope.clone(),
            session_scope: session_scope.clone(),
            offset: context.offset,
            live: context.live,
        });

        if header_scope.as_deref() == Some(context.shape.auth_scope.as_str())
            && session_scope.as_deref() == Some(context.shape.auth_scope.as_str())
        {
            AuthDecision::Allow
        } else {
            AuthDecision::Deny
        }
    }
}

#[derive(Debug)]
struct HeaderScopeAuthorizer;

impl Authorizer for HeaderScopeAuthorizer {
    fn authorize(&self, context: &AuthContext<'_>) -> AuthDecision {
        if context.headers.get("x-electrolite-scope").and_then(|value| value.to_str().ok())
            == Some(context.shape.auth_scope.as_str())
        {
            AuthDecision::Allow
        } else {
            AuthDecision::Deny
        }
    }
}

fn active_users_shape() -> Shape {
    Shape {
        name: "activeUsers".to_string(),
        table: "users".to_string(),
        columns: vec!["id".to_string(), "name".to_string(), "active".to_string()],
        predicate: Predicate::Eq { column: "active".to_string(), value: Json::integer(1) },
        auth_scope: "public".to_string(),
        schema_version: 1,
    }
}

fn active_users() -> ShapeRegistry {
    let mut registry = ShapeRegistry::new();
    registry.add(active_users_shape());
    registry
}

const USERS: &str = "
    CREATE TABLE users (
      id INTEGER PRIMARY KEY,
      name TEXT NOT NULL,
      active INTEGER NOT NULL DEFAULT 0
    );
    ";

fn setup() -> (tempfile::TempDir, String, ServerState<AllowAll>) {
    let dir = tempfile::tempdir().unwrap();
    let path = dir.path().join("app.db").to_str().unwrap().to_string();
    let conn = Connection::open(&path).unwrap();
    conn.execute_batch(USERS).unwrap();
    watch(&conn, "users", "id");
    conn.execute("INSERT INTO users (id, name, active) VALUES (1, 'Ada', 1)", []).unwrap();
    conn.execute("INSERT INTO users (id, name, active) VALUES (2, 'Grace', 0)", []).unwrap();
    let state = ServerState::new(&path, active_users(), AllowAll).with_live_timeout(500).with_poll_interval(25);
    (dir, path, state)
}

fn grace() -> ShapeResponse {
    ShapeResponse::Replay {
        messages: vec![ShapeMessage::Insert {
            key: j(r#"{"id": 2}"#),
            value: j(r#"{"id": 2, "name": "Grace", "active": 1}"#),
            offset: 3,
        }],
        offset: 3,
    }
}

fn ada() -> ShapeResponse {
    ShapeResponse::Snapshot { rows: vec![j(r#"{"id": 1, "name": "Ada", "active": 1}"#)], offset: 2 }
}

#[test]
fn serves_initial_snapshot() {
    let (_dir, _path, state) = setup();
    assert_eq!(plain(&state, "activeUsers", -1, false), Answer::Data(ada()));
}

#[test]
fn serves_replay_after_offset() {
    let (_dir, path, state) = setup();
    let conn = Connection::open(path).unwrap();
    conn.execute("UPDATE users SET active=1 WHERE id=2", []).unwrap();
    assert_eq!(plain(&state, "activeUsers", 2, false), Answer::Data(grace()));
}

#[test]
fn missing_shape_returns_404() {
    let (_dir, _path, state) = setup();
    assert_eq!(plain(&state, "nope", -1, false).status(), 404);
}

#[test]
fn denied_shape_returns_404_before_opening_sqlite() {
    let state = ServerState::new("/missing/app.db", active_users(), DenyAll);
    assert_eq!(
        plain(&state, "activeUsers", -1, false),
        Answer::Error(404, ErrorBody { error: "shape_not_found".to_string() })
    );
}

#[test]
fn internal_errors_use_stable_public_body() {
    let state = ServerState::new("/missing/private/app.db", active_users(), AllowAll);
    assert_eq!(
        plain(&state, "activeUsers", -1, false),
        Answer::Error(500, ErrorBody { error: "internal_server_error".to_string() })
    );
}

#[test]
fn authorizer_receives_headers_extensions_shape_and_query() {
    let seen = Arc::new(Mutex::new(Vec::new()));
    let authorizer = ScopeAuthorizer { seen: seen.clone() };
    let dir = tempfile::tempdir().unwrap();
    let path = dir.path().join("app.db").to_str().unwrap().to_string();
    let conn = Connection::open(&path).unwrap();
    conn.execute_batch(USERS).unwrap();
    watch(&conn, "users", "id");
    let state =
        ServerState::new(&path, active_users(), authorizer).with_live_timeout(1).with_poll_interval(1);
    let mut headers = http::HeaderMap::new();
    headers.insert("x-electrolite-scope", http::HeaderValue::from_static("public"));
    let mut extensions = http::Extensions::new();
    extensions.insert(Session { scope: "public".to_string() });

    let answer = request(
        &state,
        &headers,
        &extensions,
        "activeUsers",
        ShapeQuery { offset: 7, live: true },
        &mut || {},
    );
    assert_eq!(answer.status(), 204);
    assert_eq!(
        *seen.lock().unwrap(),
        vec![RecordedAuth {
            shape_name: "activeUsers".to_string(),
            auth_scope: "public".to_string(),
            header_scope: Some("public".to_string()),
            session_scope: Some("public".to_string()),
            offset: 7,
            live: true,
        }]
    );
}

#[test]
fn authorizer_denies_when_scope_does_not_match() {
    let seen = Arc::new(Mutex::new(Vec::new()));
    let state = ServerState::new("/missing/app.db", active_users(), ScopeAuthorizer { seen });
    let mut headers = http::HeaderMap::new();
    headers.insert("x-electrolite-scope", http::HeaderValue::from_static("private"));
    let mut extensions = http::Extensions::new();
    extensions.insert(Session { scope: "public".to_string() });
    let answer = request(
        &state,
        &headers,
        &extensions,
        "activeUsers",
        ShapeQuery { offset: -1, live: false },
        &mut || {},
    );
    assert_eq!(answer.status(), 404);
}

#[test]
fn live_request_waits_until_shape_changes() {
    let (_dir, path, state) = setup();
    let mut waits = 0;
    let answer = request(
        &state,
        &http::HeaderMap::new(),
        &http::Extensions::new(),
        "activeUsers",
        ShapeQuery { offset: 2, live: true },
        &mut || {
            waits += 1;
            if waits == 2 {
                let conn = Connection::open(&path).unwrap();
                conn.execute("UPDATE users SET active=1 WHERE id=2", []).unwrap();
            }
        },
    );
    assert_eq!(answer, Answer::Data(grace()));
    assert_eq!(waits, 2);
}

#[test]
fn live_request_times_out_with_no_content() {
    let (_dir, _path, state) = setup();
    let mut waits = 0;
    let answer = request(
        &state,
        &http::HeaderMap::new(),
        &http::Extensions::new(),
        "activeUsers",
        ShapeQuery { offset: 2, live: true },
        &mut || waits += 1,
    );
    assert_eq!(answer, Answer::NoContent);
    assert_eq!(waits, 20);
}

#[test]
fn electric_like_http_scenario_from_backend_to_client() {
    let (_dir, path, state) = setup();
    assert_eq!(plain(&state, "activeUsers", -1, false), Answer::Data(ada()));
    let answer = request(
        &state,
        &http::HeaderMap::new(),
        &http::Extensions::new(),
        "activeUsers",
        ShapeQuery { offset: 2, live: true },
        &mut || {
            let conn = Connection::open(&path).unwrap();
            conn.execute("UPDATE users SET active=1 WHERE id=2", []).unwrap();
        },
    );
    assert_eq!(answer, Answer::Data(grace()));
}

#[derive(Debug)]
struct MaterializedShape {
    key_columns: Vec<String>,
    offset: i64,
    rows: BTreeMap<String, String>,
}

impl MaterializedShape {
    fn new(key_columns: &[&str]) -> Self {
        Self {
            key_columns: key_columns.iter().map(|column| column.to_string()).collect(),
            offset: -1,
            rows: BTreeMap::new(),
        }
    }

    fn apply(&mut self, answer: Answer) {
        match answer {
            Answer::Data(ShapeResponse::Snapshot { rows, offset }) => {
                self.rows.clear();
                for row in rows {
                    let mut key = JsonObject::new();
                    for column in &self.key_columns {
                        key.insert(column.clone(), row.get(column).unwrap().clone());
                    }
                    self.rows.insert(Json::Object(key).to_text(), row.to_text());
                }
                self.offset = offset;
            }
            Answer::Data(ShapeResponse::Replay { messages, offset }) => {
                for message in messages {
                    match message {
                        ShapeMessage::Insert { key, value, .. } | ShapeMessage::Update { key, value, .. } => {
                            self.rows.insert(key.to_text(), value.to_text());
                        }
                        ShapeMessage::Delete { key, .. } => {
                            self.rows.remove(&key.to_text());
                        }
                    }
                }
                self.offset = offset;
            }
            other => panic!("no data: {:?}", other),
        }
    }

    fn values(&self) -> Vec<Json> {
        self.rows.values().map(|v| j(v)).collect()
    }
}

#[test]
fn e2e_user_flow_materializes_authorized_live_shape() {
    let dir = tempfile::tempdir().unwrap();
    let path = dir.path().join("app.db").to_str().unwrap().to_string();
    let conn = Connection::open(&path).unwrap();
    conn.execute_batch(
        "
        CREATE TABLE todos (
          id INTEGER PRIMARY KEY,
          project_id TEXT NOT NULL,
          title TEXT NOT NULL,
          done INTEGER NOT NULL DEFAULT 0
        );
        INSERT INTO todos (id, project_id, title, done) VALUES
          (1, 'p1', 'ship electrolite', 0),
          (2, 'p2', 'other project', 0),
          (3, 'p1', 'hidden done item', 1);
        ",
    )
    .unwrap();
    watch(&conn, "todos", "id");

    let shape = Shape {
        name: "openProjectTodos".to_string(),
        table: "todos".to_string(),
        columns: vec![
            "id".to_string(),
            "project_id".to_string(),
            "title".to_string(),
            "done".to_string(),
        ],
        predicate: Predicate::And {
            predicates: vec![
                Predicate::Eq { column: "project_id".to_string(), value: j("\"p1\"") },
                Predicate::Eq { column: "done".to_string(), value: Json::integer(0) },
            ],
        },
        auth_scope: "project:p1".to_string(),
        schema_version: 1,
    };
    let mut registry = ShapeRegistry::new();
    registry.add(shape);
    let state = ServerState::new(&path, registry, HeaderScopeAuthorizer)
        .with_live_timeout(2_000)
        .with_poll_interval(10);
    let ask = |scope: &'static str, offset: i64, live: bool, sql: &str| {
        let mut headers = http::HeaderMap::new();
        headers.insert("x-electrolite-scope", http::HeaderValue::from_static(scope));
        let mut written = false;
        request(
            &state,
            &headers,
            &http::Extensions::new(),
            "openProjectTodos",
            ShapeQuery { offset, live },
            &mut || {
                if !written {
                    conn.execute(sql, []).unwrap();
                    written = true;
                }
            },
        )
    };

    assert_eq!(ask("project:p2", -1, false, "").status(), 404);

    let mut materialized = MaterializedShape::new(&["id"]);
    materialized.apply(ask("project:p1", -1, false, ""));
    let ship = r#"{"id": 1, "project_id": "p1", "title": "ship electrolite", "done": 0}"#;
    assert_eq!(materialized.values(), vec![j(ship)]);

    materialized.apply(ask("project:p1", materialized.offset, true, "UPDATE todos SET done=0 WHERE id=3"));
    assert_eq!(
        materialized.values(),
        vec![
            j(ship),
            j(r#"{"id": 3, "project_id": "p1", "title": "hidden done item", "done": 0}"#),
        ]
    );

    materialized.apply(ask(
        "project:p1",
        materialized.offset,
        true,
        "UPDATE todos SET title='visible now' WHERE id=3",
    ));
    assert_eq!(
        materialized.values(),
        vec![j(ship), j(r#"{"id": 3, "project_id": "p1", "title": "visible now", "done": 0}"#)]
    );

    materialized.apply(ask("project:p1", materialized.offset, true, "UPDATE todos SET done=1 WHERE id=3"));
    assert_eq!(materialized.values(), vec![j(ship)]);

    materialized.apply(ask("project:p1", materialized.offset, true, "DELETE FROM todos WHERE id=1"));
    assert_eq!(materialized.values(), Vec::<Json>::new());

    materialized.apply(ask(
        "project:p1",
        materialized.offset,
        true,
        "INSERT INTO todos (id, project_id, title, done) VALUES (4, 'p1', 'new visible', 0)",
    ));
    assert_eq!(
        materialized.values(),
        vec![j(r#"{"id": 4, "project_id": "p1", "title": "new visible", "done": 0}"#)]
    );

    materialized.apply(ask("project:p1", materialized.offset, true, "UPDATE todos SET id=40 WHERE id=4"));
    assert_eq!(
        materialized.values(),
        vec![j(r#"{"id": 40, "project_id": "p1", "title": "new visible", "done": 0}"#)]
    );
}

#[test]
fn states_keep_their_limits() {
    let state = ServerState::new("app.db", ShapeRegistry::new(), AllowAll);
    assert_eq!(state.replay_limit, 1000);
    assert_eq!(state.live_timeout, 20_000);
    assert_eq!(state.poll_interval, 250);
    assert_eq!(electrolite::server::DEFAULT_ROUTE_PREFIX, "/electrolite/v1");
    let state = state.with_replay_limit(0);
    assert_eq!(state.replay_limit, 1);
    assert_eq!(ServerError::from(electrolite::sqlite::Error::Json("x".to_string())), ServerError::Electrolite);
}

#[test]
fn gone_positions_resync() {
    let (_dir, path, state) = setup();
    let conn = Connection::open(path).unwrap();
    conn.execute("UPDATE users SET active=1 WHERE id=2", []).unwrap();
    let gone = Answer::Error(409, ErrorBody { error: "resync_required".to_string() });
    assert_eq!(compact(&conn, "users", 1), 2);
    assert_eq!(plain(&state, "activeUsers", 1, false), gone);
    assert_eq!(plain(&state, "activeUsers", 1, true), gone);
    assert_eq!(plain(&state, "activeUsers", 2, false), Answer::Data(grace()));

    assert_eq!(compact(&conn, "users", 0), 3);
    assert_eq!(plain(&state, "activeUsers", 2, false), gone);
    let rows = vec![
        j(r#"{"id": 1, "name": "Ada", "active": 1}"#),
        j(r#"{"id": 2, "name": "Grace", "active": 1}"#),
    ];
    let fresh = ShapeResponse::Snapshot { rows, offset: 3 };
    assert_eq!(plain(&state, "activeUsers", -1, false), Answer::Data(fresh));
    assert_eq!(
        plain(&state, "activeUsers", 3, false),
        Answer::Data(ShapeResponse::Replay { messages: vec![], offset: 3 })
    );
    assert_eq!(check_position(3, 3), Ok(()));
    assert_eq!(check_position(2, 3), Err(ServerError::ResyncRequired));
}

//! The change log on a real database.
use electrolite::engine::schema::list_columns;
use electrolite::engine::table::ColumnRow;
use electrolite::json::{Json, JsonObject};
use electrolite::number::Number;
use electrolite::registry::{LogOp, LogRow};
use electrolite::sqlite::{
    inspect_table, install_triggers, read_log_since, row_json_expr, trigger_prefix, Error, RawLogRow,
    WatchedTable, BOOTSTRAP, READ_LOG,
};
use rusqlite::Connection;

fn to_json(v: &serde_json::Value) -> Json {
    match v {
        serde_json::Value::Null => Json::Null,
        serde_json::Value::Bool(b) => Json::Bool(*b),
        serde_json::Value::Number(n) => match (n.as_u64(), n.as_i64()) {
            (Some(u), _) => Json::Number(Number::PosInt(u)),
            (_, Some(i)) => Json::Number(Number::NegInt(i)),
            _ => Json::Number(Number::Float { bits: n.as_f64().unwrap().to_bits(), text: n.to_string() }),
        },
        serde_json::Value::String(s) => Json::Text(s.clone()),
        serde_json::Value::Array(a) => Json::Array(a.iter().map(to_json).collect()),
        serde_json::Value::Object(o) => {
            let mut out = JsonObject::new();
            for (k, v) in o {
                out.insert(k.clone(), to_json(v));
            }
            Json::Object(out)
        }
    }
}

fn parse(text: &str) -> Result<Json, String> {
    serde_json::from_str::<serde_json::Value>(text).map(|v| to_json(&v)).map_err(|e| e.to_string())
}

fn j(text: &str) -> Json {
    parse(text).unwrap()
}

fn columns(conn: &Connection, table: &str) -> Vec<ColumnRow> {
    let mut stmt = conn.prepare(&list_columns(table)).unwrap();
    let rows = stmt
        .query_map([], |r| Ok(ColumnRow { cid: r.get(0)?, name: r.get(1)?, decl: r.get(2)?, pk: r.get(5)? }))
        .unwrap();
    rows.map(|r| r.unwrap()).collect()
}

fn watch(conn: &Connection, table: &str, pk_column: &str) -> Result<WatchedTable, Error> {
    conn.execute_batch(BOOTSTRAP).unwrap();
    let watched = inspect_table(table, pk_column, &columns(conn, table))?;
    conn.execute_batch(&install_triggers(&watched)).unwrap();
    Ok(watched)
}

fn read(conn: &Connection, offset: i64, limit: i64) -> Result<Vec<LogRow>, Error> {
    let mut stmt = conn.prepare(READ_LOG).unwrap();
    let rows = stmt
        .query_map([offset, limit], |r| {
            let pk: String = r.get(3)?;
            let old_pk: Option<String> = r.get(4)?;
            let new_pk: Option<String> = r.get(5)?;
            let old: Option<String> = r.get(6)?;
            let new: Option<String> = r.get(7)?;
            Ok(RawLogRow {
                seq: r.get(0)?,
                table_name: r.get(1)?,
                op: r.get(2)?,
                pk_json: parse(&pk),
                old_pk_json: old_pk.map(|s| parse(&s)),
                new_pk_json: new_pk.map(|s| parse(&s)),
                old_json: old.map(|s| parse(&s)),
                new_json: new.map(|s| parse(&s)),
                created_at: r.get(8)?,
            })
        })
        .unwrap();
    read_log_since(rows.map(|r| r.map_err(|e| e.to_string())).collect())
}

fn setup(conn: &Connection) {
    conn.execute_batch(
        "
        CREATE TABLE users (
          id INTEGER PRIMARY KEY,
          name TEXT NOT NULL,
          active INTEGER NOT NULL DEFAULT 0
        );
        ",
    )
    .unwrap();
    watch(conn, "users", "id").unwrap();
}

#[test]
fn triggers_log_insert_update_delete() {
    let conn = Connection::open_in_memory().unwrap();
    setup(&conn);

    conn.execute("INSERT INTO users (id, name, active) VALUES (1, 'Ada', 1)", []).unwrap();
    conn.execute("UPDATE users SET name='Ada Lovelace' WHERE id=1", []).unwrap();
    conn.execute("DELETE FROM users WHERE id=1", []).unwrap();

    let rows = read(&conn, 0, 10).unwrap();
    assert_eq!(rows.len(), 3);
    assert_eq!(rows[0].op, LogOp::Insert);
    assert_eq!(rows[0].pk_json, j(r#"{"id": 1}"#));
    assert_eq!(rows[0].new_json, Some(j(r#"{"id": 1, "name": "Ada", "active": 1}"#)));

    assert_eq!(rows[1].op, LogOp::Update);
    assert_eq!(rows[1].old_json, Some(j(r#"{"id": 1, "name": "Ada", "active": 1}"#)));
    assert_eq!(rows[1].new_json, Some(j(r#"{"id": 1, "name": "Ada Lovelace", "active": 1}"#)));

    assert_eq!(rows[2].op, LogOp::Delete);
    assert_eq!(rows[2].old_json, Some(j(r#"{"id": 1, "name": "Ada Lovelace", "active": 1}"#)));
    assert_eq!(rows[2].new_json, None);
    assert_eq!(rows[2].old_pk_json, Some(j(r#"{"id": 1}"#)));
    assert_eq!(rows[2].new_pk_json, None);
}

#[test]
fn rollback_writes_no_log_rows() {
    let mut conn = Connection::open_in_memory().unwrap();
    setup(&conn);

    let tx = conn.transaction().unwrap();
    tx.execute("INSERT INTO users (id, name, active) VALUES (1, 'Ada', 1)", []).unwrap();
    tx.rollback().unwrap();

    let rows = read(&conn, 0, 10).unwrap();
    assert!(rows.is_empty());
}

#[test]
fn triggers_work_across_connections() {
    let dir = tempfile::tempdir().unwrap();
    let path = dir.path().join("app.db");
    let conn1 = Connection::open(&path).unwrap();
    setup(&conn1);

    let conn2 = Connection::open(&path).unwrap();
    conn2.execute("INSERT INTO users (id, name, active) VALUES (1, 'Ada', 1)", []).unwrap();

    let rows = read(&conn1, 0, 10).unwrap();
    assert_eq!(rows.len(), 1);
    assert_eq!(rows[0].new_json, Some(j(r#"{"id": 1, "name": "Ada", "active": 1}"#)));
}

#[test]
fn tables_without_the_key_column_are_refused() {
    let conn = Connection::open_in_memory().unwrap();
    setup(&conn);
    match watch(&conn, "users", "name") {
        Err(Error::MissingPrimaryKey { table, pk_column }) => {
            assert_eq!(table, "users");
            assert_eq!(pk_column, "name");
        }
        other => panic!("got {:?}", other),
    }
    match watch(&conn, "nowhere", "id") {
        Err(Error::EmptyTable { table }) => assert_eq!(table, "nowhere"),
        other => panic!("got {:?}", other),
    }
    let watched = watch(&conn, "users", "id").unwrap();
    assert_eq!(watched.columns, vec!["id".to_string(), "name".to_string(), "active".to_string()]);
}

#[test]
fn odd_names_are_quoted() {
    let conn = Connection::open_in_memory().unwrap();
    conn.execute_batch("CREATE TABLE \"it's \"\"odd\"\"\" (\"k\"\"'\" INTEGER PRIMARY KEY);").unwrap();
    watch(&conn, "it's \"odd\"", "k\"'").unwrap();
    conn.execute("INSERT INTO \"it's \"\"odd\"\"\" VALUES (3)", []).unwrap();
    let rows = read(&conn, 0, 10).unwrap();
    assert_eq!(rows[0].table_name, "it's \"odd\"");
    assert_eq!(rows[0].new_json, Some(j(r#"{"k\"'": 3}"#)));
    assert_eq!(trigger_prefix("it's \"odd\""), "_electrolite__it_s__odd_");
    assert_eq!(
        row_json_expr("NEW", &vec!["a".to_string(), "b'\"".to_string()]),
        "json_object('a', NEW.\"a\", 'b''\"', NEW.\"b'\"\"\")"
    );
}

#[test]
fn broken_log_rows_are_errors() {
    let conn = Connection::open_in_memory().unwrap();
    setup(&conn);
    conn.execute(
        "INSERT INTO _electrolite_log (table_name, op, pk_json) VALUES ('users', 'replace', '{}')",
        [],
    )
    .unwrap();
    match read(&conn, 0, 10) {
        Err(Error::InvalidLogOp(op)) => assert_eq!(op, "replace"),
        other => panic!("got {:?}", other),
    }
    conn.execute("DELETE FROM _electrolite_log", []).unwrap();
    conn.execute(
        "INSERT INTO _electrolite_log (table_name, op, pk_json) VALUES ('users', 'insert', '{')",
        [],
    )
    .unwrap();
    assert!(matches!(read(&conn, 0, 10), Err(Error::Json(_))));
    assert!(matches!(read_log_since(vec![Err("disk".to_string())]), Err(Error::Sqlite(_))));
}

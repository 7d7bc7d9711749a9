//! Shapes by name, membership, and handles.
use electrolite::engine;
use electrolite::json::{Json, JsonObject};
use electrolite::number::Number;
use electrolite::registry::{
    message_for_log, messages_for_log, LogOp, LogRow, Predicate, Shape, ShapeMessage, ShapeRegistry,
};

fn to_json(v: &serde_json::Value) -> Json {
    match v {
        serde_json::Value::Null => Json::Null,
        serde_json::Value::Bool(b) => Json::Bool(*b),
        serde_json::Value::Number(n) => match (n.as_u64(), n.as_i64()) {
            (Some(u), _) => Json::Number(Number::PosInt(u)),
            (_, Some(i)) => Json::Number(Number::NegInt(i)),
            _ => Json::Number(Number::Float { bits: n.as_f64().unwrap().to_bits(), text: n.to_string() }),
        },
        serde_json::Value::String(s) => Json::Text(s.clone()),
        serde_json::Value::Array(a) => Json::Array(a.iter().map(to_json).collect()),
        serde_json::Value::Object(o) => {
            let mut out = JsonObject::new();
            for (k, v) in o {
                out.insert(k.clone(), to_json(v));
            }
            Json::Object(out)
        }
    }
}

fn j(text: &str) -> Json {
    to_json(&serde_json::from_str::<serde_json::Value>(text).unwrap())
}

fn shape() -> Shape {
    Shape {
        name: "activeUsers".to_string(),
        table: "users".to_string(),
        columns: vec!["id".to_string(), "name".to_string(), "active".to_string()],
        predicate: Predicate::Eq { column: "active".to_string(), value: Json::integer(1) },
        auth_scope: "public".to_string(),
        schema_version: 1,
    }
}

#[test]
fn handles_are_stable() {
    assert_eq!(shape().handle(), shape().handle());
}

#[test]
fn registry_stores_shapes_by_name() {
    let shape = shape();
    let mut registry = ShapeRegistry::new();
    assert!(!registry.contains("activeUsers"));

    assert_eq!(registry.add(shape.clone()), None);

    assert!(registry.contains("activeUsers"));
    assert_eq!(registry.get("activeUsers"), Some(&shape));
}

#[test]
fn registry_returns_the_shape_it_replaces() {
    let mut registry = ShapeRegistry::default();
    registry.add(shape());
    let mut other = shape();
    other.table = "people".to_string();
    assert_eq!(registry.add(other.clone()), Some(shape()));
    assert_eq!(registry.get("activeUsers"), Some(&other));
    assert_eq!(registry.get("nobody"), None);
}

#[test]
fn membership_transition_emits_insert_update_delete() {
    let shape = shape();

    let inserted = LogRow {
        seq: 1,
        table_name: "users".to_string(),
        op: LogOp::Insert,
        pk_json: j(r#"{"id": 7}"#),
        old_pk_json: None,
        new_pk_json: Some(j(r#"{"id": 7}"#)),
        old_json: None,
        new_json: Some(j(r#"{"id": 7, "name": "Ada", "active": 1}"#)),
        created_at: 0,
    };
    assert!(matches!(message_for_log(&shape, &inserted), Some(ShapeMessage::Insert { .. })));

    let updated = LogRow {
        seq: 2,
        table_name: "users".to_string(),
        op: LogOp::Update,
        pk_json: j(r#"{"id": 7}"#),
        old_pk_json: Some(j(r#"{"id": 7}"#)),
        new_pk_json: Some(j(r#"{"id": 7}"#)),
        old_json: Some(j(r#"{"id": 7, "name": "Ada", "active": 1}"#)),
        new_json: Some(j(r#"{"id": 7, "name": "Ada Lovelace", "active": 1}"#)),
        created_at: 0,
    };
    assert!(matches!(message_for_log(&shape, &updated), Some(ShapeMessage::Update { .. })));

    let removed = LogRow {
        seq: 3,
        table_name: "users".to_string(),
        op: LogOp::Update,
        pk_json: j(r#"{"id": 7}"#),
        old_pk_json: Some(j(r#"{"id": 7}"#)),
        new_pk_json: Some(j(r#"{"id": 7}"#)),
        old_json: Some(j(r#"{"id": 7, "name": "Ada", "active": 1}"#)),
        new_json: Some(j(r#"{"id": 7, "name": "Ada", "active": 0}"#)),
        created_at: 0,
    };
    assert!(matches!(message_for_log(&shape, &removed), Some(ShapeMessage::Delete { .. })));
}

#[test]
fn primary_key_change_in_shape_expands_to_delete_insert() {
    let shape = shape();
    let row = LogRow {
        seq: 4,
        table_name: "users".to_string(),
        op: LogOp::Update,
        pk_json: j(r#"{"id": 8}"#),
        old_pk_json: Some(j(r#"{"id": 7}"#)),
        new_pk_json: Some(j(r#"{"id": 8}"#)),
        old_json: Some(j(r#"{"id": 7, "name": "Ada", "active": 1}"#)),
        new_json: Some(j(r#"{"id": 8, "name": "Ada", "active": 1}"#)),
        created_at: 0,
    };

    assert_eq!(
        messages_for_log(&shape, &row),
        vec![
            ShapeMessage::Delete { key: j(r#"{"id": 7}"#), offset: 4 },
            ShapeMessage::Insert {
                key: j(r#"{"id": 8}"#),
                value: j(r#"{"id": 8, "name": "Ada", "active": 1}"#),
                offset: 4,
            },
        ]
    );
}

#[test]
fn changes_of_other_tables_and_hidden_rows_send_nothing() {
    let shape = shape();
    let mut row = LogRow {
        seq: 5,
        table_name: "others".to_string(),
        op: LogOp::Insert,
        pk_json: j(r#"{"id": 1}"#),
        old_pk_json: None,
        new_pk_json: None,
        old_json: None,
        new_json: Some(j(r#"{"id": 1, "active": 1}"#)),
        created_at: 0,
    };
    assert_eq!(messages_for_log(&shape, &row), vec![]);
    row.table_name = "users".to_string();
    assert_eq!(
        message_for_log(&shape, &row),
        Some(ShapeMessage::Insert {
            key: j(r#"{"id": 1}"#),
            value: j(r#"{"id": 1, "active": 1}"#),
            offset: 5,
        })
    );
    row.new_json = Some(j(r#"{"id": 1, "active": 0}"#));
    assert_eq!(message_for_log(&shape, &row), None);
}

#[test]
fn only_objects_match() {
    let p = Predicate::And { predicates: vec![Predicate::All] };
    assert!(p.matches(Some(&j("{}"))));
    assert!(!p.matches(Some(&j("[]"))));
    assert!(!p.matches(None));
}

#[test]
fn handle_is_the_digest_of_the_canonical_text() {
    let body = r#"{"auth_scope":"public","columns":["active","id","name"],"predicate":{"column":"active","type":"eq","value":1},"schema_version":1,"table":"users"}"#;
    let digest = <sha2::Sha256 as sha2::Digest>::digest(body.as_bytes());
    let mut want = String::new();
    for b in digest.iter() {
        want.push_str(&format!("{b:02x}"));
    }
    assert_eq!(shape().handle(), want);
}

#[test]
fn handle_is_that_of_the_engine_and_ignores_name_and_order() {
    let mut renamed = shape();
    renamed.name = "others".to_string();
    renamed.columns = vec!["name".to_string(), "active".to_string(), "id".to_string()];
    assert_eq!(renamed.handle(), shape().handle());

    let mut same = engine::shape::Shape::new(
        "users",
        vec!["id".to_string(), "name".to_string(), "active".to_string()],
        engine::predicate::eq("active", Json::integer(1)),
    );
    same.auth_scope = "public".to_string();
    let handle = engine::shape::handle(&engine::shape::normalize_shape(&same));
    assert_eq!(shape().handle(), handle);

    let mut other = shape();
    other.auth_scope = "private".to_string();
    assert_ne!(other.handle(), shape().handle());
}

#[test]
fn messages_carry_the_columns_of_the_shape() {
    let mut shape = shape();
    shape.columns = vec!["name".to_string(), "id".to_string()];
    let row = LogRow {
        seq: 9,
        table_name: "users".to_string(),
        op: LogOp::Update,
        pk_json: j(r#"{"id": 1}"#),
        old_pk_json: None,
        new_pk_json: None,
        old_json: Some(j(r#"{"id": 1, "name": "Ada", "active": 1, "secret": "a"}"#)),
        new_json: Some(j(r#"{"id": 1, "name": "Eve", "active": 1, "secret": "b"}"#)),
        created_at: 0,
    };
    assert_eq!(
        messages_for_log(&shape, &row),
        vec![ShapeMessage::Update {
            key: j(r#"{"id": 1}"#),
            value: j(r#"{"id": 1, "name": "Eve"}"#),
            offset: 9,
        }]
    );
}

#[test]
fn handles_tell_shapes_apart() {
    let mut table = shape();
    table.table = "others".to_string();
    let mut version = shape();
    version.schema_version = 2;
    let mut columns = shape();
    columns.columns.pop();
    let mut predicate = shape();
    predicate.predicate = Predicate::All;
    for other in [table, version, columns, predicate] {
        assert_ne!(other.handle(), shape().handle());
        assert_eq!(other.handle().len(), 64);
    }
    let part = |n: i64| Predicate::Eq { column: "id".to_string(), value: Json::integer(n) };
    let (mut a, mut b) = (shape(), shape());
    a.predicate = Predicate::And {
        predicates: vec![part(1), Predicate::And { predicates: vec![part(2), part(3)] }],
    };
    b.predicate = Predicate::And {
        predicates: vec![Predicate::And { predicates: vec![part(3), part(2)] }, part(1)],
    };
    assert_eq!(a.handle(), b.handle());
}

//! Values: text, numbers, JSON, SQL, hashes, routes and streams.
use electrolite::engine::compact::{compact_watermark, kept_rows};
use electrolite::engine::compile::compile_predicate;
use electrolite::engine::parse::predicate_from_json;
use electrolite::engine::predicate::{
    all, and, compare_json, eq, gt, gte, in_list, lt, lte, predicate_matches, predicate_matches_row, RangeOp,
};
use electrolite::engine::replay::{batch_cap, begin_replay, page_limit, retained_key, retained_offset};
use electrolite::engine::request::{Action, Electrolite, ShapeDef};
use electrolite::engine::route::{bind_params, parse_query, parse_route, url_decode};
use electrolite::engine::schema::{list_columns, random_hex};
use electrolite::engine::shape::{handle, normalize_shape, predicate_to_json, Shape};
use electrolite::engine::snapshot::snapshot_offset;
use electrolite::engine::stream::{advance, open_stream, sse_frame};
use electrolite::engine::table::{
    coerce_value, inspect_table, is_booleanish, key_columns_text, mentions_bool, normalize_predicate,
    stored_key_columns, watched_info, ColumnRow, TableInfo,
};
use electrolite::json::{Json, JsonObject};
use electrolite::native::{json_params, json_to_sql_value, stats_to_json, watched_to_json};
use electrolite::number::Number;
use electrolite::sha256::{sha256_hex, to_hex};
use electrolite::sql::{json_to_value, quote_ident, quote_string, row_json, SqlValue};
use electrolite::text::{decimal_i64, parse_i64};

fn to_json(v: &serde_json::Value) -> Json {
    match v {
        serde_json::Value::Null => Json::Null,
        serde_json::Value::Bool(b) => Json::Bool(*b),
        serde_json::Value::Number(n) => match (n.as_u64(), n.as_i64()) {
            (Some(u), _) => Json::Number(Number::PosInt(u)),
            (_, Some(i)) => Json::Number(Number::NegInt(i)),
            _ => Json::Number(Number::Float { bits: n.as_f64().unwrap().to_bits(), text: n.to_string() }),
        },
        serde_json::Value::String(s) => Json::Text(s.clone()),
        serde_json::Value::Array(a) => Json::Array(a.iter().map(to_json).collect()),
        serde_json::Value::Object(o) => {
            let mut out = JsonObject::new();
            for (k, v) in o {
                out.insert(k.clone(), to_json(v));
            }
            Json::Object(out)
        }
    }
}

fn j(text: &str) -> Json {
    to_json(&serde_json::from_str::<serde_json::Value>(text).unwrap())
}

fn texts(list: &[&str]) -> Vec<String> {
    list.iter().map(|s| s.to_string()).collect()
}

fn column(cid: i64, name: &str, decl: &str, pk: i64) -> ColumnRow {
    ColumnRow { cid, name: name.to_string(), decl: decl.to_string(), pk }
}

fn flags() -> TableInfo {
    inspect_table(
        "flags",
        vec![
            column(2, "enabled", "boolean", 0),
            column(0, "org", "TEXT", 2),
            column(1, "id", "INTEGER", 1),
            column(3, "note", "", 0),
        ],
    )
    .unwrap()
}

fn query_values(path: &str) -> Vec<Option<String>> {
    let q = parse_query(path);
    ["offset", "log_id", "live", "x"].iter().map(|k| q.get(k).cloned()).collect()
}

#[test]
fn decimal_texts_read_back() {
    for n in [0, 1, -1, 9, 10, 1234567890, i64::MAX, i64::MIN] {
        assert_eq!(decimal_i64(n), n.to_string());
        assert_eq!(parse_i64(&decimal_i64(n)), Some(n));
    }
    for s in ["", "-", "+", "1x", " 1", "9223372036854775808", "+7", "-0", "007"] {
        assert_eq!(parse_i64(s), s.parse::<i64>().ok(), "{s}");
    }
}

#[test]
fn json_texts_are_those_of_the_parser() {
    for s in [
        "null",
        "true",
        "[1,-2,3.5,\"a\\\"b\\\\c\\n\\u0001\u{e9}\u{1f600}\"]",
        "{\"b\":[],\"a\":{\"z\":1e300,\"y\":-0.0}}",
        "18446744073709551615",
        "\"\\b\\f\\r\\t/\u{7f}\"",
    ] {
        let v: serde_json::Value = serde_json::from_str(s).unwrap();
        assert_eq!(to_json(&v).to_text(), serde_json::to_string(&v).unwrap());
        assert_eq!(to_json(&v), to_json(&v).clone());
    }
    assert_eq!(j("{\"a\":1,\"b\":2}"), j("{\"b\":2,\"a\":1}"));
    assert_ne!(j("1"), j("1.0"));
    assert_eq!(j("0.0"), j("-0.0"));
    assert_ne!(j("[1]"), j("[1,2]"));
}

#[test]
fn numbers_compare_as_doubles_do() {
    let list = [
        "0", "-0.0", "1", "-1", "1.5", "-1.5", "9007199254740993", "9007199254740992", "9007199254740992.0",
        "18446744073709551615", "-9223372036854775808", "1e300", "-1e300", "5e-324",
    ];
    for a in list {
        for b in list {
            let (x, y): (serde_json::Value, serde_json::Value) =
                (serde_json::from_str(a).unwrap(), serde_json::from_str(b).unwrap());
            let (p, q) = (x.as_f64().unwrap(), y.as_f64().unwrap());
            assert_eq!(compare_json(&j(a), &j(b), &RangeOp::Lt), p < q, "{a} < {b}");
            assert_eq!(compare_json(&j(a), &j(b), &RangeOp::Lte), p <= q, "{a} <= {b}");
            assert_eq!(compare_json(&j(a), &j(b), &RangeOp::Gt), p > q, "{a} > {b}");
            assert_eq!(compare_json(&j(a), &j(b), &RangeOp::Gte), p >= q, "{a} >= {b}");
            assert_eq!(to_json(&x) == to_json(&y), x == y, "{a} == {b}");
        }
    }
    assert!(compare_json(&j("\"a\""), &j("\"b\""), &RangeOp::Lt));
    assert!(compare_json(&j("\"ab\""), &j("\"a\""), &RangeOp::Gt));
    assert!(compare_json(&j("false"), &j("true"), &RangeOp::Lt));
    assert!(!compare_json(&j("null"), &j("null"), &RangeOp::Gte));
    assert!(!compare_json(&j("1"), &j("\"1\""), &RangeOp::Lte));
}

#[test]
fn digests_are_those_of_sha2() {
    for n in [0, 1, 3, 55, 56, 57, 63, 64, 65, 119, 120, 128, 1000] {
        let message: Vec<u8> = (0..n).map(|i| (i * 7 % 251) as u8).collect();
        let want = <sha2::Sha256 as sha2::Digest>::digest(&message);
        assert_eq!(sha256_hex(&message), to_hex(want.as_slice()));
    }
    assert_eq!(
        sha256_hex(b"abc"),
        "ba7816bf8f01cfea414140de5dae2223b00361a396177a9cb410ff61f20015ad"
    );
    assert_eq!(random_hex(&[0, 15, 255]), "000fff");
}

#[test]
fn sql_texts_are_quoted() {
    assert_eq!(quote_ident("a\"b"), "\"a\"\"b\"");
    assert_eq!(quote_string("it's"), "'it''s'");
    assert_eq!(row_json("", &texts(&["a"])), "json_object('a', \"a\")");
    assert_eq!(row_json("NEW", &texts(&["a", "b"])), "json_object('a', NEW.\"a\", 'b', NEW.\"b\")");
    assert_eq!(list_columns("t'"), "PRAGMA table_info('t''')");
    assert_eq!(row_json("OLD", &texts(&[])), "json_object()");
}

#[test]
fn predicates_compile_to_conditions() {
    let cases = vec![
        (all(), "", 0),
        (eq("a", Json::Null), "\"a\" IS NULL", 0),
        (eq("a", j("1")), "\"a\" = ?", 1),
        (gt("a", j("1")), "\"a\" > ?", 1),
        (lt("a", j("1")), "\"a\" < ?", 1),
        (gte("a", j("1")), "\"a\" >= ?", 1),
        (lte("a", j("1")), "\"a\" <= ?", 1),
        (lte("a", Json::Null), "0", 0),
        (in_list("a", vec![]), "0", 0),
        (in_list("a", vec![Json::Null]), "(\"a\" IS NULL)", 0),
        (in_list("a", vec![j("1"), Json::Null, j("2")]), "(\"a\" IN (?,?)) OR (\"a\" IS NULL)", 2),
        (and(vec![]), "", 0),
        (and(vec![all(), eq("a", j("1")), in_list("b", vec![j("2")])]), "(\"a\" = ?) AND ((\"b\" IN (?)))", 2),
    ];
    for (p, sql, args) in cases {
        let (text, values) = compile_predicate(&p);
        assert_eq!(text, sql);
        assert_eq!(values.len(), args);
    }
    assert!(matches!(json_to_value(&j("true")), SqlValue::Integer(1)));
    assert!(matches!(json_to_value(&j("-3")), SqlValue::Integer(-3)));
    match json_to_value(&j("18446744073709551615")) {
        SqlValue::Real(bits) => assert_eq!(f64::from_bits(bits), 18446744073709551615.0),
        other => panic!("{:?}", other),
    }
    match json_to_value(&j("[1, 2]")) {
        SqlValue::Text(s) => assert_eq!(s, "[1,2]"),
        other => panic!("{:?}", other),
    }
}

#[test]
fn predicates_match_rows() {
    let row = j(r#"{"a": 1, "b": null, "c": "x"}"#);
    assert!(predicate_matches_row(&eq("b", Json::Null), &row));
    assert!(!predicate_matches_row(&eq("missing", Json::Null), &row));
    assert!(predicate_matches_row(&in_list("c", vec![j("1"), j("\"x\"")]), &row));
    assert!(!predicate_matches_row(&gt("b", j("0")), &row));
    assert!(predicate_matches_row(&and(vec![gte("a", j("1")), lte("a", j("1"))]), &row));
    assert!(!predicate_matches(&all(), &None));
}

#[test]
fn range_operators_have_names() {
    for op in [RangeOp::Gt, RangeOp::Lt, RangeOp::Gte, RangeOp::Lte] {
        assert_eq!(RangeOp::from_key(op.key()), Some(op));
    }
    assert_eq!(RangeOp::from_key("eq"), None);
    assert_eq!(RangeOp::Gte.sql(), ">=");
}

#[test]
fn tables_are_described_in_order() {
    let info = flags();
    assert_eq!(info.columns, texts(&["org", "id", "enabled", "note"]));
    assert_eq!(info.pk, texts(&["id", "org"]));
    assert_eq!(info.column_types.get("enabled").unwrap(), "boolean");
    assert!(inspect_table("none", vec![]).is_err());
    assert_eq!(key_columns_text(&info), "[\"id\",\"org\"]");
    assert_eq!(stored_key_columns("[\"id\", \"o\\\"rg\"]"), Some(texts(&["id", "o\"rg"])));
    assert_eq!(stored_key_columns("{}"), None);
    assert!(watched_info(flags(), "flags", None).is_err());
    assert_eq!(watched_info(flags(), "flags", Some(texts(&["org"]))).unwrap().pk, texts(&["org"]));
}

#[test]
fn booleans_are_stored_as_numbers() {
    assert!(is_booleanish("bool"));
    assert!(is_booleanish("Boolean not null"));
    assert!(!is_booleanish("INTEGER"));
    assert!(mentions_bool("BOOLEAN"));
    assert!(!mentions_bool("bool"));
    assert_eq!(coerce_value(true, &j("true")).unwrap(), j("1"));
    assert_eq!(coerce_value(false, &j("7")).unwrap(), j("7"));
    assert!(coerce_value(false, &j("false")).is_err());

    let info = flags();
    let p = and(vec![eq("enabled", j("true")), in_list("enabled", vec![j("false"), Json::Null])]);
    let q = normalize_predicate(&info, &p).unwrap();
    let want = and(vec![eq("enabled", j("1")), in_list("enabled", vec![j("0"), Json::Null])]);
    assert_eq!(predicate_to_json(&q), predicate_to_json(&want));
    assert_eq!(
        predicate_to_json(&normalize_predicate(&info, &q).unwrap()),
        predicate_to_json(&q)
    );
    for bad in [eq("note", j("true")), eq("nope", j("1")), gt("id", Json::Null), and(vec![lt("id", Json::Null)]), in_list("nope", vec![])] {
        assert!(normalize_predicate(&info, &bad).is_err());
    }
}

#[test]
fn handles_ignore_order_and_repetition() {
    let make = |columns: &[&str], p| {
        let mut s = Shape::new("t", texts(columns), p);
        s.auth_scope = "me".to_string();
        handle(&normalize_shape(&s))
    };
    let a = make(
        &["x", "y"],
        and(vec![eq("x", j("1")), in_list("y", vec![j("2"), j("1"), j("2")])]),
    );
    let b = make(&["y", "x"], and(vec![in_list("y", vec![j("1"), j("2")]), eq("x", j("1"))]));
    assert_eq!(a, b);
    assert_eq!(a.len(), 64);
    assert_ne!(a, make(&["y", "x"], all()));
    let s = Shape::new("t", texts(&["b", "a"]), in_list("c", vec![j("\"z\""), j("10"), j("9")]));
    assert_eq!(
        normalize_shape(&s).to_text(),
        "{\"auth_scope\":\"\",\"columns\":[\"a\",\"b\"],\"predicate\":{\"column\":\"c\",\"type\":\"in\",\"values\":[\"z\",10,9]},\"schema_version\":1,\"table\":\"t\"}"
    );
}

#[test]
fn predicates_read_back_from_json() {
    let p = and(vec![
        all(),
        eq("a", Json::Null),
        gte("b", j("2")),
        in_list("c", vec![j("2"), j("1")]),
        and(vec![]),
    ]);
    let v = predicate_to_json(&p);
    assert_eq!(predicate_to_json(&predicate_from_json(&v).unwrap()), v);
    for (bad, message) in [
        ("{}", "predicate needs a type"),
        ("{\"type\":\"eq\"}", "predicate needs a column"),
        ("{\"type\":\"lt\",\"column\":\"a\"}", "predicate needs a value"),
        ("{\"type\":\"in\",\"column\":\"a\"}", "predicate needs values"),
        ("{\"type\":\"and\"}", "predicate needs predicates"),
        ("{\"type\":\"or\"}", "unknown predicate type or"),
        ("{\"type\":\"and\",\"predicates\":[{\"type\":\"all\"},{}]}", "predicate needs a type"),
    ] {
        assert_eq!(predicate_from_json(&j(bad)).unwrap_err(), message);
    }
}

#[test]
fn queries_are_decoded() {
    assert_eq!(url_decode("a+b%20c%2Fd%e9"), "");
    assert_eq!(url_decode("a+b%20c%2Fd%C3%A9"), "a b c/d\u{e9}");
    assert_eq!(url_decode("%"), "%");
    assert_eq!(url_decode("%4"), "%4");
    assert_eq!(url_decode("%zz!"), "\u{0}!");
    assert_eq!(
        query_values("??offset=3&log_id=a%3Db=c&live&=y&x=1&x=2"),
        vec![
            Some("3".to_string()),
            Some("a=b=c".to_string()),
            Some(String::new()),
            Some("2".to_string())
        ]
    );
    assert_eq!(query_values(""), vec![None, None, None, None]);
}

#[test]
fn routes_are_parsed() {
    let r = parse_route("/e", "/e//todos/p1//x", "offset=7&live=true&shape_handle=h").unwrap();
    assert_eq!(r.name, "todos");
    assert_eq!(r.params, texts(&["p1", "x"]));
    assert_eq!(r.offset, 7);
    assert!(r.live);
    assert_eq!(r.log_id, None);
    assert_eq!(r.shape_handle, Some("h".to_string()));
    let r = parse_route("/e", "/e/todos", "offset=x&live=yes").unwrap();
    assert_eq!(r.offset, -1);
    assert!(!r.live);
    assert!(parse_route("/e", "/e/", "").is_none());
    assert!(parse_route("/e", "/ex/todos", "").is_none());

    let bound = bind_params(&texts(&["a", "b"]), &texts(&["1", "2", "3"])).unwrap();
    assert_eq!(bound.get("b").unwrap(), "2");
    assert!(bind_params(&texts(&["a", "a"]), &texts(&["1", "2"])).is_none());
    assert!(bind_params(&texts(&["a", "b"]), &texts(&["1"])).is_none());
}

#[test]
fn engines_are_configured() {
    let mut engine = Electrolite::new();
    engine.set_prefix("/x").set_replay_limit(-5).add_shape("t", ShapeDef::new("t", texts(&["id"])));
    assert_eq!(engine.replay_limit, 1);
    assert!(matches!(engine.begin("/x/t", "offset=-1").1, Action::Authorize));
    match engine.begin("/electrolite/v1/t", "offset=-1").1 {
        Action::Respond { status, body } => {
            assert_eq!(status, 404);
            assert_eq!(body, j("{\"error\":\"shape_not_found\"}"));
        }
        other => panic!("{:?}", other),
    }
}

#[test]
fn replays_are_bounded() {
    assert_eq!(page_limit(-3), 1);
    assert_eq!(page_limit(5), 5);
    assert_eq!(batch_cap(0), 10);
    assert_eq!(batch_cap(i64::MAX), i64::MAX);
    assert_eq!(retained_key("t"), "retained_offset:t");
    assert_eq!(retained_offset(None), 0);
    assert_eq!(retained_offset(Some("x")), 0);
    assert_eq!(retained_offset(Some("12")), 12);
    assert!(begin_replay(11, 12).is_err());
    assert!(begin_replay(12, 12).is_ok());
    assert_eq!(compact_watermark(None, 7), 7);
    assert_eq!(compact_watermark(Some(9), 7), 9);
    assert_eq!(compact_watermark(Some(3), 7), 7);
}

#[test]
fn streams_write_events() {
    let text = |bytes: &Vec<u8>| String::from_utf8(bytes.clone()).unwrap();
    assert_eq!(text(&sse_frame("x", &j("{\"a\":1}"))), "event: x\ndata: {\"a\":1}\n\n");

    let first = j("{\"offset\":4,\"log_id\":\"l\",\"shape_handle\":\"h\",\"rows\":[]}");
    let (stream, out) = advance(open_stream("offset=-1"), 200, &first);
    assert!(text(&out.bytes).starts_with("event: snapshot\n"));
    assert_eq!(out.next_query.as_deref(), Some("offset=4&log_id=l&shape_handle=h&live=true"));

    let (stream, out) = advance(stream, 200, &j("{\"offset\":6,\"messages\":[]}"));
    assert_eq!(text(&out.bytes), ": ping\n\n");
    assert_eq!(out.next_query.as_deref(), Some("offset=4&log_id=l&shape_handle=h&live=true"));

    let (stream, out) = advance(stream, 200, &j("{\"offset\":6,\"messages\":[1]}"));
    assert_eq!(text(&out.bytes), "event: replay\ndata: {\"messages\":[1],\"offset\":6}\n\n: ping\n\n");
    let next = out.next_query.unwrap();
    let route = parse_route("/e", "/e/t", &next).unwrap();
    assert_eq!(route.offset, 6);
    assert!(route.live);
    assert_eq!(route.log_id.as_deref(), Some("l"));
    assert_eq!(route.shape_handle.as_deref(), Some("h"));

    let (stream, out) = advance(stream, 409, &j("{\"error\":\"resync_required\"}"));
    assert_eq!(text(&out.bytes), "event: error\ndata: {\"error\":\"resync_required\"}\n\n");
    assert!(out.next_query.is_none());
    let (_, out) = advance(stream, 200, &first);
    assert!(out.bytes.is_empty() && out.next_query.is_none());

    let (stream, _) = advance(open_stream("offset=-1"), 200, &first);
    let (stream, out) = advance(stream, 200, &j("{\"offset\":4,\"messages\":[],\"shutdown\":true}"));
    assert_eq!(text(&out.bytes), ": ping\n\n");
    assert!(out.next_query.is_none());
    let (_, out) = advance(stream, 200, &first);
    assert!(out.bytes.is_empty() && out.next_query.is_none());
    let (stream, _) = advance(open_stream("offset=-1"), 200, &first);
    let (_, out) = advance(stream, 200, &j("{\"messages\":[1],\"shutdown\":true}"));
    assert_eq!(text(&out.bytes), "event: replay\ndata: {\"messages\":[1],\"shutdown\":true}\n\n: ping\n\n");
    assert!(out.next_query.is_none());
    let (stream, _) = advance(open_stream("offset=-1"), 200, &first);
    let (_, out) = advance(stream, 200, &j("{\"messages\":[],\"shutdown\":false}"));
    assert!(out.next_query.is_some());

    let (_, out) = advance(open_stream("offset=3&log_id=l"), 200, &first);
    assert!(text(&out.bytes).starts_with("event: replay\n"));
    let (_, out) = advance(open_stream(""), 500, &first);
    assert!(text(&out.bytes).starts_with("event: error\n"));
}

#[test]
fn parameters_cross_the_boundary() {
    assert_eq!(json_params(&j("{}")).unwrap_err(), "SQL params must be a JSON array");
    assert_eq!(
        json_params(&j("[1, [2]]")).unwrap_err(),
        "SQL params cannot contain arrays or objects"
    );
    assert_eq!(json_params(&j("[1, \"a\", null, true, 1.5]")).unwrap().len(), 5);
    match json_to_sql_value(&j("1.5")).unwrap() {
        SqlValue::Real(bits) => assert_eq!(f64::from_bits(bits), 1.5),
        other => panic!("{:?}", other),
    }
    let stats = electrolite::engine::compact::compact_stats(5, 2);
    assert_eq!(stats_to_json(&stats), j("{\"retained_offset\":5,\"deleted_rows\":2}"));
    assert_eq!(
        watched_to_json("t", &texts(&["id"]), &texts(&["id", "v"])),
        j("{\"table\":\"t\",\"key_columns\":[\"id\"],\"columns\":[\"id\",\"v\"]}")
    );
}

#[test]
fn quoted_texts_stay_apart() {
    let odd = ["", "a", "a\"", "\"a", "a\"\"", "'", "''", "a'b"];
    for a in odd {
        for b in odd {
            assert_eq!(quote_ident(a) == quote_ident(b), a == b);
            assert_eq!(quote_string(a) == quote_string(b), a == b);
        }
    }
}

#[test]
fn conditions_hold_no_values() {
    let make = |v: Json, w: Json| and(vec![eq("a", v.clone()), in_list("b", vec![w, Json::Null]), lt("c", v)]);
    let (a, _) = compile_predicate(&make(j("1"), j("\"x\"")));
    let (b, _) = compile_predicate(&make(j("\"'; DROP TABLE t; --\""), j("2.5")));
    assert_eq!(a, b);
}

#[test]
fn objects_hold_the_last_value_of_a_key() {
    let mut o = JsonObject::new();
    o.insert("b".to_string(), j("1"));
    o.insert("a".to_string(), j("2"));
    o.insert("b".to_string(), j("3"));
    assert_eq!(o.len(), 2);
    assert_eq!(o.key_at(0), "a");
    assert_eq!(o.get("b"), Some(&j("3")));
    assert_eq!(o.get("a"), Some(&j("2")));
    assert_eq!(o.get("c"), None);
    assert_eq!(url_decode("abc-_.~09"), "abc-_.~09");
}

#[test]
fn values_are_reduced_to_some_keys() {
    let v = j(r#"{"a": 1, "b": {"a": 2, "c": 3}, "c": null}"#);
    assert_eq!(v.project(&texts(&["c", "b", "nope", "b"])), j(r#"{"b": {"a": 2, "c": 3}, "c": null}"#));
    assert_eq!(v.project(&texts(&[])), j("{}"));
    assert_eq!(j("[1]").project(&texts(&["a"])), j("[1]"));
}

#[test]
fn snapshots_are_not_before_the_retained_position() {
    assert_eq!(snapshot_offset(7, 3), 7);
    assert_eq!(snapshot_offset(3, 7), 7);
    assert!(begin_replay(snapshot_offset(0, 7), 7).is_ok());
}

#[test]
fn as_many_changes_are_kept_as_can_be_written() {
    assert_eq!(kept_rows(0), 0);
    assert_eq!(kept_rows(5), 5);
    assert_eq!(kept_rows(usize::MAX), i64::MAX);
}

#[test]
fn different_bytes_make_different_identities() {
    let mut seen: Vec<String> = Vec::new();
    for b in 0..=255u8 {
        let id = random_hex(&[b, 255 - b]);
        assert!(!seen.contains(&id));
        seen.push(id);
    }
}

#[test]
fn handles_tell_shapes_apart_at_any_depth() {
    let make = |table: &str, version: u32, p| {
        let mut s = Shape::new(table, texts(&["x"]), p);
        s.schema_version = version;
        handle(&normalize_shape(&s))
    };
    let inner = |v: &str, w: &str| and(vec![in_list("x", vec![j(v), j(w), j(v)]), all()]);
    let a = make("t", 1, and(vec![inner("1", "2"), eq("x", j("3"))]));
    let b = make("t", 1, and(vec![eq("x", j("3")), and(vec![all(), in_list("x", vec![j("2"), j("1")])])]));
    assert_eq!(a, b);
    assert_ne!(a, make("u", 1, and(vec![inner("1", "2"), eq("x", j("3"))])));
    assert_ne!(a, make("t", 2, and(vec![inner("1", "2"), eq("x", j("3"))])));
    assert_ne!(a, make("t", 1, and(vec![inner("1", "3"), eq("x", j("3"))])));
}

#[test]
fn upper_case_goes_by_character_in_ascii() {
    assert!(is_booleanish("BoOlEaN"));
    assert!(!is_booleanish("b00l"));
    assert!(!is_booleanish(""));
}

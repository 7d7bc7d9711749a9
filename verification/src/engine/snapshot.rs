//! Snapshots: the rows of a shape as they are, pinned to a position in the log.
use vstd::prelude::*;
use crate::engine::compile;
use crate::engine::error::{Error, ErrorView};
use crate::engine::predicate;
use crate::engine::predicate::{Predicate, PredicateView};
use crate::engine::shape;
use crate::engine::shape::{Shape, ShapeView};
use crate::engine::table;
use crate::engine::table::{TableInfo, TableInfoView};
use crate::json;
use crate::json::{Json, JsonObject, JsonView};
use crate::number;
use crate::sql;
use crate::sql::SqlValue;
use crate::text;

verus! {

/// A shape checked against its table: its columns, its normalized predicate and its handle.
#[derive(Debug)]
pub struct Described {
    pub columns: Vec<String>,
    pub predicate: Predicate,
    pub shape_handle: String,
}

/// The model of a checked shape.
pub struct DescribedView {
    pub columns: Seq<Seq<char>>,
    pub predicate: PredicateView,
    pub shape_handle: Seq<char>,
}

impl View for Described {
    type V = DescribedView;

    open spec fn view(&self) -> DescribedView {
        DescribedView {
            columns: text::texts(self.columns@),
            predicate: self.predicate@,
            shape_handle: self.shape_handle@,
        }
    }
}

/// The rows of a shape at a position in the log.
#[derive(Debug)]
pub struct Snapshot {
    pub log_id: String,
    pub shape_handle: String,
    pub key_columns: Vec<String>,
    pub rows: Vec<Json>,
    pub offset: i64,
}

/// The model of a snapshot.
pub struct SnapshotView {
    pub log_id: Seq<char>,
    pub shape_handle: Seq<char>,
    pub key_columns: Seq<Seq<char>>,
    pub rows: Seq<JsonView>,
    pub offset: i64,
}

impl View for Snapshot {
    type V = SnapshotView;

    open spec fn view(&self) -> SnapshotView {
        SnapshotView {
            log_id: self.log_id@,
            shape_handle: self.shape_handle@,
            key_columns: text::texts(self.key_columns@),
            rows: json::views(self.rows@),
            offset: self.offset,
        }
    }
}

/// A statement and the values bound to its placeholders.
#[derive(Debug)]
pub struct Query {
    pub sql: String,
    pub args: Vec<SqlValue>,
}

/// A shape checked against its table. Its handle is that of the normalized predicate, so that
/// every way to write the same value leads to the same handle.
pub open spec fn described(info: TableInfoView, s: ShapeView) -> Result<DescribedView, ErrorView> {
    match table::normalized(info, s.predicate) {
        Ok(p) => Ok(
            DescribedView {
                columns: s.columns,
                predicate: p,
                shape_handle: shape::shape_handle(ShapeView { predicate: p, ..s }),
            },
        ),
        Err(e) => Err(e),
    }
}

/// The model of a result.
pub open spec fn described_result(r: Result<Described, Error>) -> Result<DescribedView, ErrorView> {
    match r {
        Ok(d) => Ok(d@),
        Err(e) => Err(e@),
    }
}

/// Some names as SQL writes them.
pub open spec fn idents(list: Seq<Seq<char>>) -> Seq<Seq<char>> {
    Seq::new(list.len(), |i: int| sql::ident(list[i]))
}

/// The statement that reads the rows of a shape: each as a JSON object of the columns of the
/// shape, those that satisfy the predicate, in the order of the key.
pub open spec fn snapshot_sql(
    table: Seq<char>,
    columns: Seq<Seq<char>>,
    p: PredicateView,
    pk: Seq<Seq<char>>,
) -> Seq<char> {
    let head = "SELECT "@ + sql::row_object(Seq::empty(), columns) + " AS row_json FROM "@ + sql::ident(table);
    let filtered = if compile::condition(p).len() == 0 {
        head
    } else {
        head + " WHERE "@ + compile::condition(p)
    };
    filtered + " ORDER BY "@ + text::joined(idents(pk), ","@)
}

/// A shape checked against its table.
pub fn describe(info: &TableInfo, shape: &Shape) -> (r: Result<Described, Error>)
    ensures
        described_result(r) == described(info@, shape@),
{
    match table::normalize_predicate(info, &shape.predicate) {
        Ok(p) => {
            let normalized = Shape {
                table: shape.table.clone(),
                columns: text::copy_texts(&shape.columns),
                predicate: p.clone(),
                auth_scope: shape.auth_scope.clone(),
                schema_version: shape.schema_version,
            };
            let canonical = shape::normalize_shape(&normalized);
            let shape_handle = shape::handle(&canonical);
            Ok(Described { columns: normalized.columns, predicate: p, shape_handle })
        },
        Err(e) => Err(e),
    }
}

fn quote_idents(list: &Vec<String>) -> (r: Vec<String>)
    ensures
        text::texts(r@) == idents(text::texts(list@)),
{
    let mut out: Vec<String> = Vec::new();
    let mut i: usize = 0;
    while i < list.len()
        invariant
            i <= list@.len(),
            out@.len() == i,
            forall|j: int| 0 <= j < i ==> (#[trigger] out@[j])@ == sql::ident(list@[j]@),
        decreases list@.len() - i,
    {
        out.push(sql::quote_ident(list[i].as_str()));
        i += 1;
    }
    assert(text::texts(out@) =~= idents(text::texts(list@)));
    out
}

/// The statement that reads the rows of a table that satisfy a predicate, in the order of the key.
pub fn select_rows(table: &str, columns: &Vec<String>, predicate: &Predicate, pk: &Vec<String>) -> (r: Query)
    ensures
        r.sql@ == snapshot_sql(table@, text::texts(columns@), predicate@, text::texts(pk@)),
        sql::sql_views(r.args@) == compile::arguments(predicate@),
{
    let (condition, args) = compile::compile_predicate(predicate);
    let mut out = "SELECT ".to_string();
    let none = String::new();
    let row = sql::row_json(none.as_str(), columns);
    out.append(row.as_str());
    out.append(" AS row_json FROM ");
    let from = sql::quote_ident(table);
    out.append(from.as_str());
    if !condition.as_str().is_empty() {
        out.append(" WHERE ");
        out.append(condition.as_str());
    }
    out.append(" ORDER BY ");
    let keys = quote_idents(pk);
    let order = text::join(&keys, ",");
    out.append(order.as_str());
    Query { sql: out, args }
}

/// The statement that reads the rows of a shape.
pub fn snapshot_query(info: &TableInfo, shape: &Shape, described: &Described) -> (r: Query)
    ensures
        r.sql@ == snapshot_sql(shape@.table, shape@.columns, described@.predicate, info@.pk),
        sql::sql_views(r.args@) == compile::arguments(described@.predicate),
{
    select_rows(shape.table.as_str(), &shape.columns, &described.predicate, &info.pk)
}

/// The position that a snapshot is pinned to: that of the newest change in the log, or the one that
/// the table is retained from, where a compaction has dropped the changes up to there.
pub open spec fn pinned(high_water: i64, retained: i64) -> i64 {
    if high_water < retained {
        retained
    } else {
        high_water
    }
}

/// The position that a snapshot is pinned to.
pub fn snapshot_offset(high_water: i64, retained: i64) -> (r: i64)
    ensures
        r == pinned(high_water, retained),
        r >= high_water,
        r >= retained,
        r == high_water || r == retained,
{
    if high_water < retained {
        retained
    } else {
        high_water
    }
}

/// The snapshot of a shape from what the database read: the rows, the position of the newest change
/// in the log, the position that the table is retained from, and the identity of the log.
pub fn snapshot(
    info: TableInfo,
    described: Described,
    rows: Vec<Json>,
    high_water: i64,
    retained: i64,
    log_id: String,
) -> (r: Snapshot)
    ensures
        r@ == taken(info@, described@, json::views(rows@), high_water, retained, log_id@),
{
    let offset: i64 = snapshot_offset(high_water, retained);
    Snapshot { log_id, shape_handle: described.shape_handle, key_columns: info.pk, rows, offset }
}

/// The snapshot of a shape from what the database read.
pub open spec fn taken(
    info: TableInfoView,
    d: DescribedView,
    rows: Seq<JsonView>,
    high_water: i64,
    retained: i64,
    log_id: Seq<char>,
) -> SnapshotView {
    SnapshotView {
        log_id,
        shape_handle: d.shape_handle,
        key_columns: info.pk,
        rows,
        offset: pinned(high_water, retained),
    }
}

/// The body of a snapshot response.
pub open spec fn snapshot_body(s: SnapshotView) -> JsonView {
    JsonView::Object(
        json::put(
            json::put(
                json::put(
                    json::put(
                        json::put(
                            json::put(
                                json::put(shape::no_entries(), "type"@, JsonView::Text("snapshot"@)),
                                "log_id"@,
                                JsonView::Text(s.log_id),
                            ),
                            "shape_handle"@,
                            JsonView::Text(s.shape_handle),
                        ),
                        "key_columns"@,
                        JsonView::Array(json::text_values(s.key_columns)),
                    ),
                    "rows"@,
                    JsonView::Array(s.rows),
                ),
                "offset"@,
                JsonView::Number(number::integer(s.offset)),
            ),
            "up_to_date"@,
            JsonView::Bool(true),
        ),
    )
}

/// The body of a snapshot response.
pub fn snapshot_to_json(s: &Snapshot) -> (r: Json)
    ensures
        r@ == snapshot_body(s@),
{
    let mut o = JsonObject::new();
    o.insert("type".to_string(), Json::text("snapshot"));
    o.insert("log_id".to_string(), Json::text(s.log_id.as_str()));
    o.insert("shape_handle".to_string(), Json::text(s.shape_handle.as_str()));
    o.insert("key_columns".to_string(), Json::texts(&s.key_columns));
    let rows = json::copy_list(&s.rows);
    proof {
        json::lemma_array_view(rows);
    }
    o.insert("rows".to_string(), Json::Array(rows));
    o.insert("offset".to_string(), Json::integer(s.offset));
    o.insert("up_to_date".to_string(), Json::Bool(true));
    Json::Object(o)
}

/// Shapes that differ only in how the values of their predicates are written are one shape.
pub proof fn law_equal_values_name_one_shape(info: TableInfoView, s: ShapeView, p: PredicateView)
    requires
        table::normalized(info, s.predicate) == table::normalized(info, p),
    ensures
        described(info, ShapeView { predicate: p, ..s }) == described(info, s),
{
}

/// A shape with its predicate normalized is the same shape.
pub proof fn law_describing_again_changes_nothing(info: TableInfoView, s: ShapeView)
    ensures
        described(info, s) matches Ok(d) ==> described(info, ShapeView { predicate: d.predicate, ..s }) == Ok::<
            DescribedView,
            ErrorView,
        >(d),
{
    table::law_normalization_is_stable(info, s.predicate);
}

/// The statement of a snapshot holds none of the values of the predicate.
pub proof fn law_statement_ignores_values(
    table: Seq<char>,
    columns: Seq<Seq<char>>,
    p: PredicateView,
    q: PredicateView,
    pk: Seq<Seq<char>>,
)
    requires
        compile::same_but_values(p, q),
    ensures
        snapshot_sql(table, columns, p, pk) == snapshot_sql(table, columns, q, pk),
{
    compile::law_condition_ignores_values(p, q);
}

/// A client reads back from the body of a snapshot response what the snapshot holds.
pub proof fn law_snapshot_body_reads_back(s: SnapshotView)
    ensures
        json::field(snapshot_body(s), "type"@) == Some(JsonView::Text("snapshot"@)),
        json::field(snapshot_body(s), "log_id"@) == Some(JsonView::Text(s.log_id)),
        json::field(snapshot_body(s), "shape_handle"@) == Some(JsonView::Text(s.shape_handle)),
        json::field(snapshot_body(s), "key_columns"@) == Some(
            JsonView::Array(Seq::new(s.key_columns.len(), |i: int| JsonView::Text(s.key_columns[i]))),
        ),
        json::field(snapshot_body(s), "rows"@) == Some(JsonView::Array(s.rows)),
        json::field(snapshot_body(s), "offset"@) == Some(JsonView::Number(number::integer(s.offset))),
        json::field(snapshot_body(s), "up_to_date"@) == Some(JsonView::Bool(true)),
{
    reveal_strlit("type");
    reveal_strlit("log_id");
    reveal_strlit("shape_handle");
    reveal_strlit("key_columns");
    reveal_strlit("rows");
    reveal_strlit("offset");
    reveal_strlit("up_to_date");
    let (t, l, h, k, w, o, u) = (
        "type"@,
        "log_id"@,
        "shape_handle"@,
        "key_columns"@,
        "rows"@,
        "offset"@,
        "up_to_date"@,
    );
    assert(t[0] == 't' && l[0] == 'l' && h[0] == 's' && k[0] == 'k' && w[0] == 'r' && o[0] == 'o' && u[0] == 'u');
    let keys = JsonView::Array(json::text_values(s.key_columns));
    let offset = JsonView::Number(number::integer(s.offset));
    let e1 = json::put(shape::no_entries(), t, JsonView::Text("snapshot"@));
    let e2 = json::put(e1, l, JsonView::Text(s.log_id));
    let e3 = json::put(e2, h, JsonView::Text(s.shape_handle));
    let e4 = json::put(e3, k, keys);
    let e5 = json::put(e4, w, JsonView::Array(s.rows));
    let e6 = json::put(e5, o, offset);
    json::lemma_lookups_after_put(shape::no_entries(), t, JsonView::Text("snapshot"@));
    json::lemma_lookups_after_put(e1, l, JsonView::Text(s.log_id));
    json::lemma_lookups_after_put(e2, h, JsonView::Text(s.shape_handle));
    json::lemma_lookups_after_put(e3, k, keys);
    json::lemma_lookups_after_put(e4, w, JsonView::Array(s.rows));
    json::lemma_lookups_after_put(e5, o, offset);
    json::lemma_lookups_after_put(e6, u, JsonView::Bool(true));
    assert(json::text_values(s.key_columns) =~= Seq::new(
        s.key_columns.len(),
        |i: int| JsonView::Text(s.key_columns[i]),
    ));
}

/// What a snapshot holds of what was read: the rows as they are, the identity of the log, the key
/// columns of the table, and as position the later one of the newest change and the retained
/// position.
pub proof fn law_snapshots_hold_what_was_read(
    info: TableInfoView,
    d: DescribedView,
    rows: Seq<JsonView>,
    high_water: i64,
    retained: i64,
    log_id: Seq<char>,
)
    ensures
        ({
            let s = taken(info, d, rows, high_water, retained, log_id);
            &&& s.rows == rows
            &&& s.log_id == log_id
            &&& s.key_columns == info.pk
            &&& s.shape_handle == d.shape_handle
            &&& s.offset >= high_water
            &&& s.offset >= retained
            &&& s.offset == high_water || s.offset == retained
        }),
{
}

/// A checked shape keeps the columns of the shape in their order, and its handle is that of the
/// shape with the checked predicate in place of its own, all else as it was.
pub proof fn law_checked_shapes_keep_their_fields(info: TableInfoView, s: ShapeView)
    ensures
        described(info, s) matches Ok(d) ==> {
            &&& d.columns == s.columns
            &&& table::normalized(info, s.predicate) == Ok::<PredicateView, ErrorView>(d.predicate)
            &&& forall|t: ShapeView|
                {
                    &&& t.table == s.table
                    &&& t.columns == s.columns
                    &&& t.auth_scope == s.auth_scope
                    &&& t.schema_version == s.schema_version
                    &&& t.predicate == d.predicate
                } ==> d.shape_handle == #[trigger] shape::shape_handle(t)
        },
        described(info, s) is Err <==> table::normalized(info, s.predicate) is Err,
{
    if let Ok(d) = described(info, s) {
        assert forall|t: ShapeView|
            {
                &&& t.table == s.table
                &&& t.columns == s.columns
                &&& t.auth_scope == s.auth_scope
                &&& t.schema_version == s.schema_version
                &&& t.predicate == d.predicate
            } implies d.shape_handle == #[trigger] shape::shape_handle(t) by {
            assert(t == ShapeView { predicate: d.predicate, ..s });
        }
    }
}

/// The body of a snapshot response says nothing of an end of the engine.
pub proof fn lemma_no_shutdown(s: SnapshotView)
    ensures
        json::field(snapshot_body(s), "shutdown"@) is None,
{
    reveal_strlit("shutdown");
    reveal_strlit("type");
    reveal_strlit("log_id");
    reveal_strlit("shape_handle");
    reveal_strlit("key_columns");
    reveal_strlit("rows");
    reveal_strlit("offset");
    reveal_strlit("up_to_date");
    let (t, l, h, k, w, o, u) = (
        "type"@,
        "log_id"@,
        "shape_handle"@,
        "key_columns"@,
        "rows"@,
        "offset"@,
        "up_to_date"@,
    );
    assert("shutdown"@.len() == 8 && t.len() == 4 && l.len() == 6 && h.len() == 12 && k.len() == 11 && w.len() == 4
        && o.len() == 6 && u.len() == 10);
    let keys = JsonView::Array(json::text_values(s.key_columns));
    let offset = JsonView::Number(number::integer(s.offset));
    let e1 = json::put(shape::no_entries(), t, JsonView::Text("snapshot"@));
    let e2 = json::put(e1, l, JsonView::Text(s.log_id));
    let e3 = json::put(e2, h, JsonView::Text(s.shape_handle));
    let e4 = json::put(e3, k, keys);
    let e5 = json::put(e4, w, JsonView::Array(s.rows));
    let e6 = json::put(e5, o, offset);
    json::lemma_lookups_after_put(shape::no_entries(), t, JsonView::Text("snapshot"@));
    json::lemma_lookups_after_put(e1, l, JsonView::Text(s.log_id));
    json::lemma_lookups_after_put(e2, h, JsonView::Text(s.shape_handle));
    json::lemma_lookups_after_put(e3, k, keys);
    json::lemma_lookups_after_put(e4, w, JsonView::Array(s.rows));
    json::lemma_lookups_after_put(e5, o, offset);
    json::lemma_lookups_after_put(e6, u, JsonView::Bool(true));
    assert(json::lookup(shape::no_entries(), "shutdown"@) is None);
}

} // verus!

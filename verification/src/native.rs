//! Values that cross the boundary to another language as JSON.
use vstd::prelude::*;
use crate::engine::compact::CompactStats;
use crate::engine::shape;
use crate::json;
use crate::json::{Json, JsonObject, JsonView};
use crate::number;
use crate::number::{Number, NumberView};
use crate::sql::{SqlValue, SqlView};
use crate::sql;
use crate::text;

verus! {

/// The bound value of a parameter. Arrays and objects cannot be bound.
pub open spec fn parameter(v: JsonView) -> Result<SqlView, Seq<char>> {
    match v {
        JsonView::Array(_) => Err("SQL params cannot contain arrays or objects"@),
        JsonView::Object(_) => Err("SQL params cannot contain arrays or objects"@),
        _ => Ok(sql::bound(v)),
    }
}

/// The bound values of some parameters, or the first error among them.
pub open spec fn parameters(values: Seq<JsonView>) -> Result<Seq<SqlView>, Seq<char>>
    decreases values.len(),
{
    if values.len() == 0 {
        Ok(Seq::empty())
    } else {
        match parameters(values.drop_last()) {
            Err(e) => Err(e),
            Ok(front) => match parameter(values.last()) {
                Err(e) => Err(e),
                Ok(v) => Ok(front.push(v)),
            },
        }
    }
}

/// The bound values of the parameters of a statement, which come as an array.
pub open spec fn statement_parameters(v: JsonView) -> Result<Seq<SqlView>, Seq<char>> {
    match v {
        JsonView::Array(values) => parameters(values),
        _ => Err("SQL params must be a JSON array"@),
    }
}

/// The model of a result.
pub open spec fn value_result(r: Result<SqlValue, String>) -> Result<SqlView, Seq<char>> {
    match r {
        Ok(v) => Ok(v@),
        Err(e) => Err(e@),
    }
}

/// The model of a result.
pub open spec fn values_result(r: Result<Vec<SqlValue>, String>) -> Result<Seq<SqlView>, Seq<char>> {
    match r {
        Ok(v) => Ok(sql::sql_views(v@)),
        Err(e) => Err(e@),
    }
}

/// The bound value of a parameter.
pub fn json_to_sql_value(value: &Json) -> (r: Result<SqlValue, String>)
    ensures
        value_result(r) == parameter(value@),
{
    match value {
        Json::Array(_) => Err("SQL params cannot contain arrays or objects".to_string()),
        Json::Object(_) => Err("SQL params cannot contain arrays or objects".to_string()),
        _ => Ok(sql::json_to_value(value)),
    }
}

proof fn lemma_parameters_error_stays(values: Seq<JsonView>, k: int)
    requires
        0 <= k <= values.len(),
        parameters(values.take(k)) is Err,
    ensures
        parameters(values) == parameters(values.take(k)),
    decreases values.len() - k,
{
    if k == values.len() {
        assert(values.take(k) =~= values);
    } else {
        assert(values.take(k + 1).drop_last() =~= values.take(k));
        lemma_parameters_error_stays(values, k + 1);
    }
}

/// The bound values of the parameters of a statement.
pub fn json_params(value: &Json) -> (r: Result<Vec<SqlValue>, String>)
    ensures
        values_result(r) == statement_parameters(value@),
{
    let values = match value {
        Json::Array(values) => values,
        _ => {
            return Err("SQL params must be a JSON array".to_string());
        },
    };
    proof {
        json::lemma_array_view(*values);
    }
    let ghost vs = json::views(values@);
    let mut out: Vec<SqlValue> = Vec::new();
    let mut i: usize = 0;
    assert(sql::sql_views(out@) =~= Seq::empty());
    while i < values.len()
        invariant
            i <= values@.len(),
            vs == json::views(values@),
            statement_parameters(value@) == parameters(vs),
            parameters(vs.take(i as int)) == Ok::<Seq<SqlView>, Seq<char>>(sql::sql_views(out@)),
        decreases values@.len() - i,
    {
        assert(vs.take(i + 1).drop_last() =~= vs.take(i as int));
        assert(vs.take(i + 1).last() == values@[i as int]@);
        match json_to_sql_value(&values[i]) {
            Ok(v) => {
                let ghost before = sql::sql_views(out@);
                out.push(v);
                assert(sql::sql_views(out@) =~= before.push(v@));
            },
            Err(e) => {
                proof {
                    lemma_parameters_error_stays(vs, i + 1);
                }
                return Err(e);
            },
        }
        i += 1;
    }
    assert(vs.take(values@.len() as int) =~= vs);
    Ok(out)
}

/// A watched table as JSON.
pub open spec fn watched_json(
    table: Seq<char>,
    key_columns: Seq<Seq<char>>,
    columns: Seq<Seq<char>>,
) -> JsonView {
    JsonView::Object(
        json::put(
            json::put(
                json::put(shape::no_entries(), "table"@, JsonView::Text(table)),
                "key_columns"@,
                JsonView::Array(json::text_values(key_columns)),
            ),
            "columns"@,
            JsonView::Array(json::text_values(columns)),
        ),
    )
}

/// A watched table as JSON.
pub fn watched_to_json(table: &str, key_columns: &Vec<String>, columns: &Vec<String>) -> (r: Json)
    ensures
        r@ == JsonView::Object(
            json::put(
                json::put(
                    json::put(shape::no_entries(), "table"@, JsonView::Text(table@)),
                    "key_columns"@,
                    JsonView::Array(json::text_values(text::texts(key_columns@))),
                ),
                "columns"@,
                JsonView::Array(json::text_values(text::texts(columns@))),
            ),
        ),
        r@ == watched_json(table@, text::texts(key_columns@), text::texts(columns@)),
{
    let mut o = JsonObject::new();
    o.insert("table".to_string(), Json::text(table));
    o.insert("key_columns".to_string(), Json::texts(key_columns));
    o.insert("columns".to_string(), Json::texts(columns));
    Json::Object(o)
}

/// What a compaction did as JSON.
pub open spec fn stats_json(retained_offset: i64, deleted_rows: u64) -> JsonView {
    JsonView::Object(
        json::put(
            json::put(
                shape::no_entries(),
                "retained_offset"@,
                JsonView::Number(number::integer(retained_offset)),
            ),
            "deleted_rows"@,
            JsonView::Number(NumberView::PosInt(deleted_rows)),
        ),
    )
}

/// What a compaction did as JSON.
pub fn stats_to_json(stats: &CompactStats) -> (r: Json)
    ensures
        r@ == JsonView::Object(
            json::put(
                json::put(
                    shape::no_entries(),
                    "retained_offset"@,
                    JsonView::Number(number::integer(stats.retained_offset)),
                ),
                "deleted_rows"@,
                JsonView::Number(NumberView::PosInt(stats.deleted_rows as u64)),
            ),
        ),
        r@ == stats_json(stats.retained_offset, stats.deleted_rows as u64),
{
    let mut o = JsonObject::new();
    o.insert("retained_offset".to_string(), Json::integer(stats.retained_offset));
    o.insert("deleted_rows".to_string(), Json::Number(Number::PosInt(stats.deleted_rows as u64)));
    Json::Object(o)
}

/// A watched table reads back from its JSON: its name, its key columns and its columns, in order.
pub proof fn law_watched_tables_read_back(
    table: Seq<char>,
    key_columns: Seq<Seq<char>>,
    columns: Seq<Seq<char>>,
)
    ensures
        ({
            let v = watched_json(table, key_columns, columns);
            &&& json::field(v, "table"@) == Some(JsonView::Text(table))
            &&& json::field(v, "key_columns"@) == Some(
                JsonView::Array(Seq::new(key_columns.len(), |i: int| JsonView::Text(key_columns[i]))),
            )
            &&& json::field(v, "columns"@) == Some(
                JsonView::Array(Seq::new(columns.len(), |i: int| JsonView::Text(columns[i]))),
            )
        }),
{
    reveal_strlit("table");
    reveal_strlit("key_columns");
    reveal_strlit("columns");
    let (t, k, c) = ("table"@, "key_columns"@, "columns"@);
    assert(t[0] == 't' && k[0] == 'k' && c[0] == 'c');
    let (ks, cs) = (JsonView::Array(json::text_values(key_columns)), JsonView::Array(json::text_values(columns)));
    let e1 = json::put(shape::no_entries(), t, JsonView::Text(table));
    let e2 = json::put(e1, k, ks);
    json::lemma_lookups_after_put(shape::no_entries(), t, JsonView::Text(table));
    json::lemma_lookups_after_put(e1, k, ks);
    json::lemma_lookups_after_put(e2, c, cs);
    assert(json::text_values(key_columns) =~= Seq::new(
        key_columns.len(),
        |i: int| JsonView::Text(key_columns[i]),
    ));
    assert(json::text_values(columns) =~= Seq::new(columns.len(), |i: int| JsonView::Text(columns[i])));
}

/// What a compaction did reads back from its JSON.
pub proof fn law_stats_read_back(retained_offset: i64, deleted_rows: u64)
    ensures
        ({
            let v = stats_json(retained_offset, deleted_rows);
            &&& json::field(v, "retained_offset"@) matches Some(r)
            &&& json::integer_of(r) == Some(retained_offset)
            &&& json::field(v, "deleted_rows"@) == Some(JsonView::Number(NumberView::PosInt(deleted_rows)))
        }),
{
    reveal_strlit("retained_offset");
    reveal_strlit("deleted_rows");
    let (r, d) = ("retained_offset"@, "deleted_rows"@);
    assert(r[0] == 'r' && d[0] == 'd');
    let n = JsonView::Number(number::integer(retained_offset));
    let e = json::put(shape::no_entries(), r, n);
    json::lemma_lookups_after_put(shape::no_entries(), r, n);
    json::lemma_lookups_after_put(e, d, JsonView::Number(NumberView::PosInt(deleted_rows)));
}

/// Whether a value can be bound to a parameter.
pub open spec fn bindable(v: JsonView) -> bool {
    !(v is Array) && !(v is Object)
}

/// Parameters are bound one by one: as many values as there are parameters, each that of the
/// parameter at its place. They are refused where one of them is an array or an object, and where
/// they do not come as an array.
pub proof fn law_parameters_are_bound_one_by_one(values: Seq<JsonView>)
    ensures
        statement_parameters(JsonView::Array(values)) is Ok <==> forall|i: int|
            0 <= i < values.len() ==> bindable(#[trigger] values[i]),
        statement_parameters(JsonView::Array(values)) matches Ok(list) ==> {
            &&& list.len() == values.len()
            &&& forall|i: int| 0 <= i < list.len() ==> #[trigger] list[i] == sql::bound(values[i])
        },
        forall|v: JsonView| !(v is Array) ==> #[trigger] statement_parameters(v) is Err,
    decreases values.len(),
{
    if values.len() > 0 {
        let front = values.drop_last();
        law_parameters_are_bound_one_by_one(front);
        assert(statement_parameters(JsonView::Array(front)) == parameters(front));
        if forall|i: int| 0 <= i < values.len() ==> bindable(#[trigger] values[i]) {
            assert forall|i: int| 0 <= i < front.len() implies bindable(#[trigger] front[i]) by {
                assert(front[i] == values[i]);
            }
            assert(bindable(values[values.len() - 1]));
        }
        if parameters(values) is Ok {
            assert forall|i: int| 0 <= i < values.len() implies bindable(#[trigger] values[i]) by {
                if i < front.len() {
                    assert(front[i] == values[i]);
                }
            }
            let list = parameters(values)->Ok_0;
            assert forall|i: int| 0 <= i < list.len() implies #[trigger] list[i] == sql::bound(values[i]) by {
                if i < front.len() {
                    assert(front[i] == values[i]);
                }
            }
        }
    }
}

/// What is refused says why: parameters that do not come as an array, and one that has parts.
pub proof fn law_refused_parameters_say_why(values: Seq<JsonView>, v: JsonView)
    ensures
        statement_parameters(JsonView::Array(values)) matches Err(e) ==> e
            == "SQL params cannot contain arrays or objects"@,
        !(v is Array) ==> statement_parameters(v) == Err::<Seq<SqlView>, Seq<char>>(
            "SQL params must be a JSON array"@,
        ),
        bindable(v) ==> parameter(v) == Ok::<SqlView, Seq<char>>(sql::bound(v)),
        !bindable(v) ==> parameter(v) is Err,
    decreases values.len(),
{
    if values.len() > 0 {
        law_refused_parameters_say_why(values.drop_last(), v);
        assert(statement_parameters(JsonView::Array(values.drop_last())) == parameters(values.drop_last()));
    }
}

} // verus!

//! Shapes, their canonical JSON, and the handle that names them.
use vstd::prelude::*;
use crate::engine::predicate;
use crate::engine::predicate::{Predicate, PredicateView};
use crate::json;
use crate::json::{Json, JsonObject, JsonView};
use crate::number::NumberView;
use crate::sha256;
use crate::sort;
use crate::text;

verus! {

/// A shape: some columns of the rows of a table that satisfy a predicate, for one audience.
#[derive(Clone, Debug)]
pub struct Shape {
    pub table: String,
    pub columns: Vec<String>,
    pub predicate: Predicate,
    pub auth_scope: String,
    pub schema_version: u32,
}

/// The model of a shape.
pub struct ShapeView {
    pub table: Seq<char>,
    pub columns: Seq<Seq<char>>,
    pub predicate: PredicateView,
    pub auth_scope: Seq<char>,
    pub schema_version: u32,
}

impl View for Shape {
    type V = ShapeView;

    open spec fn view(&self) -> ShapeView {
        ShapeView {
            table: self.table@,
            columns: text::texts(self.columns@),
            predicate: self.predicate@,
            auth_scope: self.auth_scope@,
            schema_version: self.schema_version,
        }
    }
}

/// The order of values by their compact texts.
pub open spec fn by_encoding() -> spec_fn(JsonView, JsonView) -> bool {
    |a: JsonView, b: JsonView| text::leq(json::encoded(a), json::encoded(b))
}

/// Whether two values have the same compact text.
pub open spec fn same_encoding() -> spec_fn(JsonView, JsonView) -> bool {
    |a: JsonView, b: JsonView| json::encoded(a) == json::encoded(b)
}

/// The values of a membership test in the order of their compact texts, each text once.
pub open spec fn canonical_values(values: Seq<JsonView>) -> Seq<JsonView> {
    sort::deduped(sort::sorted(values, by_encoding()), same_encoding())
}

/// An object without entries.
pub open spec fn no_entries() -> Seq<(Seq<char>, JsonView)> {
    Seq::empty()
}

/// A predicate as JSON, with the values of a membership test and the parts of a conjunction in
/// the order of their compact texts.
pub open spec fn predicate_json(p: PredicateView) -> JsonView
    decreases p,
{
    match p {
        PredicateView::All => JsonView::Object(json::put(no_entries(), "type"@, JsonView::Text("all"@))),
        PredicateView::Eq { column, value } => compared_json("eq"@, column, "value"@, value),
        PredicateView::Range { op, column, value } => compared_json(
            predicate::op_key(op),
            column,
            "value"@,
            value,
        ),
        PredicateView::In { column, values } => compared_json(
            "in"@,
            column,
            "values"@,
            JsonView::Array(canonical_values(values)),
        ),
        PredicateView::And(children) => JsonView::Object(
            json::put(
                json::put(no_entries(), "type"@, JsonView::Text("and"@)),
                "predicates"@,
                JsonView::Array(sort::sorted(predicate_jsons(children), by_encoding())),
            ),
        ),
    }
}

/// A predicate on one column as JSON.
pub open spec fn compared_json(
    kind: Seq<char>,
    column: Seq<char>,
    field: Seq<char>,
    value: JsonView,
) -> JsonView {
    JsonView::Object(
        json::put(
            json::put(
                json::put(no_entries(), "type"@, JsonView::Text(kind)),
                "column"@,
                JsonView::Text(column),
            ),
            field,
            value,
        ),
    )
}

/// Some predicates as JSON, in their order.
pub open spec fn predicate_jsons(list: Seq<PredicateView>) -> Seq<JsonView>
    decreases list,
{
    if list.len() == 0 {
        Seq::empty()
    } else {
        predicate_jsons(list.drop_last()).push(predicate_json(list.last()))
    }
}

/// What identifies a shape, as JSON: its audience, its columns in order, its predicate in canonical
/// form, the version of its schema, and its table.
pub open spec fn identity_json(
    auth_scope: Seq<char>,
    columns: Seq<Seq<char>>,
    predicate: JsonView,
    schema_version: u64,
    table: Seq<char>,
) -> JsonView {
    JsonView::Object(
        json::put(
            json::put(
                json::put(
                    json::put(
                        json::put(no_entries(), "auth_scope"@, JsonView::Text(auth_scope)),
                        "columns"@,
                        JsonView::Array(json::text_values(sort::sorted(columns, text::order()))),
                    ),
                    "predicate"@,
                    predicate,
                ),
                "schema_version"@,
                JsonView::Number(NumberView::PosInt(schema_version)),
            ),
            "table"@,
            JsonView::Text(table),
        ),
    )
}

/// The canonical JSON of a shape.
pub open spec fn shape_json(s: ShapeView) -> JsonView {
    identity_json(
        s.auth_scope,
        s.columns,
        predicate_json(s.predicate),
        s.schema_version as u64,
        s.table,
    )
}

/// The handle of a canonical JSON value: the hexadecimal SHA-256 digest of its compact text.
pub open spec fn json_handle(v: JsonView) -> Seq<char> {
    sha256::hex(sha256::digest(vstd::utf8::encode_utf8(json::encoded(v))))
}

/// The handle of a shape.
pub open spec fn shape_handle(s: ShapeView) -> Seq<char> {
    json_handle(shape_json(s))
}

impl Shape {
    /// A shape without an audience, in the first version of its schema.
    pub fn new(table: &str, columns: Vec<String>, predicate: Predicate) -> (r: Self)
        ensures
            r@ == (ShapeView {
                table: table@,
                columns: text::texts(columns@),
                predicate: predicate@,
                auth_scope: Seq::empty(),
                schema_version: 1,
            }),
    {
        Shape { table: table.to_string(), columns, predicate, auth_scope: String::new(), schema_version: 1 }
    }
}

type Keyed = (String, Json);

spec fn keyed_view() -> spec_fn(Keyed) -> JsonView {
    |x: Keyed| x.1@
}

spec fn keyed_ok() -> spec_fn(Keyed) -> bool {
    |x: Keyed| x.0@ == json::encoded(x.1@)
}

fn sort_by_text(values: Vec<Json>) -> (r: Vec<Keyed>)
    ensures
        r@.map_values(keyed_view()) == sort::sorted(json::views(values@), by_encoding()),
        forall|i: int| 0 <= i < r@.len() ==> keyed_ok()(#[trigger] r@[i]),
{
    let ghost all = values@;
    let mut items: Vec<Keyed> = Vec::new();
    for value in it: values
        invariant
            it.seq() == all,
            items@.len() == it.index(),
            forall|j: int| 0 <= j < items@.len() ==> keyed_ok()(#[trigger] items@[j]) && items@[j].1@ == all[j]@,
    {
        items.push((value.to_text(), value));
    }
    assert(items@.map_values(keyed_view()) =~= json::views(all));
    proof {
        sort::lemma_sorted_map(
            items@,
            keyed_view(),
            sort::by_key::<String, Json>(),
            by_encoding(),
            keyed_ok(),
        );
    }
    sort::sort_by_key(items)
}

fn values_of(items: Vec<Keyed>) -> (r: Vec<Json>)
    ensures
        json::views(r@) == items@.map_values(keyed_view()),
{
    let ghost all = items@;
    let mut out: Vec<Json> = Vec::new();
    for item in it: items
        invariant
            it.seq() == all,
            out@.len() == it.index(),
            forall|j: int| 0 <= j < out@.len() ==> (#[trigger] out@[j])@ == all[j].1@,
    {
        out.push(item.1);
    }
    assert(json::views(out@) =~= all.map_values(keyed_view()));
    out
}

fn distinct_values(items: Vec<Keyed>) -> (r: Vec<Json>)
    requires
        forall|i: int| 0 <= i < items@.len() ==> keyed_ok()(#[trigger] items@[i]),
    ensures
        json::views(r@) == sort::deduped(items@.map_values(keyed_view()), same_encoding()),
{
    let ghost all = items@;
    let ghost vs = all.map_values(keyed_view());
    let mut out: Vec<Json> = Vec::new();
    assert(json::views(out@) =~= sort::deduped(vs.take(0), same_encoding()));
    for item in it: items
        invariant
            it.seq() == all,
            vs == all.map_values(keyed_view()),
            forall|i: int| 0 <= i < all.len() ==> keyed_ok()(#[trigger] all[i]),
            json::views(out@) == sort::deduped(vs.take(it.index()), same_encoding()),
    {
        assert(vs.take(it.index() + 1).drop_last() =~= vs.take(it.index()));
        assert(keyed_ok()(all[it.index()]));
        assert(vs[it.index()] == keyed_view()(all[it.index()]));
        let n: usize = out.len();
        let ghost before = json::views(out@);
        let repeated = if n > 0 {
            let last = out[n - 1].to_text();
            assert(before.last() == out@[n - 1]@);
            text::same_text(last.as_str(), item.0.as_str())
        } else {
            false
        };
        if !repeated {
            out.push(item.1);
            assert(json::views(out@) =~= before.push(vs[it.index()]));
        }
    }
    assert(vs.take(vs.len() as int) =~= vs);
    out
}

fn compared(kind: &str, column: &str, field: &str, value: Json) -> (r: Json)
    ensures
        r@ == compared_json(kind@, column@, field@, value@),
{
    let mut o = JsonObject::new();
    o.insert("type".to_string(), Json::text(kind));
    o.insert("column".to_string(), Json::text(column));
    o.insert(field.to_string(), value);
    Json::Object(o)
}

fn children_to_json(children: &Vec<Predicate>) -> (r: Vec<Json>)
    ensures
        json::views(r@) == predicate_jsons(predicate::predicate_views(children@)),
    decreases children,
{
    let ghost ps = predicate::predicate_views(children@);
    let mut out: Vec<Json> = Vec::new();
    let mut i: usize = 0;
    assert(json::views(out@) =~= predicate_jsons(ps.take(0)));
    while i < children.len()
        invariant
            i <= children@.len(),
            ps == predicate::predicate_views(children@),
            json::views(out@) == predicate_jsons(ps.take(i as int)),
        decreases children@.len() - i,
    {
        assert(ps.take(i + 1).drop_last() =~= ps.take(i as int));
        assert(ps.take(i + 1).last() == children@[i as int]@);
        assert(decreases_to!(children => children@[i as int]));
        let child = predicate_to_json(&children[i]);
        let ghost before = json::views(out@);
        out.push(child);
        assert(json::views(out@) =~= before.push(child@));
        i += 1;
    }
    assert(ps.take(children@.len() as int) =~= ps);
    out
}

/// A predicate as JSON, in canonical form.
pub fn predicate_to_json(p: &Predicate) -> (r: Json)
    ensures
        r@ == predicate_json(p@),
    decreases p,
{
    match p {
        Predicate::All => {
            let mut o = JsonObject::new();
            o.insert("type".to_string(), Json::text("all"));
            Json::Object(o)
        },
        Predicate::Eq { column, value } => compared("eq", column.as_str(), "value", value.clone()),
        Predicate::Range { op, column, value } => compared(op.key(), column.as_str(), "value", value.clone()),
        Predicate::In { column, values } => {
            let sorted = sort_by_text(json::copy_list(values));
            let distinct = distinct_values(sorted);
            proof {
                json::lemma_array_view(distinct);
            }
            compared("in", column.as_str(), "values", Json::Array(distinct))
        },
        Predicate::And(children) => {
            proof {
                predicate::lemma_and_view(*children);
            }
            let sorted = values_of(sort_by_text(children_to_json(children)));
            proof {
                json::lemma_array_view(sorted);
            }
            let mut o = JsonObject::new();
            o.insert("type".to_string(), Json::text("and"));
            o.insert("predicates".to_string(), Json::Array(sorted));
            Json::Object(o)
        },
    }
}

spec fn text_view() -> spec_fn((String, ())) -> Seq<char> {
    |x: (String, ())| x.0@
}

/// Some texts in order.
pub fn sorted_texts(list: &Vec<String>) -> (r: Vec<String>)
    ensures
        text::texts(r@) == sort::sorted(text::texts(list@), text::order()),
{
    let mut items: Vec<(String, ())> = Vec::new();
    let mut i: usize = 0;
    while i < list.len()
        invariant
            i <= list@.len(),
            items@.len() == i,
            forall|j: int| 0 <= j < i ==> (#[trigger] items@[j]).0@ == list@[j]@,
        decreases list@.len() - i,
    {
        items.push((list[i].clone(), ()));
        i += 1;
    }
    assert(items@.map_values(text_view()) =~= text::texts(list@));
    proof {
        sort::lemma_sorted_map(
            items@,
            text_view(),
            sort::by_key::<String, ()>(),
            text::order(),
            |x: (String, ())| true,
        );
    }
    let sorted = sort::sort_by_key(items);
    let ghost all = sorted@;
    let mut out: Vec<String> = Vec::new();
    for item in it: sorted
        invariant
            it.seq() == all,
            out@.len() == it.index(),
            forall|j: int| 0 <= j < out@.len() ==> (#[trigger] out@[j])@ == all[j].0@,
    {
        out.push(item.0);
    }
    assert(text::texts(out@) =~= all.map_values(text_view()));
    out
}

/// The canonical JSON of a shape.
pub fn normalize_shape(shape: &Shape) -> (r: Json)
    ensures
        r@ == shape_json(shape@),
{
    let columns = sorted_texts(&shape.columns);
    let mut o = JsonObject::new();
    o.insert("auth_scope".to_string(), Json::text(shape.auth_scope.as_str()));
    o.insert("columns".to_string(), Json::texts(&columns));
    o.insert("predicate".to_string(), predicate_to_json(&shape.predicate));
    o.insert("schema_version".to_string(), Json::integer(shape.schema_version as i64));
    o.insert("table".to_string(), Json::text(shape.table.as_str()));
    Json::Object(o)
}

/// The handle of a canonical JSON value. Objects hold their keys in order, so the compact text of
/// the value is its canonical text.
pub fn handle(normalized: &Json) -> (r: String)
    ensures
        r@ == json_handle(normalized@),
{
    let body = normalized.to_text();
    sha256::sha256_hex(body.as_str().as_bytes())
}

spec fn encoding() -> spec_fn(JsonView) -> Seq<char> {
    |v: JsonView| json::encoded(v)
}

/// Whether two texts are the same.
pub open spec fn same_characters() -> spec_fn(Seq<char>, Seq<char>) -> bool {
    |a: Seq<char>, b: Seq<char>| a == b
}

proof fn lemma_encoded_list_map(list: Seq<JsonView>)
    ensures
        json::encoded_list(list) == list.map_values(encoding()),
    decreases list.len(),
{
    if list.len() > 0 {
        lemma_encoded_list_map(list.drop_last());
    }
    assert(json::encoded_list(list) =~= list.map_values(encoding()));
}

/// Whether two lists of entries have the same keys and values of the same compact texts.
spec fn alike(a: Seq<(Seq<char>, JsonView)>, b: Seq<(Seq<char>, JsonView)>) -> bool {
    &&& a.len() == b.len()
    &&& forall|i: int|
        0 <= i < a.len() ==> (#[trigger] a[i]).0 == b[i].0 && json::encoded(a[i].1) == json::encoded(b[i].1)
}

proof fn lemma_put_alike(
    a: Seq<(Seq<char>, JsonView)>,
    b: Seq<(Seq<char>, JsonView)>,
    key: Seq<char>,
    v: JsonView,
    w: JsonView,
)
    requires
        alike(a, b),
        json::encoded(v) == json::encoded(w),
    ensures
        alike(json::put(a, key, v), json::put(b, key, w)),
    decreases a.len(),
{
    if a.len() > 0 {
        assert(a[a.len() - 1].0 == b[a.len() - 1].0);
        assert forall|i: int| 0 <= i < a.drop_last().len() implies (#[trigger] a.drop_last()[i]).0
            == b.drop_last()[i].0 && json::encoded(a.drop_last()[i].1) == json::encoded(b.drop_last()[i].1) by {
            assert(a.drop_last()[i] == a[i]);
        }
        lemma_put_alike(a.drop_last(), b.drop_last(), key, v, w);
    }
}

proof fn lemma_alike_texts(a: Seq<(Seq<char>, JsonView)>, b: Seq<(Seq<char>, JsonView)>)
    requires
        alike(a, b),
    ensures
        json::encoded_entries(a) == json::encoded_entries(b),
    decreases a.len(),
{
    if a.len() > 0 {
        assert(a[a.len() - 1].0 == b[a.len() - 1].0);
        assert forall|i: int| 0 <= i < a.drop_last().len() implies (#[trigger] a.drop_last()[i]).0
            == b.drop_last()[i].0 && json::encoded(a.drop_last()[i].1) == json::encoded(b.drop_last()[i].1) by {
            assert(a.drop_last()[i] == a[i]);
        }
        lemma_alike_texts(a.drop_last(), b.drop_last());
    }
}

proof fn lemma_canonical_value_texts(values: Seq<JsonView>)
    ensures
        json::encoded_list(canonical_values(values)) == sort::deduped(
            sort::sorted(json::encoded_list(values), text::order()),
            same_characters(),
        ),
{
    lemma_encoded_list_map(values);
    lemma_encoded_list_map(canonical_values(values));
    let s = sort::sorted(values, by_encoding());
    sort::lemma_sorted_map(values, encoding(), by_encoding(), text::order(), |v: JsonView| true);
    sort::lemma_deduped_map(s, encoding(), same_encoding(), same_characters());
}

/// The canonical text of a membership test depends on the set of its values alone: neither their
/// order nor repetitions of one change it.
pub proof fn law_in_text_ignores_order_and_repetition(
    column: Seq<char>,
    v: Seq<JsonView>,
    w: Seq<JsonView>,
)
    requires
        json::encoded_list(v).to_set() == json::encoded_list(w).to_set(),
    ensures
        json::encoded(predicate_json(PredicateView::In { column, values: v })) == json::encoded(
            predicate_json(PredicateView::In { column, values: w }),
        ),
{
    lemma_canonical_value_texts(v);
    lemma_canonical_value_texts(w);
    text::lemma_order_is_total();
    sort::lemma_sorted_deduped_ignores_order(
        json::encoded_list(v),
        json::encoded_list(w),
        text::order(),
        same_characters(),
    );
    let (a, b) = (JsonView::Array(canonical_values(v)), JsonView::Array(canonical_values(w)));
    assert(json::encoded(a) == json::encoded(b));
    let e = json::put(
        json::put(no_entries(), "type"@, JsonView::Text("in"@)),
        "column"@,
        JsonView::Text(column),
    );
    assert(alike(e, e));
    lemma_put_alike(e, e, "values"@, a, b);
    lemma_alike_texts(json::put(e, "values"@, a), json::put(e, "values"@, b));
}

/// The canonical texts of some predicates.
pub open spec fn predicate_texts(list: Seq<PredicateView>) -> Seq<Seq<char>> {
    json::encoded_list(predicate_jsons(list))
}

/// The canonical text of a conjunction depends on the canonical texts of its parts, not on their
/// order.
pub proof fn law_and_text_ignores_order(a: Seq<PredicateView>, b: Seq<PredicateView>)
    requires
        predicate_texts(a).to_multiset() == predicate_texts(b).to_multiset(),
    ensures
        json::encoded(predicate_json(PredicateView::And(a))) == json::encoded(
            predicate_json(PredicateView::And(b)),
        ),
{
    let (x, y) = (predicate_jsons(a), predicate_jsons(b));
    let (sx, sy) = (sort::sorted(x, by_encoding()), sort::sorted(y, by_encoding()));
    sort::lemma_sorted_map(x, encoding(), by_encoding(), text::order(), |v: JsonView| true);
    sort::lemma_sorted_map(y, encoding(), by_encoding(), text::order(), |v: JsonView| true);
    lemma_encoded_list_map(x);
    lemma_encoded_list_map(y);
    lemma_encoded_list_map(sx);
    lemma_encoded_list_map(sy);
    text::lemma_order_is_total();
    sort::lemma_sorted_ignores_order(predicate_texts(a), predicate_texts(b), text::order());
    let (p, q) = (JsonView::Array(sx), JsonView::Array(sy));
    assert(json::encoded(p) == json::encoded(q));
    let e = json::put(no_entries(), "type"@, JsonView::Text("and"@));
    assert(alike(e, e));
    lemma_put_alike(e, e, "predicates"@, p, q);
    lemma_alike_texts(json::put(e, "predicates"@, p), json::put(e, "predicates"@, q));
}

/// The canonical text of a shape depends neither on the order of its columns nor on how its
/// predicate is written.
pub proof fn lemma_identity_ignores_order(
    auth_scope: Seq<char>,
    columns: Seq<Seq<char>>,
    columns2: Seq<Seq<char>>,
    p: JsonView,
    q: JsonView,
    schema_version: u64,
    table: Seq<char>,
)
    requires
        columns.to_multiset() == columns2.to_multiset(),
        json::encoded(p) == json::encoded(q),
    ensures
        json::encoded(identity_json(auth_scope, columns, p, schema_version, table)) == json::encoded(
            identity_json(auth_scope, columns2, q, schema_version, table),
        ),
{
    text::lemma_order_is_total();
    sort::lemma_sorted_ignores_order(columns, columns2, text::order());
    lemma_identity_text(auth_scope, columns, p, schema_version, table);
    lemma_identity_text(auth_scope, columns2, q, schema_version, table);
}

/// Two shapes of one table, audience and version have one handle where they have the same columns
/// in any order and predicates of the same canonical text.
pub proof fn law_handle_ignores_order(s: ShapeView, t: ShapeView)
    requires
        s.table == t.table,
        s.auth_scope == t.auth_scope,
        s.schema_version == t.schema_version,
        s.columns.to_multiset() == t.columns.to_multiset(),
        json::encoded(predicate_json(s.predicate)) == json::encoded(predicate_json(t.predicate)),
    ensures
        json::encoded(shape_json(s)) == json::encoded(shape_json(t)),
        shape_handle(s) == shape_handle(t),
{
    lemma_identity_ignores_order(
        s.auth_scope,
        s.columns,
        t.columns,
        predicate_json(s.predicate),
        predicate_json(t.predicate),
        s.schema_version as u64,
        s.table,
    );
}

/// A handle is made of 64 lower-case hexadecimal digits.
pub proof fn law_handle_shape(s: ShapeView)
    ensures
        shape_handle(s).len() == 64,
        forall|i: int|
            0 <= i < 64 ==> ('0' <= #[trigger] shape_handle(s)[i] <= '9' || 'a' <= shape_handle(s)[i] <= 'f'),
{
    sha256::law_digest_is_64_hex_digits(vstd::utf8::encode_utf8(json::encoded(shape_json(s))));
}

/// The canonical JSON of a shape has five entries, in the order of their keys.
pub proof fn law_identity_has_five_entries(
    auth_scope: Seq<char>,
    columns: Seq<Seq<char>>,
    predicate: JsonView,
    schema_version: u64,
    table: Seq<char>,
)
    ensures
        identity_json(auth_scope, columns, predicate, schema_version, table) == JsonView::Object(
            seq![
                ("auth_scope"@, JsonView::Text(auth_scope)),
                ("columns"@, JsonView::Array(json::text_values(sort::sorted(columns, text::order())))),
                ("predicate"@, predicate),
                ("schema_version"@, JsonView::Number(NumberView::PosInt(schema_version))),
                ("table"@, JsonView::Text(table)),
            ],
        ),
{
    reveal_strlit("auth_scope");
    reveal_strlit("columns");
    reveal_strlit("predicate");
    reveal_strlit("schema_version");
    reveal_strlit("table");
    assert("auth_scope"@[0] == 'a' && "columns"@[0] == 'c' && "predicate"@[0] == 'p');
    assert("schema_version"@[0] == 's' && "table"@[0] == 't');
    let list = JsonView::Array(json::text_values(sort::sorted(columns, text::order())));
    let version = JsonView::Number(NumberView::PosInt(schema_version));
    let e1 = json::put(no_entries(), "auth_scope"@, JsonView::Text(auth_scope));
    let e2 = json::put(e1, "columns"@, list);
    let e3 = json::put(e2, "predicate"@, predicate);
    let e4 = json::put(e3, "schema_version"@, version);
    let e5 = json::put(e4, "table"@, JsonView::Text(table));
    assert(e2 == e1.push(("columns"@, list)));
    assert(e3 == e2.push(("predicate"@, predicate)));
    assert(e4 == e3.push(("schema_version"@, version)));
    assert(e5 == e4.push(("table"@, JsonView::Text(table))));
    assert(e5 =~= seq![
        ("auth_scope"@, JsonView::Text(auth_scope)),
        ("columns"@, list),
        ("predicate"@, predicate),
        ("schema_version"@, version),
        ("table"@, JsonView::Text(table)),
    ]);
}

/// The canonical text of a shape behind its columns.
#[verifier::opaque]
spec fn tail_text(predicate: Seq<char>, version: Seq<char>, table: Seq<char>) -> Seq<char> {
    seq![','] + json::quoted("predicate"@) + seq![':'] + predicate + (seq![','] + json::quoted("schema_version"@))
        + seq![':'] + version + (seq![','] + json::quoted("table"@)) + seq![':'] + json::quoted(table)
}

/// The canonical text of a shape, part by part.
#[verifier::opaque]
spec fn identity_text(
    auth_scope: Seq<char>,
    columns: Seq<Seq<char>>,
    predicate: Seq<char>,
    version: Seq<char>,
    table: Seq<char>,
) -> Seq<char> {
    (seq!['{'] + json::quoted("auth_scope"@) + seq![':']) + (json::quoted(auth_scope) + ((seq![',']
        + json::quoted("columns"@) + seq![':', '[']) + (text::joined(
        json::encoded_list(json::text_values(columns)),
        seq![','],
    ) + seq![']'] + (tail_text(predicate, version, table) + seq!['}']))))
}

proof fn lemma_five_joined(
    a: Seq<char>,
    b: Seq<char>,
    c: Seq<char>,
    d: Seq<char>,
    e: Seq<char>,
    sep: Seq<char>,
)
    ensures
        text::joined(seq![a, b, c, d, e], sep) == (a + sep + b) + (sep + c + sep + d + sep + e),
{
    let parts = seq![a, b, c, d, e];
    let p4 = parts.drop_last();
    let p3 = p4.drop_last();
    let p2 = p3.drop_last();
    let p1 = p2.drop_last();
    assert(text::joined(p1, sep) == a);
    assert(text::joined(p2, sep) == a + sep + b);
    assert(text::joined(p3, sep) == a + sep + b + sep + c);
    assert(text::joined(p4, sep) == a + sep + b + sep + c + sep + d);
    assert(text::joined(parts, sep) == a + sep + b + sep + c + sep + d + sep + e);
    assert(a + sep + b + sep + c + sep + d + sep + e =~= (a + sep + b) + (sep + c + sep + d + sep + e));
}

proof fn lemma_tail_text(predicate: Seq<char>, version: Seq<char>, table: Seq<char>)
    ensures
        seq![','] + json::entry_text("predicate"@, predicate) + seq![','] + json::entry_text(
            "schema_version"@,
            version,
        ) + seq![','] + json::entry_text("table"@, json::quoted(table)) == tail_text(predicate, version, table),
{
    reveal(tail_text);
    lemma_tail_pieces(
        json::quoted("predicate"@),
        json::quoted("schema_version"@),
        json::quoted("table"@),
        predicate,
        version,
        json::quoted(table),
    );
}

proof fn lemma_tail_pieces(
    f: Seq<char>,
    g: Seq<char>,
    h: Seq<char>,
    p: Seq<char>,
    v: Seq<char>,
    t: Seq<char>,
)
    ensures
        seq![','] + (f + seq![':'] + p) + seq![','] + (g + seq![':'] + v) + seq![','] + (h + seq![':'] + t)
            == seq![','] + f + seq![':'] + p + (seq![','] + g) + seq![':'] + v + (seq![','] + h) + seq![':'] + t,
{
    let a = seq![','] + (f + seq![':'] + p);
    assert(a =~= seq![','] + f + seq![':'] + p);
    let b = a + seq![','] + (g + seq![':'] + v);
    assert(b =~= a + (seq![','] + g) + seq![':'] + v);
    assert(b + seq![','] + (h + seq![':'] + t) =~= b + (seq![','] + h) + seq![':'] + t);
}

proof fn lemma_head_pieces(
    f: Seq<char>,
    scope: Seq<char>,
    g: Seq<char>,
    list: Seq<char>,
    tail: Seq<char>,
)
    ensures
        seq!['{'] + (((f + seq![':'] + scope) + seq![','] + (g + seq![':'] + (seq!['['] + list + seq![']'])))
            + tail) + seq!['}'] == (seq!['{'] + f + seq![':']) + (scope + ((seq![','] + g + seq![':', '['])
            + (list + seq![']'] + (tail + seq!['}'])))),
{
    let x = (f + seq![':'] + scope) + seq![','] + (g + seq![':'] + (seq!['['] + list + seq![']']));
    let y = list + seq![']'] + (tail + seq!['}']);
    assert(x + tail + seq!['}'] =~= (f + seq![':'] + scope) + ((seq![','] + g + seq![':', '[']) + y));
    let z = (seq![','] + g + seq![':', '[']) + y;
    assert(seq!['{'] + (x + tail) + seq!['}'] =~= seq!['{'] + (x + tail + seq!['}']));
    assert(seq!['{'] + ((f + seq![':'] + scope) + z) =~= (seq!['{'] + f + seq![':']) + (scope + z));
}

proof fn lemma_identity_text(
    auth_scope: Seq<char>,
    columns: Seq<Seq<char>>,
    predicate: JsonView,
    schema_version: u64,
    table: Seq<char>,
)
    ensures
        json::encoded(identity_json(auth_scope, columns, predicate, schema_version, table)) == identity_text(
            auth_scope,
            sort::sorted(columns, text::order()),
            json::encoded(predicate),
            text::digits(schema_version as nat),
            table,
        ),
{
    reveal(identity_text);
    law_identity_has_five_entries(auth_scope, columns, predicate, schema_version, table);
    let sorted = sort::sorted(columns, text::order());
    let list = JsonView::Array(json::text_values(sorted));
    let version = JsonView::Number(NumberView::PosInt(schema_version));
    let e = seq![
        ("auth_scope"@, JsonView::Text(auth_scope)),
        ("columns"@, list),
        ("predicate"@, predicate),
        ("schema_version"@, version),
        ("table"@, JsonView::Text(table)),
    ];
    let want = seq![
        json::entry_text("auth_scope"@, json::quoted(auth_scope)),
        json::entry_text("columns"@, json::encoded(list)),
        json::entry_text("predicate"@, json::encoded(predicate)),
        json::entry_text("schema_version"@, text::digits(schema_version as nat)),
        json::entry_text("table"@, json::quoted(table)),
    ];
    let parts = json::encoded_entries(e);
    json::lemma_encoded_entries_index(e, 0);
    json::lemma_encoded_entries_index(e, 1);
    json::lemma_encoded_entries_index(e, 2);
    json::lemma_encoded_entries_index(e, 3);
    json::lemma_encoded_entries_index(e, 4);
    assert(parts =~= want);
    lemma_five_joined(want[0], want[1], want[2], want[3], want[4], seq![',']);
    lemma_tail_text(json::encoded(predicate), text::digits(schema_version as nat), table);
    lemma_head_pieces(
        json::quoted("auth_scope"@),
        json::quoted(auth_scope),
        json::quoted("columns"@),
        text::joined(json::encoded_list(json::text_values(sorted)), seq![',']),
        tail_text(json::encoded(predicate), text::digits(schema_version as nat), table),
    );
}

proof fn lemma_last_digits(x: Seq<char>, y: Seq<char>, m: nat, n: nat)
    requires
        x + seq![':'] + text::digits(m) == y + seq![':'] + text::digits(n),
    ensures
        x == y,
        m == n,
{
    text::lemma_digits_read_back(m);
    text::lemma_digits_read_back(n);
    let (a, b) = (text::digits(m), text::digits(n));
    let (s, t) = (x + seq![':'] + a, y + seq![':'] + b);
    let i = s.len() - a.len() - 1;
    let j = t.len() - b.len() - 1;
    assert(s[i] == ':' && t[j] == ':');
    if a.len() < b.len() {
        assert(t[i] == b[b.len() - a.len() - 1]);
    }
    if b.len() < a.len() {
        assert(s[j] == a[a.len() - b.len() - 1]);
    }
    assert(x =~= s.take(i));
    assert(y =~= t.take(i));
    assert(a =~= s.skip(i + 1));
    assert(b =~= t.skip(i + 1));
}

proof fn lemma_tail_reads_back(
    p: Seq<char>,
    q: Seq<char>,
    m: nat,
    n: nat,
    a: Seq<char>,
    b: Seq<char>,
)
    requires
        tail_text(p, text::digits(m), a) == tail_text(q, text::digits(n), b),
    ensures
        p == q,
        m == n,
        a == b,
{
    reveal(tail_text);
    let f = seq![','] + json::quoted("predicate"@) + seq![':'];
    let g = seq![','] + json::quoted("schema_version"@);
    let h = seq![','] + json::quoted("table"@);
    let (x3, y3) = (f + p + g, f + q + g);
    let (x2, y2) = (x3 + seq![':'] + text::digits(m), y3 + seq![':'] + text::digits(n));
    let (x1, y1) = (x2 + h, y2 + h);
    assert(tail_text(p, text::digits(m), a) == x1 + seq![':'] + json::quoted(a));
    assert(tail_text(q, text::digits(n), b) == y1 + seq![':'] + json::quoted(b));
    json::lemma_last_quoted_reads_back(x1, y1, a, b);
    lemma_cancel_back(x2, y2, h);
    lemma_last_digits(x3, y3, m, n);
    lemma_cancel_back(f + p, f + q, g);
    lemma_cancel_front(f, p, q);
}

proof fn lemma_cancel_front(h: Seq<char>, x: Seq<char>, y: Seq<char>)
    requires
        h + x == h + y,
    ensures
        x == y,
{
    assert((h + x).skip(h.len() as int) =~= x);
    assert((h + y).skip(h.len() as int) =~= y);
}

proof fn lemma_cancel_back(x: Seq<char>, y: Seq<char>, t: Seq<char>)
    requires
        x + t == y + t,
    ensures
        x == y,
{
    assert((x + t).len() == (y + t).len());
    assert((x + t).take(x.len() as int) =~= x);
    assert((y + t).take(y.len() as int) =~= y);
}

proof fn lemma_identity_reads_back(
    scope: Seq<char>,
    scope2: Seq<char>,
    a: Seq<Seq<char>>,
    b: Seq<Seq<char>>,
    p: Seq<char>,
    p2: Seq<char>,
    m: nat,
    n: nat,
    table: Seq<char>,
    table2: Seq<char>,
)
    requires
        identity_text(scope, a, p, text::digits(m), table) == identity_text(
            scope2,
            b,
            p2,
            text::digits(n),
            table2,
        ),
    ensures
        scope == scope2,
        a == b,
        p == p2,
        m == n,
        table == table2,
{
    reveal(identity_text);
    let t = tail_text(p, text::digits(m), table);
    let u = tail_text(p2, text::digits(n), table2);
    let sep = seq![','];
    let x = text::joined(json::encoded_list(json::text_values(a)), sep) + seq![']'] + (t + seq!['}']);
    let y = text::joined(json::encoded_list(json::text_values(b)), sep) + seq![']'] + (u + seq!['}']);
    let head = seq!['{'] + json::quoted("auth_scope"@) + seq![':'];
    let mid = seq![','] + json::quoted("columns"@) + seq![':', '['];
    lemma_cancel_front(head, json::quoted(scope) + (mid + x), json::quoted(scope2) + (mid + y));
    json::law_quoted_reads_back(scope, scope2, mid + x, mid + y);
    lemma_cancel_front(mid, x, y);
    json::lemma_text_list_reads_back(a, b, t + seq!['}'], u + seq!['}']);
    lemma_cancel_back(t, u, seq!['}']);
    lemma_tail_reads_back(p, p2, m, n, table, table2);
}

/// The canonical text of a shape tells everything that identifies it: shapes that differ in their
/// audience, in their columns, in the canonical text of their predicate, in the version of their
/// schema or in their table never have the same text.
pub proof fn law_text_tells_identities_apart(
    scope: Seq<char>,
    scope2: Seq<char>,
    columns: Seq<Seq<char>>,
    columns2: Seq<Seq<char>>,
    p: JsonView,
    p2: JsonView,
    version: u64,
    version2: u64,
    table: Seq<char>,
    table2: Seq<char>,
)
    requires
        json::encoded(identity_json(scope, columns, p, version, table)) == json::encoded(
            identity_json(scope2, columns2, p2, version2, table2),
        ),
    ensures
        scope == scope2,
        columns.to_multiset() == columns2.to_multiset(),
        json::encoded(p) == json::encoded(p2),
        version == version2,
        table == table2,
{
    lemma_identity_text(scope, columns, p, version, table);
    lemma_identity_text(scope2, columns2, p2, version2, table2);
    lemma_identity_reads_back(
        scope,
        scope2,
        sort::sorted(columns, text::order()),
        sort::sorted(columns2, text::order()),
        json::encoded(p),
        json::encoded(p2),
        version as nat,
        version2 as nat,
        table,
        table2,
    );
    sort::lemma_sorted_multiset(columns, text::order());
    sort::lemma_sorted_multiset(columns2, text::order());
}

/// Values with one handle have one canonical text, unless their texts are a collision of SHA-256.
pub proof fn lemma_handle_tells_texts_apart(v: JsonView, w: JsonView)
    requires
        json_handle(v) == json_handle(w),
        !collide(v, w),
    ensures
        json::encoded(v) == json::encoded(w),
{
    let (a, b) = (vstd::utf8::encode_utf8(json::encoded(v)), vstd::utf8::encode_utf8(json::encoded(w)));
    sha256::law_hex_tells_bytes_apart(sha256::digest(a), sha256::digest(b));
    vstd::utf8::encode_utf8_decode_utf8(json::encoded(v));
    vstd::utf8::encode_utf8_decode_utf8(json::encoded(w));
}

/// Whether the texts of two values are a collision of SHA-256: different bytes with one digest.
pub open spec fn collide(v: JsonView, w: JsonView) -> bool {
    let (a, b) = (vstd::utf8::encode_utf8(json::encoded(v)), vstd::utf8::encode_utf8(json::encoded(w)));
    a != b && sha256::digest(a) == sha256::digest(b)
}

/// A handle names one shape: barring a collision of SHA-256, shapes that differ in their audience,
/// in their columns, in the canonical text of their predicate, in the version of their schema or in
/// their table have different handles.
pub proof fn law_handles_tell_shapes_apart(s: ShapeView, t: ShapeView)
    requires
        shape_handle(s) == shape_handle(t),
        !collide(shape_json(s), shape_json(t)),
    ensures
        s.auth_scope == t.auth_scope,
        s.columns.to_multiset() == t.columns.to_multiset(),
        json::encoded(predicate_json(s.predicate)) == json::encoded(predicate_json(t.predicate)),
        s.schema_version == t.schema_version,
        s.table == t.table,
{
    lemma_handle_tells_texts_apart(shape_json(s), shape_json(t));
    law_text_tells_identities_apart(
        s.auth_scope,
        t.auth_scope,
        s.columns,
        t.columns,
        predicate_json(s.predicate),
        predicate_json(t.predicate),
        s.schema_version as u64,
        t.schema_version as u64,
        s.table,
        t.table,
    );
}

/// Whether two predicates agree up to the order and the repetition of the values of their
/// membership tests and the order of the parts of their conjunctions, at any depth. Values count as
/// the same where their compact texts are.
pub open spec fn equivalent(p: PredicateView, q: PredicateView) -> bool
    decreases p,
{
    match (p, q) {
        (PredicateView::In { column: c, values: v }, PredicateView::In { column: d, values: w }) => {
            &&& c == d
            &&& json::encoded_list(v).to_set() == json::encoded_list(w).to_set()
        },
        (PredicateView::And(a), PredicateView::And(b)) => exists|c: Seq<PredicateView>|
            {
                &&& c.to_multiset() == b.to_multiset()
                &&& #[trigger] c.len() == a.len()
                &&& forall|i: int| 0 <= i < a.len() ==> equivalent(#[trigger] a[i], c[i])
            },
        _ => p == q,
    }
}

proof fn lemma_predicate_texts_index(list: Seq<PredicateView>)
    ensures
        predicate_texts(list) == list.map_values(|p: PredicateView| json::encoded(predicate_json(p))),
    decreases list.len(),
{
    if list.len() > 0 {
        lemma_predicate_texts_index(list.drop_last());
        assert(predicate_jsons(list).drop_last() =~= predicate_jsons(list.drop_last()));
    }
    assert(predicate_texts(list) =~= list.map_values(|p: PredicateView| json::encoded(predicate_json(p))));
}

/// Predicates that agree up to order and repetition, at any depth, have one canonical text.
pub proof fn law_equivalent_predicates_have_one_text(p: PredicateView, q: PredicateView)
    requires
        equivalent(p, q),
    ensures
        json::encoded(predicate_json(p)) == json::encoded(predicate_json(q)),
    decreases p,
{
    match (p, q) {
        (PredicateView::In { column: c, values: v }, PredicateView::In { column: d, values: w }) => {
            assert(p->values == v && q->values == w);
            law_in_text_ignores_order_and_repetition(c, v, w);
        },
        (PredicateView::And(a), PredicateView::And(b)) => {
            assert(p->And_0 == a && q->And_0 == b);
            let c = choose|c: Seq<PredicateView>|
                {
                    &&& c.to_multiset() == b.to_multiset()
                    &&& #[trigger] c.len() == a.len()
                    &&& forall|i: int| 0 <= i < a.len() ==> equivalent(#[trigger] a[i], c[i])
                };
            let f = |p: PredicateView| json::encoded(predicate_json(p));
            lemma_predicate_texts_index(a);
            lemma_predicate_texts_index(b);
            assert forall|i: int| 0 <= i < a.len() implies f(#[trigger] a[i]) == f(c[i]) by {
                law_equivalent_predicates_have_one_text(a[i], c[i]);
            }
            assert(a.map_values(f) =~= c.map_values(f));
            sort::lemma_map_ignores_order(c, b, f);
            law_and_text_ignores_order(a, b);
        },
        _ => {},
    }
}

/// Shapes of one table, audience and version that have the same columns in any order, and whose
/// predicates agree up to order and repetition at any depth, are one shape: they have one canonical
/// text and one handle.
pub proof fn law_equivalent_shapes_are_one(s: ShapeView, t: ShapeView)
    requires
        s.table == t.table,
        s.auth_scope == t.auth_scope,
        s.schema_version == t.schema_version,
        s.columns.to_multiset() == t.columns.to_multiset(),
        equivalent(s.predicate, t.predicate),
    ensures
        json::encoded(shape_json(s)) == json::encoded(shape_json(t)),
        shape_handle(s) == shape_handle(t),
{
    law_equivalent_predicates_have_one_text(s.predicate, t.predicate);
    law_handle_ignores_order(s, t);
}

/// The canonical list of the values of a membership test has the values of the test: every value of
/// the test is in it, by its compact text, and it has no other, no text twice, and all of them in the
/// order of their texts.
pub proof fn law_canonical_values_are_the_values(values: Seq<JsonView>)
    ensures
        ({
            let c = canonical_values(values);
            &&& forall|i: int| 0 <= i < c.len() ==> values.contains(#[trigger] c[i])
            &&& forall|i: int|
                0 <= i < values.len() ==> exists|j: int|
                    0 <= j < c.len() && json::encoded(#[trigger] c[j]) == json::encoded(#[trigger] values[i])
            &&& forall|i: int|
                0 <= i < c.len() - 1 ==> json::encoded(#[trigger] c[i]) != json::encoded(c[i + 1]) && text::leq(
                    json::encoded(c[i]),
                    json::encoded(c[i + 1]),
                )
        }),
{
    let s = sort::sorted(values, by_encoding());
    let c = canonical_values(values);
    sort::lemma_deduped_members(s, same_encoding());
    sort::lemma_sorted_multiset(values, by_encoding());
    s.to_multiset_ensures();
    values.to_multiset_ensures();
    assert forall|i: int| 0 <= i < c.len() implies values.contains(#[trigger] c[i]) by {
        assert(s.contains(c[i]));
        assert(s.to_multiset().count(c[i]) > 0);
        assert(values.to_multiset().count(c[i]) > 0);
    }
    assert forall|i: int| 0 <= i < values.len() implies exists|j: int|
        0 <= j < c.len() && json::encoded(#[trigger] c[j]) == json::encoded(#[trigger] values[i]) by {
        assert(values.contains(values[i]));
        assert(values.to_multiset().count(values[i]) > 0);
        assert(s.contains(values[i]));
        let k = choose|k: int| 0 <= k < s.len() && s[k] == values[i];
        let j = choose|j: int| 0 <= j < c.len() && same_encoding()(#[trigger] c[j], s[k]);
        assert(json::encoded(c[j]) == json::encoded(values[i]));
    }
    text::lemma_order_is_total();
    let r = text::order();
    assert forall|a: JsonView, b: JsonView| #[trigger] by_encoding()(a, b) || by_encoding()(b, a) by {
        assert(r(json::encoded(a), json::encoded(b)) || r(json::encoded(b), json::encoded(a)));
    }
    sort::lemma_sorted_in_steps(values, by_encoding());
    sort::lemma_deduped_in_steps(s, by_encoding(), same_encoding());
    assert forall|i: int| 0 <= i < c.len() - 1 implies json::encoded(#[trigger] c[i]) != json::encoded(c[i + 1])
        && text::leq(json::encoded(c[i]), json::encoded(c[i + 1])) by {
        assert(!same_encoding()(c[i], c[i + 1]));
        assert(by_encoding()(c[i], c[i + 1]));
    }
}

/// The JSON of a predicate says what the predicate is: its kind, its column and its value; of a
/// membership test the canonical list of its values; of a conjunction the JSON of each of its parts,
/// in some order.
pub proof fn law_predicate_json_says_what_it_is(p: PredicateView)
    ensures
        ({
            let v = predicate_json(p);
            match p {
                PredicateView::All => json::field(v, "type"@) == Some(JsonView::Text("all"@)),
                PredicateView::Eq { column, value } => {
                    &&& json::field(v, "type"@) == Some(JsonView::Text("eq"@))
                    &&& json::field(v, "column"@) == Some(JsonView::Text(column))
                    &&& json::field(v, "value"@) == Some(value)
                },
                PredicateView::Range { op, column, value } => {
                    &&& json::field(v, "type"@) == Some(JsonView::Text(predicate::op_key(op)))
                    &&& json::field(v, "column"@) == Some(JsonView::Text(column))
                    &&& json::field(v, "value"@) == Some(value)
                },
                PredicateView::In { column, values } => {
                    &&& json::field(v, "type"@) == Some(JsonView::Text("in"@))
                    &&& json::field(v, "column"@) == Some(JsonView::Text(column))
                    &&& json::field(v, "values"@) == Some(JsonView::Array(canonical_values(values)))
                },
                PredicateView::And(children) => {
                    &&& json::field(v, "type"@) == Some(JsonView::Text("and"@))
                    &&& json::field(v, "predicates"@) matches Some(JsonView::Array(list))
                    &&& list.to_multiset() == children.map_values(|c: PredicateView| predicate_json(c)).to_multiset()
                },
            }
        }),
{
    reveal_strlit("type");
    reveal_strlit("column");
    reveal_strlit("value");
    reveal_strlit("values");
    reveal_strlit("predicates");
    let (t, c, x, y, z) = ("type"@, "column"@, "value"@, "values"@, "predicates"@);
    assert(t[0] == 't' && c[0] == 'c' && x[0] == 'v' && y[0] == 'v' && z[0] == 'p');
    match p {
        PredicateView::All => json::lemma_lookups_after_put(no_entries(), t, JsonView::Text("all"@)),
        PredicateView::Eq { column, value } => lemma_compared_lookups("eq"@, column, x, value),
        PredicateView::Range { op, column, value } => lemma_compared_lookups(
            predicate::op_key(op),
            column,
            x,
            value,
        ),
        PredicateView::In { column, values } => {
            assert(p->values == values);
            lemma_compared_lookups("in"@, column, y, JsonView::Array(canonical_values(values)));
        },
        PredicateView::And(children) => {
            assert(p->And_0 == children);
            let js = predicate_jsons(children);
            let list = sort::sorted(js, by_encoding());
            let e = json::put(no_entries(), t, JsonView::Text("and"@));
            json::lemma_lookups_after_put(no_entries(), t, JsonView::Text("and"@));
            json::lemma_lookups_after_put(e, z, JsonView::Array(list));
            sort::lemma_sorted_multiset(js, by_encoding());
            lemma_predicate_jsons(children);
        },
    }
}

proof fn lemma_predicate_jsons(list: Seq<PredicateView>)
    ensures
        predicate_jsons(list) == list.map_values(|c: PredicateView| predicate_json(c)),
    decreases list.len(),
{
    let f = |c: PredicateView| predicate_json(c);
    if list.len() > 0 {
        lemma_predicate_jsons(list.drop_last());
        assert(list.map_values(f) =~= list.drop_last().map_values(f).push(f(list.last())));
    } else {
        assert(list.map_values(f) =~= Seq::empty());
    }
}

proof fn lemma_compared_lookups(kind: Seq<char>, column: Seq<char>, name: Seq<char>, value: JsonView)
    requires
        "type"@ != "column"@,
        name != "type"@,
        name != "column"@,
    ensures
        json::field(compared_json(kind, column, name, value), "type"@) == Some(JsonView::Text(kind)),
        json::field(compared_json(kind, column, name, value), "column"@) == Some(JsonView::Text(column)),
        json::field(compared_json(kind, column, name, value), name) == Some(value),
{
    let e1 = json::put(no_entries(), "type"@, JsonView::Text(kind));
    let e2 = json::put(e1, "column"@, JsonView::Text(column));
    json::lemma_lookups_after_put(no_entries(), "type"@, JsonView::Text(kind));
    json::lemma_lookups_after_put(e1, "column"@, JsonView::Text(column));
    json::lemma_lookups_after_put(e2, name, value);
}

/// The identity of a shape is what its canonical JSON says: each of the five fields reads back, the
/// columns in the order of their names.
pub proof fn law_shape_json_reads_back(s: ShapeView)
    ensures
        json::field(shape_json(s), "auth_scope"@) == Some(JsonView::Text(s.auth_scope)),
        json::field(shape_json(s), "predicate"@) == Some(predicate_json(s.predicate)),
        json::field(shape_json(s), "schema_version"@) == Some(
            JsonView::Number(NumberView::PosInt(s.schema_version as u64)),
        ),
        json::field(shape_json(s), "table"@) == Some(JsonView::Text(s.table)),
        json::field(shape_json(s), "columns"@) matches Some(JsonView::Array(list)) && {
            &&& list.len() == s.columns.len()
            &&& list.to_multiset() == s.columns.map_values(|c: Seq<char>| JsonView::Text(c)).to_multiset()
        },
{
    reveal_strlit("auth_scope");
    reveal_strlit("columns");
    reveal_strlit("predicate");
    reveal_strlit("schema_version");
    reveal_strlit("table");
    let (a, c, p, v, t) = ("auth_scope"@, "columns"@, "predicate"@, "schema_version"@, "table"@);
    assert(a[0] == 'a' && c[0] == 'c' && p[0] == 'p' && v[0] == 's' && t[0] == 't');
    let ordered = sort::sorted(s.columns, text::order());
    let list = JsonView::Array(json::text_values(ordered));
    let version = JsonView::Number(NumberView::PosInt(s.schema_version as u64));
    let e1 = json::put(no_entries(), a, JsonView::Text(s.auth_scope));
    let e2 = json::put(e1, c, list);
    let e3 = json::put(e2, p, predicate_json(s.predicate));
    let e4 = json::put(e3, v, version);
    json::lemma_lookups_after_put(no_entries(), a, JsonView::Text(s.auth_scope));
    json::lemma_lookups_after_put(e1, c, list);
    json::lemma_lookups_after_put(e2, p, predicate_json(s.predicate));
    json::lemma_lookups_after_put(e3, v, version);
    json::lemma_lookups_after_put(e4, t, JsonView::Text(s.table));
    sort::lemma_sorted_multiset(s.columns, text::order());
    let f = |c: Seq<char>| JsonView::Text(c);
    sort::lemma_map_ignores_order(ordered, s.columns, f);
    ordered.to_multiset_ensures();
    s.columns.to_multiset_ensures();
    assert(json::text_values(ordered) =~= ordered.map_values(f));
}

} // verus!

//! Predicates read from JSON.
use vstd::prelude::*;
use crate::engine::predicate;
use crate::engine::predicate::{Predicate, PredicateView, RangeOp};
use crate::engine::shape;
use crate::json;
use crate::json::{Json, JsonView};
use crate::sort;
use crate::text;

verus! {

/// The text under a key.
pub open spec fn text_field(v: JsonView, key: Seq<char>) -> Option<Seq<char>> {
    match json::field(v, key) {
        Some(f) => json::text_of(f),
        None => None,
    }
}

/// The column of a predicate.
pub open spec fn column_of(v: JsonView) -> Result<Seq<char>, Seq<char>> {
    match text_field(v, "column"@) {
        Some(c) => Ok(c),
        None => Err("predicate needs a column"@),
    }
}

/// The value of a predicate.
pub open spec fn value_of(v: JsonView) -> Result<JsonView, Seq<char>> {
    match json::field(v, "value"@) {
        Some(x) => Ok(x),
        None => Err("predicate needs a value"@),
    }
}

proof fn lemma_lookup_smaller(entries: Seq<(Seq<char>, JsonView)>, key: Seq<char>)
    ensures
        json::lookup(entries, key) matches Some(x) ==> exists|i: int|
            0 <= i < entries.len() && (#[trigger] entries[i]).1 == x,
    decreases entries.len(),
{
    if entries.len() > 0 {
        if entries.last().0 == key {
            assert(entries[entries.len() - 1].1 == entries.last().1);
        } else {
            lemma_lookup_smaller(entries.drop_last(), key);
            if let Some(x) = json::lookup(entries.drop_last(), key) {
                let i = choose|i: int|
                    0 <= i < entries.drop_last().len() && (#[trigger] entries.drop_last()[i]).1 == x;
                assert(entries[i].1 == x);
            }
        }
    }
}

proof fn lemma_field_smaller(v: JsonView, key: Seq<char>)
    ensures
        json::field(v, key) matches Some(x) ==> decreases_to!(v => x),
{
    if let JsonView::Object(entries) = v {
        lemma_lookup_smaller(entries, key);
        if let Some(x) = json::lookup(entries, key) {
            let i = choose|i: int| 0 <= i < entries.len() && (#[trigger] entries[i]).1 == x;
            assert(decreases_to!(v => v->Object_0));
            assert(decreases_to!(entries => entries[i]));
            assert(decreases_to!(entries[i] => entries[i].1));
        }
    }
}

/// The predicate that a JSON value stands for, or what is wrong with it.
pub open spec fn parsed(v: JsonView) -> Result<PredicateView, Seq<char>>
    decreases v,
    via parsed_decreases
{
    match text_field(v, "type"@) {
        None => Err("predicate needs a type"@),
        Some(kind) => if kind == "all"@ {
            Ok(PredicateView::All)
        } else if kind == "and"@ {
            match json::field(v, "predicates"@) {
                Some(JsonView::Array(list)) => match parsed_list(list) {
                    Ok(children) => Ok(PredicateView::And(children)),
                    Err(e) => Err(e),
                },
                _ => Err("predicate needs predicates"@),
            }
        } else {
            parsed_column(v, kind)
        },
    }
}

/// The predicate on one column that a JSON value stands for, or what is wrong with it.
pub open spec fn parsed_column(v: JsonView, kind: Seq<char>) -> Result<PredicateView, Seq<char>> {
    if kind == "in"@ {
        match (column_of(v), json::field(v, "values"@)) {
            (Err(e), _) => Err(e),
            (Ok(column), Some(JsonView::Array(values))) => Ok(PredicateView::In { column, values }),
            (Ok(_), _) => Err("predicate needs values"@),
        }
    } else if kind == "eq"@ {
        match (column_of(v), value_of(v)) {
            (Err(e), _) => Err(e),
            (Ok(_), Err(e)) => Err(e),
            (Ok(column), Ok(value)) => Ok(PredicateView::Eq { column, value }),
        }
    } else {
        match predicate::op_of_key(kind) {
            None => Err("unknown predicate type "@ + kind),
            Some(op) => match (column_of(v), value_of(v)) {
                (Err(e), _) => Err(e),
                (Ok(_), Err(e)) => Err(e),
                (Ok(column), Ok(value)) => Ok(PredicateView::Range { op, column, value }),
            },
        }
    }
}

/// The predicates that some JSON values stand for, or the first error among them.
pub open spec fn parsed_list(list: Seq<JsonView>) -> Result<Seq<PredicateView>, Seq<char>>
    decreases list,
    via parsed_list_decreases
{
    if list.len() == 0 {
        Ok(Seq::empty())
    } else {
        match parsed_list(list.drop_last()) {
            Err(e) => Err(e),
            Ok(front) => match parsed(list.last()) {
                Err(e) => Err(e),
                Ok(p) => Ok(front.push(p)),
            },
        }
    }
}

#[via_fn]
proof fn parsed_decreases(v: JsonView) {
    lemma_field_smaller(v, "predicates"@);
    if let Some(x) = json::field(v, "predicates"@) {
        if let JsonView::Array(list) = x {
            assert(decreases_to!(x => x->Array_0));
        }
    }
}

#[via_fn]
proof fn parsed_list_decreases(list: Seq<JsonView>) {
}

/// The model of a result.
pub open spec fn parse_result(r: Result<Predicate, String>) -> Result<PredicateView, Seq<char>> {
    match r {
        Ok(p) => Ok(p@),
        Err(e) => Err(e@),
    }
}

/// The model of a result.
pub open spec fn parse_list_result(r: Result<Vec<Predicate>, String>) -> Result<Seq<PredicateView>, Seq<char>> {
    match r {
        Ok(p) => Ok(predicate::predicate_views(p@)),
        Err(e) => Err(e@),
    }
}

fn get_text<'a>(v: &'a Json, key: &str) -> (r: Option<&'a String>)
    ensures
        match r {
            Some(s) => text_field(v@, key@) == Some(s@),
            None => text_field(v@, key@) is None,
        },
{
    match v.get(key) {
        Some(f) => f.as_text(),
        None => None,
    }
}

fn get_column(v: &Json) -> (r: Result<String, String>)
    ensures
        (match r {
            Ok(c) => Ok(c@),
            Err(e) => Err(e@),
        }) == column_of(v@),
{
    match get_text(v, "column") {
        Some(c) => Ok(c.clone()),
        None => Err("predicate needs a column".to_string()),
    }
}

fn get_value(v: &Json) -> (r: Result<Json, String>)
    ensures
        (match r {
            Ok(c) => Ok(c@),
            Err(e) => Err(e@),
        }) == value_of(v@),
{
    match v.get("value") {
        Some(x) => Ok(x.clone()),
        None => Err("predicate needs a value".to_string()),
    }
}

fn parse_column(v: &Json, kind: &str) -> (r: Result<Predicate, String>)
    ensures
        parse_result(r) == parsed_column(v@, kind@),
{
    if text::same_text(kind, "in") {
        let column = match get_column(v) {
            Ok(c) => c,
            Err(e) => {
                return Err(e);
            },
        };
        return match v.get("values") {
            Some(Json::Array(values)) => {
                proof {
                    json::lemma_array_view(*values);
                }
                Ok(Predicate::In { column, values: json::copy_list(values) })
            },
            _ => Err("predicate needs values".to_string()),
        };
    }
    let op = if text::same_text(kind, "eq") {
        None
    } else {
        match RangeOp::from_key(kind) {
            Some(op) => Some(op),
            None => {
                let mut message = "unknown predicate type ".to_string();
                message.append(kind);
                return Err(message);
            },
        }
    };
    let column = match get_column(v) {
        Ok(c) => c,
        Err(e) => {
            return Err(e);
        },
    };
    let value = match get_value(v) {
        Ok(x) => x,
        Err(e) => {
            return Err(e);
        },
    };
    match op {
        Some(op) => Ok(Predicate::Range { op, column, value }),
        None => Ok(Predicate::Eq { column, value }),
    }
}

proof fn lemma_list_error_stays(list: Seq<JsonView>, k: int)
    requires
        0 <= k <= list.len(),
        parsed_list(list.take(k)) is Err,
    ensures
        parsed_list(list) == parsed_list(list.take(k)),
    decreases list.len() - k,
{
    if k == list.len() {
        assert(list.take(k) =~= list);
    } else {
        assert(list.take(k + 1).drop_last() =~= list.take(k));
        lemma_list_error_stays(list, k + 1);
    }
}

fn parse_children(list: &Vec<Json>) -> (r: Result<Vec<Predicate>, String>)
    ensures
        parse_list_result(r) == parsed_list(json::views(list@)),
    decreases list,
{
    let ghost vs = json::views(list@);
    let mut out: Vec<Predicate> = Vec::new();
    let mut i: usize = 0;
    assert(predicate::predicate_views(out@) =~= Seq::empty());
    while i < list.len()
        invariant
            i <= list@.len(),
            vs == json::views(list@),
            parsed_list(vs.take(i as int)) == Ok::<Seq<PredicateView>, Seq<char>>(
                predicate::predicate_views(out@),
            ),
        decreases list@.len() - i,
    {
        assert(vs.take(i + 1).drop_last() =~= vs.take(i as int));
        assert(vs.take(i + 1).last() == list@[i as int]@);
        assert(decreases_to!(list => list@[i as int]));
        match predicate_from_json(&list[i]) {
            Ok(p) => {
                let ghost before = predicate::predicate_views(out@);
                out.push(p);
                assert(predicate::predicate_views(out@) =~= before.push(p@));
            },
            Err(e) => {
                proof {
                    lemma_list_error_stays(vs, i + 1);
                }
                return Err(e);
            },
        }
        i += 1;
    }
    assert(vs.take(list@.len() as int) =~= vs);
    Ok(out)
}

/// The predicate that a JSON value stands for, or what is wrong with it.
pub fn predicate_from_json(v: &Json) -> (r: Result<Predicate, String>)
    ensures
        parse_result(r) == parsed(v@),
    decreases v,
{
    let kind = match get_text(v, "type") {
        Some(kind) => kind,
        None => {
            return Err("predicate needs a type".to_string());
        },
    };
    if text::same_text(kind.as_str(), "all") {
        return Ok(Predicate::All);
    }
    if text::same_text(kind.as_str(), "and") {
        let o = match v {
            Json::Object(o) => o,
            _ => {
                return Err("predicate needs predicates".to_string());
            },
        };
        return match o.get("predicates") {
            Some(Json::Array(list)) => {
                proof {
                    json::lemma_array_view(*list);
                }
                match parse_children(list) {
                    Ok(children) => {
                        proof {
                            predicate::lemma_and_view(children);
                        }
                        Ok(Predicate::And(children))
                    },
                    Err(e) => Err(e),
                }
            },
            _ => Err("predicate needs predicates".to_string()),
        };
    }
    parse_column(v, kind.as_str())
}

proof fn lemma_encoding_order()
    ensures
        forall|a: JsonView, b: JsonView| #[trigger] shape::by_encoding()(a, b) || shape::by_encoding()(b, a),
        forall|a: JsonView| #[trigger] shape::same_encoding()(a, a),
        forall|a: JsonView, b: JsonView, c: JsonView|
            #[trigger] shape::same_encoding()(a, b) && #[trigger] shape::by_encoding()(b, c)
                ==> shape::by_encoding()(a, c),
{
    text::lemma_order_is_total();
    let r = text::order();
    assert forall|a: JsonView, b: JsonView| #[trigger] shape::by_encoding()(a, b) || shape::by_encoding()(
        b,
        a,
    ) by {
        assert(r(json::encoded(a), json::encoded(b)) || r(json::encoded(b), json::encoded(a)));
    }
}

proof fn lemma_canonical_again(values: Seq<JsonView>)
    ensures
        shape::canonical_values(shape::canonical_values(values)) == shape::canonical_values(values),
{
    let s = sort::sorted(values, shape::by_encoding());
    lemma_encoding_order();
    sort::lemma_sorted_in_steps(values, shape::by_encoding());
    sort::lemma_deduped_in_steps(s, shape::by_encoding(), shape::same_encoding());
    let d = sort::deduped(s, shape::same_encoding());
    sort::lemma_sorting_again(d, shape::by_encoding());
    sort::lemma_deduping_again(d, shape::same_encoding());
}

proof fn lemma_compared_fields(kind: Seq<char>, column: Seq<char>, name: Seq<char>, value: JsonView)
    requires
        name != "type"@,
        name != "column"@,
    ensures
        json::field(shape::compared_json(kind, column, name, value), "type"@) == Some(JsonView::Text(kind)),
        json::field(shape::compared_json(kind, column, name, value), "column"@) == Some(JsonView::Text(column)),
        json::field(shape::compared_json(kind, column, name, value), name) == Some(value),
{
    reveal_strlit("type");
    reveal_strlit("column");
    assert("type"@.len() == 4 && "column"@.len() == 6);
    let e0 = shape::no_entries();
    let e1 = json::put(e0, "type"@, JsonView::Text(kind));
    let e2 = json::put(e1, "column"@, JsonView::Text(column));
    json::law_put_then_lookup(e0, "type"@, JsonView::Text(kind), "column"@);
    json::law_put_then_lookup(e1, "column"@, JsonView::Text(column), "type"@);
    json::law_put_then_lookup(e2, name, value, "type"@);
    json::law_put_then_lookup(e2, name, value, "column"@);
}

proof fn lemma_kinds_differ()
    ensures
        "all"@ != "and"@,
        "eq"@ != "all"@ && "eq"@ != "and"@ && "eq"@ != "in"@,
        "in"@ != "all"@ && "in"@ != "and"@,
        forall|op: RangeOp|
            #[trigger] predicate::op_key(op) != "all"@ && predicate::op_key(op) != "and"@ && predicate::op_key(op)
                != "in"@ && predicate::op_key(op) != "eq"@,
        "value"@ != "type"@ && "value"@ != "column"@,
        "values"@ != "type"@ && "values"@ != "column"@,
        "predicates"@ != "type"@,
{
    reveal_strlit("all");
    reveal_strlit("and");
    reveal_strlit("eq");
    reveal_strlit("in");
    reveal_strlit("gt");
    reveal_strlit("lt");
    reveal_strlit("gte");
    reveal_strlit("lte");
    reveal_strlit("value");
    reveal_strlit("values");
    reveal_strlit("type");
    reveal_strlit("column");
    reveal_strlit("predicates");
    assert("all"@[1] == 'l' && "and"@[1] == 'n');
    assert("all"@.len() == 3 && "and"@.len() == 3 && "eq"@.len() == 2 && "in"@.len() == 2);
    assert("eq"@[0] == 'e' && "in"@[0] == 'i' && "all"@[0] == 'a' && "and"@[0] == 'a');
    assert("gt"@.len() == 2 && "lt"@.len() == 2 && "gte"@.len() == 3 && "lte"@.len() == 3);
    assert("gt"@[0] == 'g' && "lt"@[0] == 'l' && "gte"@[0] == 'g' && "lte"@[0] == 'l');
    assert("value"@.len() == 5 && "values"@.len() == 6 && "type"@.len() == 4 && "column"@.len() == 6);
    assert("values"@[0] == 'v' && "column"@[0] == 'c');
    assert("predicates"@.len() == 10);
}

proof fn lemma_list_reads_back(list: Seq<JsonView>)
    requires
        forall|i: int|
            0 <= i < list.len() ==> (parsed(#[trigger] list[i]) matches Ok(q) && shape::predicate_json(q)
                == list[i]),
    ensures
        parsed_list(list) matches Ok(qs) && shape::predicate_jsons(qs) == list,
    decreases list.len(),
{
    if list.len() == 0 {
        assert(shape::predicate_jsons(Seq::empty()) =~= list);
    } else {
        let front = list.drop_last();
        assert forall|i: int| 0 <= i < front.len() implies (parsed(#[trigger] front[i]) matches Ok(q)
            && shape::predicate_json(q) == front[i]) by {
            assert(front[i] == list[i]);
        }
        lemma_list_reads_back(front);
        assert(parsed(list[list.len() - 1]) is Ok);
        let fs = parsed_list(front)->Ok_0;
        let q = parsed(list.last())->Ok_0;
        assert(fs.push(q).drop_last() =~= fs);
        assert(shape::predicate_jsons(fs.push(q)) =~= list);
    }
}

proof fn lemma_jsons_index(list: Seq<PredicateView>, i: int)
    requires
        0 <= i < shape::predicate_jsons(list).len(),
    ensures
        i < list.len(),
        shape::predicate_jsons(list)[i] == shape::predicate_json(list[i]),
    decreases list.len(),
{
    if list.len() > 0 {
        if i < shape::predicate_jsons(list.drop_last()).len() {
            lemma_jsons_index(list.drop_last(), i);
        } else if list.len() > 1 {
            lemma_jsons_len(list.drop_last());
        } else {
            assert(shape::predicate_jsons(list.drop_last()).len() == 0);
        }
    }
}

proof fn lemma_jsons_len(list: Seq<PredicateView>)
    ensures
        shape::predicate_jsons(list).len() == list.len(),
    decreases list.len(),
{
    if list.len() > 0 {
        lemma_jsons_len(list.drop_last());
    }
}

/// A predicate written as JSON is read again: what is read has the same JSON, so it names the same
/// shape.
pub proof fn law_predicate_json_reads_back(p: PredicateView)
    ensures
        parsed(shape::predicate_json(p)) matches Ok(q) && shape::predicate_json(q) == shape::predicate_json(p),
    decreases p,
{
    lemma_kinds_differ();
    predicate::law_op_keys_are_distinct();
    match p {
        PredicateView::All => {
            json::law_put_then_lookup(shape::no_entries(), "type"@, JsonView::Text("all"@), "value"@);
        },
        PredicateView::Eq { column, value } => {
            lemma_compared_fields("eq"@, column, "value"@, value);
        },
        PredicateView::Range { op, column, value } => {
            lemma_compared_fields(predicate::op_key(op), column, "value"@, value);
        },
        PredicateView::In { column, values } => {
            let vs = shape::canonical_values(values);
            lemma_compared_fields("in"@, column, "values"@, JsonView::Array(vs));
            lemma_canonical_again(values);
        },
        PredicateView::And(children) => {
            let js = shape::predicate_jsons(children);
            let s = sort::sorted(js, shape::by_encoding());
            let e = json::put(shape::no_entries(), "type"@, JsonView::Text("and"@));
            json::law_put_then_lookup(shape::no_entries(), "type"@, JsonView::Text("and"@), "predicates"@);
            json::law_put_then_lookup(e, "predicates"@, JsonView::Array(s), "type"@);
            sort::lemma_sorted_multiset(js, shape::by_encoding());
            assert forall|i: int| 0 <= i < s.len() implies (parsed(#[trigger] s[i]) matches Ok(q)
                && shape::predicate_json(q) == s[i]) by {
                broadcast use vstd::seq_lib::group_to_multiset_ensures;
                assert(s.to_multiset().contains(s[i]));
                assert(js.contains(s[i]));
                let k = choose|k: int| 0 <= k < js.len() && js[k] == s[i];
                lemma_jsons_index(children, k);
                assert(p->And_0 == children);
                law_predicate_json_reads_back(children[k]);
            }
            lemma_list_reads_back(s);
            let qs = parsed_list(s)->Ok_0;
            lemma_encoding_order();
            sort::lemma_sorted_in_steps(js, shape::by_encoding());
            sort::lemma_sorting_again(s, shape::by_encoding());
            let v = shape::predicate_json(p);
            assert(json::field(v, "predicates"@) == Some(JsonView::Array(s)));
            assert(parsed(v) == Ok::<PredicateView, Seq<char>>(PredicateView::And(qs)));
        },
    }
}

/// Whether a value has a text under a key.
pub open spec fn says(v: JsonView, key: Seq<char>, s: Seq<char>) -> bool {
    json::field(v, key) == Some(JsonView::Text(s))
}

/// A predicate is read from its fields: its kind from the type, its column, and its value or its
/// values as they are.
pub proof fn law_predicates_are_read_from_their_fields(
    v: JsonView,
    column: Seq<char>,
    value: JsonView,
    values: Seq<JsonView>,
)
    requires
        says(v, "column"@, column),
    ensures
        says(v, "type"@, "all"@) ==> parsed(v) == Ok::<PredicateView, Seq<char>>(PredicateView::All),
        says(v, "type"@, "eq"@) && json::field(v, "value"@) == Some(value) ==> parsed(v) == Ok::<
            PredicateView,
            Seq<char>,
        >(PredicateView::Eq { column, value }),
        forall|op: RangeOp|
            says(v, "type"@, #[trigger] predicate::op_key(op)) && json::field(v, "value"@) == Some(value)
                ==> parsed(v) == Ok::<PredicateView, Seq<char>>(PredicateView::Range { op, column, value }),
        says(v, "type"@, "in"@) && json::field(v, "values"@) == Some(JsonView::Array(values)) ==> parsed(v) == Ok::<
            PredicateView,
            Seq<char>,
        >(PredicateView::In { column, values }),
{
    lemma_kinds_differ();
    predicate::law_op_keys_are_distinct();
    assert(JsonView::Array(values)->Array_0 == values);
    assert forall|op: RangeOp|
        says(v, "type"@, #[trigger] predicate::op_key(op)) && json::field(v, "value"@) == Some(value) implies parsed(
        v,
    ) == Ok::<PredicateView, Seq<char>>(PredicateView::Range { op, column, value }) by {
        assert(predicate::op_of_key(predicate::op_key(op)) == Some(op));
    }
}

/// A conjunction is read part by part: as many predicates as there are parts, each that of the part
/// at its place. It is refused where one of them is.
pub proof fn law_conjunctions_are_read_part_by_part(list: Seq<JsonView>)
    ensures
        parsed_list(list) is Ok <==> forall|i: int| 0 <= i < list.len() ==> (#[trigger] parsed(list[i])) is Ok,
        parsed_list(list) matches Ok(ps) ==> {
            &&& ps.len() == list.len()
            &&& forall|i: int| 0 <= i < list.len() ==> #[trigger] parsed(list[i]) == Ok::<PredicateView, Seq<char>>(ps[i])
        },
        forall|v: JsonView|
            says(v, "type"@, "and"@) && #[trigger] json::field(v, "predicates"@) == Some(JsonView::Array(list))
                ==> match parsed_list(list) {
                Ok(ps) => parsed(v) == Ok::<PredicateView, Seq<char>>(PredicateView::And(ps)),
                Err(e) => parsed(v) == Err::<PredicateView, Seq<char>>(e),
            },
    decreases list.len(),
{
    lemma_kinds_differ();
    if list.len() > 0 {
        let front = list.drop_last();
        law_conjunctions_are_read_part_by_part(front);
        assert(forall|i: int| 0 <= i < front.len() ==> #[trigger] front[i] == list[i]);
        assert(list[list.len() - 1] == list.last());
        match parsed_list(front) {
            Ok(ps) => {
                assert forall|i: int| 0 <= i < front.len() implies #[trigger] parsed(list[i]) == Ok::<
                    PredicateView,
                    Seq<char>,
                >(ps[i]) by {
                    assert(parsed(front[i]) == Ok::<PredicateView, Seq<char>>(ps[i]));
                }
                if let Ok(p) = parsed(list.last()) {
                    assert(parsed_list(list) == Ok::<Seq<PredicateView>, Seq<char>>(ps.push(p)));
                }
            },
            Err(_) => {
                let i = choose|i: int| 0 <= i < front.len() && !((#[trigger] parsed(front[i])) is Ok);
                assert(!(parsed(list[i]) is Ok));
            },
        }
    }
}

/// What is no predicate is refused: a value without a type, one of an unknown type, and one that
/// lacks a field that its type needs.
pub proof fn law_other_values_are_no_predicates(v: JsonView)
    ensures
        parsed(v) is Ok ==> exists|kind: Seq<char>| #[trigger]
            says(v, "type"@, kind) && (kind == "all"@ || kind == "and"@ || {
                &&& json::field(v, "column"@) matches Some(c)
                &&& c is Text
                &&& kind == "in"@ ==> (json::field(v, "values"@) matches Some(x) && x is Array)
                &&& kind != "in"@ ==> json::field(v, "value"@) is Some
                &&& kind == "in"@ || kind == "eq"@ || exists|op: RangeOp| kind == #[trigger] predicate::op_key(op)
            }),
{
    lemma_kinds_differ();
    predicate::law_op_keys_are_distinct();
    if let Ok(p) = parsed(v) {
        let kind = text_field(v, "type"@)->0;
        assert(says(v, "type"@, kind));
        if kind != "all"@ && kind != "and"@ && kind != "in"@ && kind != "eq"@ {
            let op = predicate::op_of_key(kind)->0;
            assert(kind == predicate::op_key(op));
        }
    }
}

/// What is refused says what is missing.
pub proof fn law_refusals_say_what_is_missing(v: JsonView, kind: Seq<char>)
    ensures
        json::field(v, "type"@) is None ==> parsed(v) == Err::<PredicateView, Seq<char>>("predicate needs a type"@),
        says(v, "type"@, "and"@) && json::field(v, "predicates"@) is None ==> parsed(v) == Err::<
            PredicateView,
            Seq<char>,
        >("predicate needs predicates"@),
        says(v, "type"@, kind) && (kind == "eq"@ || kind == "in"@) && json::field(v, "column"@) is None ==> parsed(v)
            == Err::<PredicateView, Seq<char>>("predicate needs a column"@),
        says(v, "type"@, "eq"@) && json::field(v, "value"@) is None && (json::field(v, "column"@) matches Some(c)
            && c is Text) ==> parsed(v) == Err::<PredicateView, Seq<char>>("predicate needs a value"@),
        says(v, "type"@, "in"@) && json::field(v, "values"@) is None && (json::field(v, "column"@) matches Some(c)
            && c is Text) ==> parsed(v) == Err::<PredicateView, Seq<char>>("predicate needs values"@),
        says(v, "type"@, kind) && kind != "all"@ && kind != "and"@ && kind != "in"@ && kind != "eq"@ && (forall|
            op: RangeOp,
        | kind != #[trigger] predicate::op_key(op)) ==> parsed(v) == Err::<PredicateView, Seq<char>>(
            "unknown predicate type "@ + kind,
        ),
{
    lemma_kinds_differ();
    predicate::law_op_keys_are_distinct();
    if predicate::op_of_key(kind) is Some {
        let op = predicate::op_of_key(kind)->0;
        assert(kind == predicate::op_key(op));
    }
}

} // verus!

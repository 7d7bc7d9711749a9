//! Predicates as SQL conditions with bound values.
use vstd::prelude::*;
use crate::engine::condition;
use crate::engine::predicate;
use crate::engine::predicate::{Predicate, PredicateView};
use crate::json;
use crate::json::{Json, JsonView};
use crate::sql;
use crate::sql::{SqlValue, SqlView};
use crate::text;

verus! {

/// A text in parentheses.
pub open spec fn parens(s: Seq<char>) -> Seq<char> {
    "("@ + s + ")"@
}

/// The values that are not null, in their order.
pub open spec fn non_null(values: Seq<JsonView>) -> Seq<JsonView>
    decreases values.len(),
{
    if values.len() == 0 {
        Seq::empty()
    } else if values.last() == JsonView::Null {
        non_null(values.drop_last())
    } else {
        non_null(values.drop_last()).push(values.last())
    }
}

/// As many placeholders as there are values, with commas between them.
pub open spec fn placeholders(n: nat) -> Seq<char> {
    text::joined(Seq::new(n, |i: int| "?"@), ","@)
}

/// The alternatives of a membership test: one for the values that are not null, where there are
/// any, and one for null, where it is among the values.
pub open spec fn in_parts(column: Seq<char>, values: Seq<JsonView>) -> Seq<Seq<char>> {
    let present = non_null(values);
    let listed = if present.len() > 0 {
        seq![parens(sql::ident(column) + " IN ("@ + placeholders(present.len()) + ")"@)]
    } else {
        Seq::empty()
    };
    if present.len() != values.len() {
        listed.push(parens(sql::ident(column) + " IS NULL"@))
    } else {
        listed
    }
}

/// The SQL condition of a predicate: empty where every row satisfies it.
pub open spec fn condition(p: PredicateView) -> Seq<char>
    decreases p,
{
    match p {
        PredicateView::All => Seq::empty(),
        PredicateView::Eq { column, value } => if value == JsonView::Null {
            sql::ident(column) + " IS NULL"@
        } else {
            sql::ident(column) + " = ?"@
        },
        PredicateView::Range { op, column, value } => if value == JsonView::Null {
            "0"@
        } else {
            sql::ident(column) + " "@ + predicate::op_sql(op) + " ?"@
        },
        PredicateView::In { column, values } => if values.len() == 0 {
            "0"@
        } else {
            text::joined(in_parts(column, values), " OR "@)
        },
        PredicateView::And(children) => text::joined(and_parts(children), " AND "@),
    }
}

/// The conditions of some predicates, without the empty ones, each in parentheses.
pub open spec fn and_parts(list: Seq<PredicateView>) -> Seq<Seq<char>>
    decreases list,
{
    if list.len() == 0 {
        Seq::empty()
    } else {
        let part = condition(list.last());
        if part.len() == 0 {
            and_parts(list.drop_last())
        } else {
            and_parts(list.drop_last()).push(parens(part))
        }
    }
}

/// The values bound to the placeholders of the condition of a predicate, in their order.
pub open spec fn arguments(p: PredicateView) -> Seq<SqlView>
    decreases p,
{
    match p {
        PredicateView::All => Seq::empty(),
        PredicateView::Eq { column, value } => if value == JsonView::Null {
            Seq::empty()
        } else {
            seq![sql::bound(value)]
        },
        PredicateView::Range { op, column, value } => if value == JsonView::Null {
            Seq::empty()
        } else {
            seq![sql::bound(value)]
        },
        PredicateView::In { column, values } => all_bound(non_null(values)),
        PredicateView::And(children) => and_arguments(children),
    }
}

/// The bound values of some values.
pub open spec fn all_bound(values: Seq<JsonView>) -> Seq<SqlView> {
    Seq::new(values.len(), |i: int| sql::bound(values[i]))
}

/// The values bound in the conditions of some predicates.
pub open spec fn and_arguments(list: Seq<PredicateView>) -> Seq<SqlView>
    decreases list,
{
    if list.len() == 0 {
        Seq::empty()
    } else if condition(list.last()).len() == 0 {
        and_arguments(list.drop_last())
    } else {
        and_arguments(list.drop_last()) + arguments(list.last())
    }
}

fn in_parens(s: &str) -> (r: String)
    ensures
        r@ == parens(s@),
{
    let mut out = "(".to_string();
    out.append(s);
    out.append(")");
    out
}

fn placeholder_list(n: usize) -> (r: String)
    ensures
        r@ == placeholders(n as nat),
{
    let mut marks: Vec<String> = Vec::new();
    while marks.len() < n
        invariant
            marks@.len() <= n,
            forall|j: int| 0 <= j < marks@.len() ==> (#[trigger] marks@[j])@ == "?"@,
        decreases n - marks@.len(),
    {
        marks.push("?".to_string());
    }
    assert(text::texts(marks@) =~= Seq::new(n as nat, |i: int| "?"@));
    text::join(&marks, ",")
}

fn bound_values(values: &Vec<Json>) -> (r: Vec<SqlValue>)
    ensures
        sql::sql_views(r@) == all_bound(non_null(json::views(values@))),
{
    let ghost vs = json::views(values@);
    let mut out: Vec<SqlValue> = Vec::new();
    let mut i: usize = 0;
    assert(sql::sql_views(out@) =~= all_bound(non_null(vs.take(0))));
    while i < values.len()
        invariant
            i <= values@.len(),
            vs == json::views(values@),
            sql::sql_views(out@) == all_bound(non_null(vs.take(i as int))),
        decreases values@.len() - i,
    {
        assert(vs.take(i + 1).drop_last() =~= vs.take(i as int));
        assert(vs.take(i + 1).last() == values@[i as int]@);
        let ghost present = non_null(vs.take(i as int));
        let ghost before = sql::sql_views(out@);
        if !values[i].is_null() {
            out.push(sql::json_to_value(&values[i]));
            assert(sql::sql_views(out@) =~= before.push(sql::bound(vs[i as int])));
            assert(all_bound(present.push(vs[i as int])) =~= all_bound(present).push(sql::bound(vs[i as int])));
        }
        i += 1;
    }
    assert(vs.take(values@.len() as int) =~= vs);
    out
}

fn compile_in(column: &str, values: &Vec<Json>) -> (r: (String, Vec<SqlValue>))
    requires
        values@.len() > 0,
    ensures
        r.0@ == text::joined(in_parts(column@, json::views(values@)), " OR "@),
        sql::sql_views(r.1@) == all_bound(non_null(json::views(values@))),
{
    let args = bound_values(values);
    assert(sql::sql_views(args@).len() == non_null(json::views(values@)).len());
    let name = sql::quote_ident(column);
    let mut parts: Vec<String> = Vec::new();
    if args.len() > 0 {
        let mut part = name.clone();
        part.append(" IN (");
        let marks = placeholder_list(args.len());
        part.append(marks.as_str());
        part.append(")");
        parts.push(in_parens(part.as_str()));
    }
    if args.len() != values.len() {
        let mut part = name;
        part.append(" IS NULL");
        parts.push(in_parens(part.as_str()));
    }
    assert(text::texts(parts@) =~= in_parts(column@, json::views(values@)));
    (text::join(&parts, " OR "), args)
}

fn compile_children(children: &Vec<Predicate>) -> (r: (Vec<String>, Vec<SqlValue>))
    ensures
        text::texts(r.0@) == and_parts(predicate::predicate_views(children@)),
        sql::sql_views(r.1@) == and_arguments(predicate::predicate_views(children@)),
    decreases children,
{
    let ghost ps = predicate::predicate_views(children@);
    let mut parts: Vec<String> = Vec::new();
    let mut args: Vec<SqlValue> = Vec::new();
    let mut i: usize = 0;
    assert(text::texts(parts@) =~= and_parts(ps.take(0)));
    assert(sql::sql_views(args@) =~= and_arguments(ps.take(0)));
    while i < children.len()
        invariant
            i <= children@.len(),
            ps == predicate::predicate_views(children@),
            text::texts(parts@) == and_parts(ps.take(i as int)),
            sql::sql_views(args@) == and_arguments(ps.take(i as int)),
        decreases children@.len() - i,
    {
        assert(ps.take(i + 1).drop_last() =~= ps.take(i as int));
        assert(ps.take(i + 1).last() == children@[i as int]@);
        assert(decreases_to!(children => children@[i as int]));
        let (part, mut more) = compile_predicate(&children[i]);
        if !part.as_str().is_empty() {
            parts.push(in_parens(part.as_str()));
            let ghost before = args@;
            let ghost extra = more@;
            args.append(&mut more);
            assert(sql::sql_views(args@) =~= sql::sql_views(before) + sql::sql_views(extra));
        }
        i += 1;
        assert(text::texts(parts@) =~= and_parts(ps.take(i as int)));
    }
    assert(ps.take(children@.len() as int) =~= ps);
    (parts, args)
}

/// The SQL condition of a predicate and the values bound to its placeholders.
pub fn compile_predicate(p: &Predicate) -> (r: (String, Vec<SqlValue>))
    ensures
        r.0@ == condition(p@),
        sql::sql_views(r.1@) == arguments(p@),
        condition::has_marks(r.0@, r.1@.len()),
    decreases p,
{
    proof {
        condition::law_placeholders_match_arguments(p@);
        assert(forall|args: Seq<SqlValue>| (#[trigger] sql::sql_views(args)).len() == args.len());
    }
    match p {
        Predicate::All => {
            let args: Vec<SqlValue> = Vec::new();
            assert(sql::sql_views(args@) =~= Seq::empty());
            (String::new(), args)
        },
        Predicate::Eq { column, value } => {
            let mut out = sql::quote_ident(column.as_str());
            let mut args: Vec<SqlValue> = Vec::new();
            if value.is_null() {
                out.append(" IS NULL");
            } else {
                out.append(" = ?");
                args.push(sql::json_to_value(value));
            }
            assert(sql::sql_views(args@) =~= arguments(p@));
            (out, args)
        },
        Predicate::Range { op, column, value } => {
            let mut args: Vec<SqlValue> = Vec::new();
            if value.is_null() {
                assert(sql::sql_views(args@) =~= arguments(p@));
                ("0".to_string(), args)
            } else {
                let mut out = sql::quote_ident(column.as_str());
                out.append(" ");
                out.append(op.sql());
                out.append(" ?");
                args.push(sql::json_to_value(value));
                assert(sql::sql_views(args@) =~= arguments(p@));
                (out, args)
            }
        },
        Predicate::In { column, values } => {
            assert(p@->values == json::views(values@));
            if values.len() == 0 {
                let args: Vec<SqlValue> = Vec::new();
                assert(sql::sql_views(args@) =~= arguments(p@));
                ("0".to_string(), args)
            } else {
                compile_in(column.as_str(), values)
            }
        },
        Predicate::And(children) => {
            proof {
                predicate::lemma_and_view(*children);
            }
            let (parts, args) = compile_children(children);
            (text::join(&parts, " AND "), args)
        },
    }
}

/// Whether two predicates differ in nothing but the values that their conditions bind.
pub open spec fn same_but_values(p: PredicateView, q: PredicateView) -> bool
    decreases p,
{
    match (p, q) {
        (PredicateView::All, PredicateView::All) => true,
        (PredicateView::Eq { column: c, value: v }, PredicateView::Eq { column: d, value: w }) => {
            &&& c == d
            &&& (v == JsonView::Null <==> w == JsonView::Null)
        },
        (
            PredicateView::Range { op: o, column: c, value: v },
            PredicateView::Range { op: u, column: d, value: w },
        ) => {
            &&& o == u
            &&& c == d
            &&& (v == JsonView::Null <==> w == JsonView::Null)
        },
        (PredicateView::In { column: c, values: v }, PredicateView::In { column: d, values: w }) => {
            &&& c == d
            &&& v.len() == w.len()
            &&& forall|i: int|
                0 <= i < v.len() ==> (#[trigger] v[i] == JsonView::Null <==> w[i] == JsonView::Null)
        },
        (PredicateView::And(a), PredicateView::And(b)) => {
            &&& a.len() == b.len()
            &&& forall|i: int| 0 <= i < a.len() ==> same_but_values(#[trigger] a[i], b[i])
        },
        _ => false,
    }
}

proof fn lemma_non_null_len(v: Seq<JsonView>, w: Seq<JsonView>)
    requires
        v.len() == w.len(),
        forall|i: int| 0 <= i < v.len() ==> (#[trigger] v[i] == JsonView::Null <==> w[i] == JsonView::Null),
    ensures
        non_null(v).len() == non_null(w).len(),
    decreases v.len(),
{
    if v.len() > 0 {
        assert(v[v.len() - 1] == JsonView::Null <==> w[v.len() - 1] == JsonView::Null);
        assert forall|i: int| 0 <= i < v.drop_last().len() implies (#[trigger] v.drop_last()[i] == JsonView::Null
            <==> w.drop_last()[i] == JsonView::Null) by {
            assert(v.drop_last()[i] == v[i]);
        }
        lemma_non_null_len(v.drop_last(), w.drop_last());
    }
}

proof fn lemma_parts_ignore_values(a: Seq<PredicateView>, b: Seq<PredicateView>)
    requires
        a.len() == b.len(),
        forall|i: int| 0 <= i < a.len() ==> same_but_values(#[trigger] a[i], b[i]),
    ensures
        and_parts(a) == and_parts(b),
    decreases a,
{
    if a.len() > 0 {
        law_condition_ignores_values(a[a.len() - 1], b[a.len() - 1]);
        assert forall|i: int| 0 <= i < a.drop_last().len() implies same_but_values(
            #[trigger] a.drop_last()[i],
            b.drop_last()[i],
        ) by {
            assert(a.drop_last()[i] == a[i]);
        }
        lemma_parts_ignore_values(a.drop_last(), b.drop_last());
    }
}

/// The text of a condition holds none of the values compared with: it is the same for any values,
/// as long as nulls stay where they are.
pub proof fn law_condition_ignores_values(p: PredicateView, q: PredicateView)
    requires
        same_but_values(p, q),
    ensures
        condition(p) == condition(q),
    decreases p,
{
    match (p, q) {
        (PredicateView::In { column: c, values: v }, PredicateView::In { column: d, values: w }) => {
            assert(p->values == v && q->values == w);
            lemma_non_null_len(v, w);
        },
        (PredicateView::And(a), PredicateView::And(b)) => {
            assert(p->And_0 == a && q->And_0 == b);
            lemma_parts_ignore_values(a, b);
        },
        _ => {},
    }
}

} // verus!

//! What the statement of a snapshot means: which rows of a table it gives, what of them, and in which
//! order.
use vstd::prelude::*;
use crate::engine::compile;
use crate::engine::condition;
use crate::engine::condition::Condition;
use crate::engine::log;
use crate::engine::predicate;
use crate::engine::predicate::{PredicateView, Rank};
use crate::engine::snapshot;
use crate::json;
use crate::json::JsonView;
use crate::sql;
use crate::sql::SqlView;
use crate::text;

verus! {

/// A statement that reads rows of a table as JSON objects: the columns of the objects, the table,
/// the condition that a row satisfies, the columns by which the rows are ordered, and how many rows
/// there are at the most, where there is a bound.
pub struct Select {
    pub columns: Seq<Seq<char>>,
    pub table: Seq<char>,
    pub condition: Condition,
    pub order: Seq<Seq<char>>,
    pub limit: Option<nat>,
}

/// The columns of an object as they are written: the name of each as a text, then the column.
pub open spec fn columns_written(columns: Seq<Seq<char>>) -> Seq<char>
    decreases columns.len(),
{
    if columns.len() == 0 {
        Seq::empty()
    } else {
        let last = sql::literal(columns.last()) + ", "@ + sql::ident(columns.last());
        if columns.len() == 1 {
            last
        } else {
            columns_written(columns.drop_last()) + ", "@ + last
        }
    }
}

/// Some names as they are written, with commas between them.
pub open spec fn names_written(names: Seq<Seq<char>>) -> Seq<char>
    decreases names.len(),
{
    if names.len() == 0 {
        Seq::empty()
    } else if names.len() == 1 {
        sql::ident(names.last())
    } else {
        names_written(names.drop_last()) + ","@ + sql::ident(names.last())
    }
}

/// A statement as it is written.
pub open spec fn written(s: Select) -> Seq<char> {
    let from = "SELECT "@ + ("json_object("@ + columns_written(s.columns) + ")"@) + " AS row_json FROM "@
        + sql::ident(s.table);
    let chosen = if s.condition is Always {
        from
    } else {
        from + " WHERE "@ + condition::written(s.condition)
    };
    let ordered = chosen + " ORDER BY "@ + names_written(s.order);
    match s.limit {
        Some(n) => ordered + " LIMIT "@ + text::decimal(n as int),
        None => ordered,
    }
}

/// The rows of a table of which the condition of a statement is true.
pub open spec fn chosen_rows(
    order: spec_fn(SqlView, SqlView) -> Option<Rank>,
    s: Select,
    rows: Seq<JsonView>,
    args: Seq<SqlView>,
) -> Seq<JsonView> {
    rows.filter(|row: JsonView| condition::truth(order, s.condition, row, args) == Some(true))
}

/// Whether one row comes before another by some columns: at the first of them in which they differ.
pub open spec fn comes_before(
    order: spec_fn(SqlView, SqlView) -> Option<Rank>,
    names: Seq<Seq<char>>,
    a: JsonView,
    b: JsonView,
) -> bool {
    exists|k: int|
        {
            &&& 0 <= k < names.len()
            &&& order(condition::cell(a, #[trigger] names[k]), condition::cell(b, names[k])) == Some(Rank::Below)
            &&& forall|i: int|
                0 <= i < k ==> order(condition::cell(a, #[trigger] names[i]), condition::cell(b, names[i])) == Some(
                    Rank::Level,
                )
        }
}

/// Whether no row stands behind one that it comes before.
pub open spec fn in_order(
    order: spec_fn(SqlView, SqlView) -> Option<Rank>,
    names: Seq<Seq<char>>,
    rows: Seq<JsonView>,
) -> bool {
    forall|i: int, j: int|
        0 <= i < j < rows.len() ==> !comes_before(order, names, #[trigger] rows[j], #[trigger] rows[i])
}

/// Whether some rows of a table, in this order, are those that a statement gives: all of which its
/// condition is true, or the first of them where it has a bound.
pub open spec fn gives(
    order: spec_fn(SqlView, SqlView) -> Option<Rank>,
    s: Select,
    rows: Seq<JsonView>,
    args: Seq<SqlView>,
    given: Seq<JsonView>,
) -> bool {
    exists|all: Seq<JsonView>|
        {
            &&& #[trigger] all.to_multiset() == chosen_rows(order, s, rows, args).to_multiset()
            &&& in_order(order, s.order, all)
            &&& given == (match s.limit {
                Some(n) => if n < all.len() {
                    all.take(n as int)
                } else {
                    all
                },
                None => all,
            })
        }
}

/// What a statement gives of a row: the columns of its object.
pub open spec fn object_of(s: Select, row: JsonView) -> JsonView {
    json::projected(row, s.columns)
}

/// The key of a row of a table: its key columns.
pub open spec fn key_of(pk: Seq<Seq<char>>, row: JsonView) -> JsonView {
    json::projected(row, pk)
}

/// Whether no two rows of a table have one key.
pub open spec fn keys_differ(pk: Seq<Seq<char>>, rows: Seq<JsonView>) -> bool {
    forall|i: int, j: int|
        0 <= i < j < rows.len() ==> key_of(pk, #[trigger] rows[i]) != key_of(pk, #[trigger] rows[j])
}

/// Whether a map holds the rows of a table by their keys.
pub open spec fn is_table(pk: Seq<Seq<char>>, rows: Seq<JsonView>, table: Map<JsonView, JsonView>) -> bool {
    &&& forall|i: int|
        0 <= i < rows.len() ==> table.contains_key(key_of(pk, #[trigger] rows[i])) && table[key_of(pk, rows[i])]
            == rows[i]
    &&& forall|k: JsonView| #[trigger]
        table.contains_key(k) ==> exists|i: int| 0 <= i < rows.len() && key_of(pk, #[trigger] rows[i]) == k
}

proof fn lemma_columns_written(columns: Seq<Seq<char>>)
    ensures
        columns_written(columns) == text::joined(sql::column_pairs(Seq::empty(), columns), ", "@),
    decreases columns.len(),
{
    let none = Seq::<char>::empty();
    let pairs = sql::column_pairs(none, columns);
    if columns.len() > 0 {
        let name = columns.last();
        let last = sql::literal(name) + ", "@ + sql::ident(name);
        assert(pairs.last() == sql::column_pair(none, name));
        assert(sql::column_pair(none, name) =~= last);
        if columns.len() == 1 {
            assert(pairs[0] == last);
        } else {
            lemma_columns_written(columns.drop_last());
            assert(pairs.drop_last() =~= sql::column_pairs(none, columns.drop_last()));
        }
    }
}

proof fn lemma_names_written(names: Seq<Seq<char>>)
    ensures
        names_written(names) == text::joined(snapshot::idents(names), ","@),
    decreases names.len(),
{
    let list = snapshot::idents(names);
    if names.len() == 1 {
        assert(list[0] == sql::ident(names.last()));
    } else if names.len() > 1 {
        lemma_names_written(names.drop_last());
        assert(list.drop_last() =~= snapshot::idents(names.drop_last()));
        assert(list.last() == sql::ident(names.last()));
    }
}

/// The text of the statement of a snapshot is a statement as it is written: it reads the columns of
/// the shape from its table, under the condition of its predicate, in the order of the key, and
/// without a bound on the number of rows.
pub proof fn law_snapshot_statement_is_written(
    table: Seq<char>,
    columns: Seq<Seq<char>>,
    p: PredicateView,
    pk: Seq<Seq<char>>,
)
    ensures
        snapshot::snapshot_sql(table, columns, p, pk) == written(
            Select { columns, table, condition: condition::compiled(p, 0), order: pk, limit: None },
        ),
{
    let c = condition::compiled(p, 0);
    lemma_columns_written(columns);
    lemma_names_written(pk);
    condition::law_condition_is_written(p, 0);
    condition::lemma_only_no_condition_is_empty(p, 0);
}

/// A snapshot holds the rows of its shape: whatever rows the statement of a snapshot gives of a
/// table, they are all the rows that the predicate selects, each once, in the order of the key, and
/// of each of them the columns of the shape; by their keys they are what a reader who is up to date
/// holds.
pub proof fn law_snapshot_statement_gives_the_rows_of_the_shape(
    order: spec_fn(SqlView, SqlView) -> Option<Rank>,
    table: Seq<char>,
    columns: Seq<Seq<char>>,
    p: PredicateView,
    pk: Seq<Seq<char>>,
    rows: Seq<JsonView>,
    state: Map<JsonView, JsonView>,
    given: Seq<JsonView>,
)
    requires
        condition::compares_values(order),
        forall|i: int| 0 <= i < rows.len() ==> condition::applies(p, #[trigger] rows[i]),
        keys_differ(pk, rows),
        is_table(pk, rows, state),
        gives(
            order,
            Select { columns, table, condition: condition::compiled(p, 0), order: pk, limit: None },
            rows,
            compile::arguments(p),
            given,
        ),
    ensures
        given.to_multiset() == rows.filter(|row: JsonView| predicate::selects(p, row)).to_multiset(),
        in_order(order, pk, given),
        ({
            let s = Select { columns, table, condition: condition::compiled(p, 0), order: pk, limit: None };
            let held = log::shape_rows(p, columns, state);
            &&& forall|i: int|
                0 <= i < given.len() ==> held.contains_key(key_of(pk, #[trigger] given[i])) && held[key_of(
                    pk,
                    given[i],
                )] == object_of(s, given[i])
            &&& forall|k: JsonView| #[trigger]
                held.contains_key(k) ==> exists|i: int| 0 <= i < given.len() && key_of(pk, #[trigger] given[i]) == k
        }),
{
    broadcast use vstd::seq_lib::group_to_multiset_ensures;

    let s = Select { columns, table, condition: condition::compiled(p, 0), order: pk, limit: None };
    let args = compile::arguments(p);
    let held = log::shape_rows(p, columns, state);
    let chosen = chosen_rows(order, s, rows, args);
    let wanted = rows.filter(|row: JsonView| predicate::selects(p, row));
    assert forall|i: int| 0 <= i < rows.len() implies (condition::truth(order, s.condition, #[trigger] rows[i], args)
        == Some(true)) == predicate::selects(p, rows[i]) by {
        assert(args.subrange(0, args.len() as int) =~= args);
        condition::law_condition_selects_what_the_predicate_selects(order, p, rows[i], args, 0);
    }
    lemma_same_filter(
        rows,
        |row: JsonView| condition::truth(order, s.condition, row, args) == Some(true),
        |row: JsonView| predicate::selects(p, row),
    );
    assert(chosen == wanted);
    wanted.to_multiset_ensures();
    given.to_multiset_ensures();
    assert forall|i: int| 0 <= i < given.len() implies held.contains_key(key_of(pk, #[trigger] given[i]))
        && held[key_of(pk, given[i])] == object_of(s, given[i]) by {
        assert(given.contains(given[i]));
        assert(wanted.to_multiset().count(given[i]) > 0);
        assert(wanted.contains(given[i]));
        lemma_filter_members(rows, |row: JsonView| predicate::selects(p, row), given[i]);
        let j = choose|j: int| 0 <= j < rows.len() && rows[j] == given[i];
        assert(state[key_of(pk, rows[j])] == rows[j]);
    }
    assert forall|k: JsonView| #[trigger] held.contains_key(k) implies exists|i: int|
        0 <= i < given.len() && key_of(pk, #[trigger] given[i]) == k by {
        assert(state.contains_key(k));
        let j = choose|j: int| 0 <= j < rows.len() && key_of(pk, #[trigger] rows[j]) == k;
        assert(state[k] == rows[j]);
        assert(rows.contains(rows[j]));
        lemma_filter_members(rows, |row: JsonView| predicate::selects(p, row), rows[j]);
        assert(wanted.contains(rows[j]));
        assert(given.to_multiset().count(rows[j]) > 0);
        assert(given.contains(rows[j]));
        let i = choose|i: int| 0 <= i < given.len() && given[i] == rows[j];
        assert(key_of(pk, given[i]) == k);
    }
}

proof fn lemma_same_filter<A>(s: Seq<A>, f: spec_fn(A) -> bool, g: spec_fn(A) -> bool)
    requires
        forall|i: int| 0 <= i < s.len() ==> f(#[trigger] s[i]) == g(s[i]),
    ensures
        s.filter(f) == s.filter(g),
    decreases s.len(),
{
    reveal(Seq::filter);
    if s.len() > 0 {
        let front = s.drop_last();
        assert forall|i: int| 0 <= i < front.len() implies f(#[trigger] front[i]) == g(front[i]) by {
            assert(front[i] == s[i]);
        }
        lemma_same_filter(front, f, g);
        assert(f(s[s.len() - 1]) == g(s[s.len() - 1]));
    }
}

proof fn lemma_filter_members<A>(s: Seq<A>, f: spec_fn(A) -> bool, x: A)
    ensures
        s.filter(f).contains(x) <==> s.contains(x) && f(x),
    decreases s.len(),
{
    reveal(Seq::filter);
    if s.len() > 0 {
        let front = s.drop_last();
        lemma_filter_members(front, f, x);
        let (a, b) = (front.filter(f), s.filter(f));
        assert(s[s.len() - 1] == s.last());
        if front.contains(x) {
            let i = choose|i: int| 0 <= i < front.len() && front[i] == x;
            assert(s[i] == x);
        }
        if s.contains(x) && !front.contains(x) {
            let i = choose|i: int| 0 <= i < s.len() && s[i] == x;
            if i < front.len() {
                assert(front[i] == x);
            }
            assert(s.last() == x);
        }
        if f(s.last()) {
            assert(b == a.push(s.last()));
            assert(b[b.len() - 1] == s.last());
            if a.contains(x) {
                let i = choose|i: int| 0 <= i < a.len() && a[i] == x;
                assert(b[i] == x);
            }
            if b.contains(x) {
                let i = choose|i: int| 0 <= i < b.len() && b[i] == x;
                if i < a.len() {
                    assert(a[i] == x);
                }
            }
        }
    }
}

} // verus!

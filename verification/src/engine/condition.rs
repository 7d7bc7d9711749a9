//! What the SQL condition of a predicate means: the placeholders that it has, and the rows that
//! satisfy it.
//!
//! SQL conditions have three truth values, and a row is selected where the condition is true, not
//! where it is unknown. The laws of this module hold for every way to compare values that compares
//! integers as integers, texts by code points, and leaves every comparison with null unknown.
use vstd::prelude::*;
use crate::engine::compile;
use crate::engine::predicate;
use crate::engine::predicate::{PredicateView, RangeOp, Rank};
use crate::json;
use crate::json::JsonView;
use crate::number;
use crate::sql;
use crate::sql::SqlView;
use crate::text;

verus! {

/// How many quotes of names a text has.
pub open spec fn quotes(s: Seq<char>) -> nat
    decreases s.len(),
{
    if s.len() == 0 {
        0
    } else if s.last() == '"' {
        quotes(s.drop_last()) + 1
    } else {
        quotes(s.drop_last())
    }
}

/// How many placeholders a condition has: the question marks outside the quotes of names.
pub open spec fn marks(s: Seq<char>) -> nat
    decreases s.len(),
{
    if s.len() == 0 {
        0
    } else if s.last() == '?' && quotes(s.drop_last()) % 2 == 0 {
        marks(s.drop_last()) + 1
    } else {
        marks(s.drop_last())
    }
}

/// Whether a text closes every name that it opens and has some number of placeholders.
pub open spec fn has_marks(s: Seq<char>, n: nat) -> bool {
    quotes(s) % 2 == 0 && marks(s) == n
}

proof fn lemma_marks_concat(a: Seq<char>, b: Seq<char>, m: nat, n: nat)
    requires
        has_marks(a, m),
        has_marks(b, n),
    ensures
        has_marks(a + b, m + n),
{
    lemma_counts_concat(a, b);
}

proof fn lemma_counts_concat(a: Seq<char>, b: Seq<char>)
    requires
        quotes(a) % 2 == 0,
    ensures
        quotes(a + b) == quotes(a) + quotes(b),
        marks(a + b) == marks(a) + marks(b),
    decreases b.len(),
{
    if b.len() == 0 {
        assert(a + b =~= a);
    } else {
        assert((a + b).drop_last() =~= a + b.drop_last());
        lemma_counts_concat(a, b.drop_last());
    }
}

proof fn lemma_plain(s: Seq<char>)
    requires
        forall|i: int| 0 <= i < s.len() ==> #[trigger] s[i] != '"' && s[i] != '?',
    ensures
        has_marks(s, 0),
        quotes(s) == 0,
    decreases s.len(),
{
    if s.len() > 0 {
        assert(s[s.len() - 1] == s.last());
        assert forall|i: int| 0 <= i < s.drop_last().len() implies #[trigger] s.drop_last()[i] != '"'
            && s.drop_last()[i] != '?' by {
            assert(s.drop_last()[i] == s[i]);
        }
        lemma_plain(s.drop_last());
    }
}

proof fn lemma_last_mark(s: Seq<char>)
    requires
        s.len() > 0,
        s.last() == '?',
        forall|i: int| 0 <= i < s.len() - 1 ==> #[trigger] s[i] != '"' && s[i] != '?',
    ensures
        has_marks(s, 1),
{
    assert forall|i: int| 0 <= i < s.drop_last().len() implies #[trigger] s.drop_last()[i] != '"'
        && s.drop_last()[i] != '?' by {
        assert(s.drop_last()[i] == s[i]);
    }
    lemma_plain(s.drop_last());
}

proof fn lemma_open_name(name: Seq<char>)
    ensures
        quotes(seq!['"'] + sql::doubled(name, '"')) % 2 == 1,
        marks(seq!['"'] + sql::doubled(name, '"')) == 0,
    decreases name.len(),
{
    let s = seq!['"'] + sql::doubled(name, '"');
    if name.len() == 0 {
        assert(s =~= seq!['"']);
        assert(s.drop_last() =~= Seq::empty());
        assert(quotes(s.drop_last()) == 0 && marks(s.drop_last()) == 0);
    } else {
        let front = seq!['"'] + sql::doubled(name.drop_last(), '"');
        lemma_open_name(name.drop_last());
        if name.last() == '"' {
            let mid = front.push('"');
            assert(s =~= mid.push('"'));
            assert(s.drop_last() =~= mid);
            assert(mid.drop_last() =~= front);
            assert(quotes(mid) == quotes(front) + 1 && marks(mid) == marks(front));
        } else {
            assert(s =~= front.push(name.last()));
            assert(s.drop_last() =~= front);
        }
    }
}

proof fn lemma_name(name: Seq<char>)
    ensures
        has_marks(sql::ident(name), 0),
{
    let s = sql::ident(name);
    lemma_open_name(name);
    assert(s.drop_last() =~= seq!['"'] + sql::doubled(name, '"'));
    assert(s.last() == '"');
}

proof fn lemma_words()
    ensures
        has_marks("("@, 0),
        has_marks(")"@, 0),
        has_marks(" IN ("@, 0),
        has_marks(" IS NULL"@, 0),
        has_marks(" = ?"@, 1),
        has_marks(" ?"@, 1),
        has_marks("?"@, 1),
        has_marks(","@, 0),
        has_marks(" "@, 0),
        has_marks("0"@, 0),
        has_marks(" OR "@, 0),
        has_marks(" AND "@, 0),
        forall|op: RangeOp| has_marks(#[trigger] predicate::op_sql(op), 0),
{
    reveal_strlit("(");
    reveal_strlit(")");
    reveal_strlit(" IN (");
    reveal_strlit(" IS NULL");
    reveal_strlit(" = ?");
    reveal_strlit(" ?");
    reveal_strlit("?");
    reveal_strlit(",");
    reveal_strlit(" ");
    reveal_strlit("0");
    reveal_strlit(" OR ");
    reveal_strlit(" AND ");
    reveal_strlit(">");
    reveal_strlit("<");
    reveal_strlit(">=");
    reveal_strlit("<=");
    lemma_plain("("@);
    lemma_plain(")"@);
    lemma_plain(" IN ("@);
    lemma_plain(" IS NULL"@);
    lemma_last_mark(" = ?"@);
    lemma_last_mark(" ?"@);
    lemma_last_mark("?"@);
    lemma_plain(","@);
    lemma_plain(" "@);
    lemma_plain("0"@);
    lemma_plain(" OR "@);
    lemma_plain(" AND "@);
    assert forall|op: RangeOp| has_marks(#[trigger] predicate::op_sql(op), 0) by {
        lemma_plain(predicate::op_sql(op));
    }
}

/// How many placeholders some texts have in all.
spec fn all_marks(parts: Seq<Seq<char>>) -> nat
    decreases parts.len(),
{
    if parts.len() == 0 {
        0
    } else {
        all_marks(parts.drop_last()) + marks(parts.last())
    }
}

/// Whether each of some texts closes every name that it opens.
spec fn all_closed(parts: Seq<Seq<char>>) -> bool {
    forall|i: int| 0 <= i < parts.len() ==> quotes(#[trigger] parts[i]) % 2 == 0
}

proof fn lemma_joined_marks(parts: Seq<Seq<char>>, sep: Seq<char>)
    requires
        all_closed(parts),
        has_marks(sep, 0),
    ensures
        has_marks(text::joined(parts, sep), all_marks(parts)),
    decreases parts.len(),
{
    if parts.len() == 1 {
        assert(all_marks(parts.drop_last()) == 0);
        assert(quotes(parts[0]) % 2 == 0);
    } else if parts.len() > 1 {
        let front = parts.drop_last();
        assert forall|i: int| 0 <= i < front.len() implies quotes(#[trigger] front[i]) % 2 == 0 by {
            assert(front[i] == parts[i]);
        }
        lemma_joined_marks(front, sep);
        assert(quotes(parts[parts.len() - 1]) % 2 == 0);
        lemma_marks_concat(text::joined(front, sep), sep, all_marks(front), 0);
        lemma_marks_concat(text::joined(front, sep) + sep, parts.last(), all_marks(front), marks(parts.last()));
    }
}

proof fn lemma_parens_marks(s: Seq<char>, n: nat)
    requires
        has_marks(s, n),
    ensures
        has_marks(compile::parens(s), n),
{
    lemma_words();
    lemma_marks_concat("("@, s, 0, n);
    lemma_marks_concat("("@ + s, ")"@, n, 0);
}

proof fn lemma_placeholders_marks(n: nat)
    ensures
        has_marks(compile::placeholders(n), n),
{
    let parts = Seq::new(n, |i: int| "?"@);
    lemma_words();
    lemma_same_marks(n);
    assert(all_closed(parts));
    lemma_joined_marks(parts, ","@);
}

proof fn lemma_same_marks(n: nat)
    ensures
        all_marks(Seq::new(n, |i: int| "?"@)) == n,
    decreases n,
{
    if n > 0 {
        lemma_words();
        let parts = Seq::new(n, |i: int| "?"@);
        let m = (n - 1) as nat;
        lemma_same_marks(m);
        assert(parts.drop_last() =~= Seq::new(m, |i: int| "?"@));
    }
}

proof fn lemma_in_marks(column: Seq<char>, values: Seq<JsonView>)
    ensures
        has_marks(
            text::joined(compile::in_parts(column, values), " OR "@),
            compile::non_null(values).len(),
        ),
{
    lemma_words();
    lemma_name(column);
    let n = compile::non_null(values).len();
    let name = sql::ident(column);
    let parts = compile::in_parts(column, values);
    lemma_placeholders_marks(n);
    lemma_marks_concat(name, " IN ("@, 0, 0);
    lemma_marks_concat(name + " IN ("@, compile::placeholders(n), 0, n);
    lemma_marks_concat(name + " IN ("@ + compile::placeholders(n), ")"@, n, 0);
    lemma_parens_marks(name + " IN ("@ + compile::placeholders(n) + ")"@, n);
    lemma_marks_concat(name, " IS NULL"@, 0, 0);
    lemma_parens_marks(name + " IS NULL"@, 0);
    assert(all_closed(parts));
    reveal_with_fuel(all_marks, 3);
    assert(all_marks(parts) == n);
    lemma_joined_marks(parts, " OR "@);
}

proof fn lemma_and_marks(list: Seq<PredicateView>)
    ensures
        all_closed(compile::and_parts(list)),
        all_marks(compile::and_parts(list)) == compile::and_arguments(list).len(),
    decreases list,
{
    if list.len() > 0 {
        let front = compile::and_parts(list.drop_last());
        lemma_and_marks(list.drop_last());
        law_placeholders_match_arguments(list.last());
        let part = compile::condition(list.last());
        if part.len() > 0 {
            lemma_parens_marks(part, compile::arguments(list.last()).len());
            let parts = front.push(compile::parens(part));
            assert(parts.drop_last() =~= front);
        }
    }
}

/// A condition has as many placeholders as values are bound to it.
pub proof fn law_placeholders_match_arguments(p: PredicateView)
    ensures
        has_marks(compile::condition(p), compile::arguments(p).len()),
    decreases p,
{
    lemma_words();
    match p {
        PredicateView::All => {},
        PredicateView::Eq { column, value } => {
            lemma_name(column);
            lemma_marks_concat(sql::ident(column), " IS NULL"@, 0, 0);
            lemma_marks_concat(sql::ident(column), " = ?"@, 0, 1);
        },
        PredicateView::Range { op, column, value } => {
            let name = sql::ident(column);
            lemma_name(column);
            assert(has_marks(predicate::op_sql(op), 0));
            lemma_marks_concat(name, " "@, 0, 0);
            lemma_marks_concat(name + " "@, predicate::op_sql(op), 0, 0);
            lemma_marks_concat(name + " "@ + predicate::op_sql(op), " ?"@, 0, 1);
        },
        PredicateView::In { column, values } => {
            assert(p->values == values);
            if values.len() > 0 {
                lemma_in_marks(column, values);
            } else {
                assert(compile::non_null(values).len() == 0);
            }
        },
        PredicateView::And(children) => {
            assert(p->And_0 == children);
            lemma_and_marks(children);
            lemma_joined_marks(compile::and_parts(children), " AND "@);
        },
    }
}

/// A comparison of SQL.
pub enum SqlOp {
    Equal,
    Range(RangeOp),
}

/// A condition of SQL. A placeholder is known by its place among the placeholders.
pub enum Condition {
    /// No condition.
    Always,
    /// `0`.
    Never,
    IsNull { column: Seq<char> },
    Compare { column: Seq<char>, op: SqlOp, place: nat },
    /// `IN`, with some placeholders from a place on.
    Member { column: Seq<char>, first: nat, count: nat },
    Any(Seq<Condition>),
    Every(Seq<Condition>),
}

/// A condition as it is written.
pub open spec fn written(c: Condition) -> Seq<char>
    decreases c,
{
    match c {
        Condition::Always => Seq::empty(),
        Condition::Never => "0"@,
        Condition::IsNull { column } => sql::ident(column) + " IS NULL"@,
        Condition::Compare { column, op, place } => match op {
            SqlOp::Equal => sql::ident(column) + " = ?"@,
            SqlOp::Range(op) => sql::ident(column) + " "@ + predicate::op_sql(op) + " ?"@,
        },
        Condition::Member { column, first, count } => sql::ident(column) + " IN ("@ + compile::placeholders(count)
            + ")"@,
        Condition::Any(parts) => text::joined(all_written(parts), " OR "@),
        Condition::Every(parts) => text::joined(all_written(parts), " AND "@),
    }
}

/// Some conditions as they are written, each in parentheses.
pub open spec fn all_written(list: Seq<Condition>) -> Seq<Seq<char>>
    decreases list,
{
    if list.len() == 0 {
        Seq::empty()
    } else {
        all_written(list.drop_last()).push("("@ + written(list.last()) + ")"@)
    }
}

/// Whether a comparison of values is one of SQL, as far as nulls, integers and texts go: it is
/// unknown where a value is null, integers are compared as integers, texts by code points.
pub open spec fn compares_values(order: spec_fn(SqlView, SqlView) -> Option<Rank>) -> bool {
    &&& forall|v: SqlView| #[trigger] order(SqlView::Null, v) is None
    &&& forall|v: SqlView| #[trigger] order(v, SqlView::Null) is None
    &&& forall|a: i64, b: i64| #[trigger]
        order(SqlView::Integer(a), SqlView::Integer(b)) == Some(
            if a < b {
                Rank::Below
            } else if a == b {
                Rank::Level
            } else {
                Rank::Above
            },
        )
    &&& forall|a: Seq<char>, b: Seq<char>| #[trigger]
        order(SqlView::Text(a), SqlView::Text(b)) == Some(
            if a == b {
                Rank::Level
            } else if text::leq(a, b) {
                Rank::Below
            } else {
                Rank::Above
            },
        )
}

/// What a column of a row holds, where the row is the database row of a JSON object.
pub open spec fn cell(row: JsonView, column: Seq<char>) -> SqlView {
    sql::bound(json::field(row, column)->0)
}

/// Whether a comparison holds of a rank.
pub open spec fn sql_admits(op: SqlOp, r: Rank) -> bool {
    match op {
        SqlOp::Equal => r == Rank::Level,
        SqlOp::Range(op) => predicate::admits(op, r),
    }
}

/// The truth value of a condition for a row, with values bound to its placeholders: `None` where it
/// is unknown.
pub open spec fn truth(
    order: spec_fn(SqlView, SqlView) -> Option<Rank>,
    c: Condition,
    row: JsonView,
    args: Seq<SqlView>,
) -> Option<bool>
    decreases c,
{
    match c {
        Condition::Always => Some(true),
        Condition::Never => Some(false),
        Condition::IsNull { column } => Some(cell(row, column) == SqlView::Null),
        Condition::Compare { column, op, place } => match order(cell(row, column), args[place as int]) {
            Some(r) => Some(sql_admits(op, r)),
            None => None,
        },
        Condition::Member { column, first, count } => {
            if exists|i: int| 0 <= i < count && order(cell(row, column), #[trigger] args[first + i]) == Some(Rank::Level) {
                Some(true)
            } else if exists|i: int| 0 <= i < count && order(cell(row, column), #[trigger] args[first + i]) is None {
                None
            } else {
                Some(false)
            }
        },
        Condition::Any(parts) => {
            if exists|i: int| 0 <= i < parts.len() && truth(order, #[trigger] parts[i], row, args) == Some(true) {
                Some(true)
            } else if exists|i: int| 0 <= i < parts.len() && truth(order, #[trigger] parts[i], row, args) is None {
                None
            } else {
                Some(false)
            }
        },
        Condition::Every(parts) => {
            if exists|i: int| 0 <= i < parts.len() && truth(order, #[trigger] parts[i], row, args) == Some(false) {
                Some(false)
            } else if exists|i: int| 0 <= i < parts.len() && truth(order, #[trigger] parts[i], row, args) is None {
                None
            } else {
                Some(true)
            }
        },
    }
}

/// The condition of a predicate, whose placeholders start at a place.
pub open spec fn compiled(p: PredicateView, first: nat) -> Condition
    decreases p,
{
    match p {
        PredicateView::All => Condition::Always,
        PredicateView::Eq { column, value } => if value == JsonView::Null {
            Condition::IsNull { column }
        } else {
            Condition::Compare { column, op: SqlOp::Equal, place: first }
        },
        PredicateView::Range { op, column, value } => if value == JsonView::Null {
            Condition::Never
        } else {
            Condition::Compare { column, op: SqlOp::Range(op), place: first }
        },
        PredicateView::In { column, values } => if values.len() == 0 {
            Condition::Never
        } else {
            Condition::Any(alternatives(column, values, first))
        },
        PredicateView::And(children) => if compile::and_parts(children).len() == 0 {
            Condition::Always
        } else {
            Condition::Every(all_compiled(children, first))
        },
    }
}

/// The alternatives of a membership test.
pub open spec fn alternatives(column: Seq<char>, values: Seq<JsonView>, first: nat) -> Seq<Condition> {
    let present = compile::non_null(values);
    let listed = if present.len() > 0 {
        seq![Condition::Member { column, first, count: present.len() }]
    } else {
        Seq::empty()
    };
    if present.len() != values.len() {
        listed.push(Condition::IsNull { column })
    } else {
        listed
    }
}

/// The conditions of some predicates, without the empty ones.
pub open spec fn all_compiled(list: Seq<PredicateView>, first: nat) -> Seq<Condition>
    decreases list,
{
    if list.len() == 0 {
        Seq::empty()
    } else {
        let front = all_compiled(list.drop_last(), first);
        if compile::condition(list.last()).len() == 0 {
            front
        } else {
            front.push(compiled(list.last(), first + compile::and_arguments(list.drop_last()).len()))
        }
    }
}

proof fn lemma_alternatives_written(column: Seq<char>, values: Seq<JsonView>, first: nat)
    ensures
        all_written(alternatives(column, values, first)) == compile::in_parts(column, values),
{
    let list = alternatives(column, values, first);
    let count = compile::non_null(values).len();
    let member = Condition::Member { column, first, count };
    let null = Condition::IsNull { column };
    reveal_with_fuel(all_written, 3);
    assert(written(member) == sql::ident(column) + " IN ("@ + compile::placeholders(count) + ")"@);
    assert(written(null) == sql::ident(column) + " IS NULL"@);
    if list.len() == 2 {
        assert(list.drop_last() =~= seq![member]);
        assert(list.drop_last().drop_last() =~= Seq::empty());
    } else if list.len() == 1 {
        assert(list.drop_last() =~= Seq::empty());
    }
    assert(all_written(list) =~= compile::in_parts(column, values));
}

proof fn lemma_all_compiled_written(list: Seq<PredicateView>, first: nat)
    ensures
        all_written(all_compiled(list, first)) == compile::and_parts(list),
    decreases list,
{
    if list.len() > 0 {
        lemma_all_compiled_written(list.drop_last(), first);
        let at = first + compile::and_arguments(list.drop_last()).len();
        law_condition_is_written(list.last(), at);
        if compile::condition(list.last()).len() > 0 {
            let front = all_compiled(list.drop_last(), first);
            assert(front.push(compiled(list.last(), at)).drop_last() =~= front);
        }
    }
}

/// The text of a condition is the condition as it is written.
pub proof fn law_condition_is_written(p: PredicateView, first: nat)
    ensures
        written(compiled(p, first)) == compile::condition(p),
    decreases p,
{
    match p {
        PredicateView::In { column, values } => {
            assert(p->values == values);
            lemma_alternatives_written(column, values, first);
        },
        PredicateView::And(children) => {
            assert(p->And_0 == children);
            lemma_all_compiled_written(children, first);
        },
        _ => {},
    }
}

/// Whether a value is null, an integer or a text: what a column of a table holds besides reals and
/// blobs.
pub open spec fn is_plain(v: JsonView) -> bool {
    match v {
        JsonView::Null => true,
        JsonView::Number(n) => number::as_i64(n) matches Some(i) && n == number::integer(i),
        JsonView::Text(_) => true,
        _ => false,
    }
}

/// Whether a value is compared with a column of its own kind in a row: both are null, integers or
/// texts, and where none is null, both are integers or both are texts.
pub open spec fn suits(row: JsonView, column: Seq<char>, value: JsonView) -> bool {
    &&& json::field(row, column) matches Some(held)
    &&& is_plain(held)
    &&& is_plain(value)
    &&& held == JsonView::Null || value == JsonView::Null || (held is Number <==> value is Number)
}

/// Whether an integer is small enough to be compared as a double: within 2^53 of zero.
pub open spec fn is_small(v: JsonView) -> bool {
    v matches JsonView::Number(n) ==> {
        number::as_i64(n) matches Some(i) && -0x20_0000_0000_0000 <= i <= 0x20_0000_0000_0000
    }
}

/// Whether a predicate compares each column with values of its own kind in a row, and, in ranges,
/// small integers with small integers.
pub open spec fn applies(p: PredicateView, row: JsonView) -> bool
    decreases p,
{
    match p {
        PredicateView::All => true,
        PredicateView::Eq { column, value } => suits(row, column, value),
        PredicateView::Range { op, column, value } => {
            &&& suits(row, column, value)
            &&& is_small(value)
            &&& is_small(json::field(row, column)->0)
        },
        PredicateView::In { column, values } => {
            &&& suits(row, column, JsonView::Null)
            &&& forall|i: int| 0 <= i < values.len() ==> suits(row, column, #[trigger] values[i])
        },
        PredicateView::And(children) => forall|i: int|
            0 <= i < children.len() ==> applies(#[trigger] children[i], row),
    }
}

proof fn lemma_equal(
    order: spec_fn(SqlView, SqlView) -> Option<Rank>,
    row: JsonView,
    column: Seq<char>,
    value: JsonView,
)
    requires
        compares_values(order),
        suits(row, column, value),
        value != JsonView::Null,
    ensures
        order(cell(row, column), sql::bound(value)) == Some(Rank::Level) <==> json::same_json(
            json::field(row, column)->0,
            value,
        ),
        json::same_json(value, json::field(row, column)->0) == json::same_json(json::field(row, column)->0, value),
{
    let held = json::field(row, column)->0;
    json::law_equality_is_an_equivalence(held, value, value);
    json::law_equality_is_an_equivalence(value, held, value);
    match (held, value) {
        (JsonView::Number(a), JsonView::Number(b)) => {
            let (x, y) = (number::as_i64(a)->0, number::as_i64(b)->0);
            assert(order(SqlView::Integer(x), SqlView::Integer(y)) == order(cell(row, column), sql::bound(value)));
        },
        (JsonView::Text(a), JsonView::Text(b)) => {
            assert(order(SqlView::Text(a), SqlView::Text(b)) == order(cell(row, column), sql::bound(value)));
        },
        _ => {
            assert(order(SqlView::Null, sql::bound(value)) is None);
        },
    }
}

proof fn lemma_range(
    order: spec_fn(SqlView, SqlView) -> Option<Rank>,
    row: JsonView,
    op: RangeOp,
    column: Seq<char>,
    value: JsonView,
)
    requires
        compares_values(order),
        suits(row, column, value),
        is_small(value),
        is_small(json::field(row, column)->0),
        value != JsonView::Null,
    ensures
        order(cell(row, column), sql::bound(value)) == predicate::rank(json::field(row, column)->0, value),
{
    let held = json::field(row, column)->0;
    match (held, value) {
        (JsonView::Number(a), JsonView::Number(b)) => {
            let (x, y) = (number::as_i64(a)->0, number::as_i64(b)->0);
            if x <= y {
                number::law_integers_keep_their_order(x, y);
            } else {
                number::law_integers_keep_their_order(y, x);
            }
            assert(order(SqlView::Integer(x), SqlView::Integer(y)) == order(cell(row, column), sql::bound(value)));
        },
        (JsonView::Text(a), JsonView::Text(b)) => {
            assert(order(SqlView::Text(a), SqlView::Text(b)) == order(cell(row, column), sql::bound(value)));
        },
        _ => {
            assert(order(SqlView::Null, sql::bound(value)) is None);
        },
    }
}

proof fn lemma_non_null_members(values: Seq<JsonView>)
    ensures
        forall|k: int|
            0 <= k < compile::non_null(values).len() ==> #[trigger] compile::non_null(values)[k] != JsonView::Null
                && values.contains(compile::non_null(values)[k]),
        forall|i: int|
            0 <= i < values.len() && #[trigger] values[i] != JsonView::Null ==> compile::non_null(values).contains(
                values[i],
            ),
        compile::non_null(values).len() <= values.len(),
        compile::non_null(values).len() == values.len() <==> !values.contains(JsonView::Null),
    decreases values.len(),
{
    if values.len() > 0 {
        let front = values.drop_last();
        lemma_non_null_members(front);
        let (a, b) = (compile::non_null(front), compile::non_null(values));
        assert forall|k: int| 0 <= k < b.len() implies #[trigger] b[k] != JsonView::Null && values.contains(
            b[k],
        ) by {
            if k < a.len() {
                let i = choose|i: int| 0 <= i < front.len() && front[i] == a[k];
                assert(values[i] == b[k]);
            } else {
                assert(values[values.len() - 1] == b[k]);
            }
        }
        assert forall|i: int| 0 <= i < values.len() && #[trigger] values[i] != JsonView::Null implies b.contains(
            values[i],
        ) by {
            if i < front.len() {
                assert(front[i] == values[i]);
                let k = choose|k: int| 0 <= k < a.len() && a[k] == values[i];
                assert(b[k] == values[i]);
            } else {
                assert(b[b.len() - 1] == values[i]);
            }
        }
        if front.contains(JsonView::Null) {
            let i = choose|i: int| 0 <= i < front.len() && front[i] == JsonView::Null;
            assert(values[i] == JsonView::Null);
        } else if values.last() == JsonView::Null {
            assert(values[values.len() - 1] == JsonView::Null);
        } else {
            assert forall|i: int| 0 <= i < values.len() implies #[trigger] values[i] != JsonView::Null by {
                if i < front.len() {
                    assert(front[i] == values[i]);
                }
            }
        }
    }
}

proof fn lemma_in(
    order: spec_fn(SqlView, SqlView) -> Option<Rank>,
    column: Seq<char>,
    values: Seq<JsonView>,
    row: JsonView,
    args: Seq<SqlView>,
    first: nat,
)
    requires
        compares_values(order),
        applies(PredicateView::In { column, values }, row),
        first + compile::non_null(values).len() <= args.len(),
        args.subrange(first as int, (first + compile::non_null(values).len()) as int) == compile::all_bound(
            compile::non_null(values),
        ),
    ensures
        truth(order, Condition::Any(alternatives(column, values, first)), row, args) == Some(true)
            <==> predicate::selects(PredicateView::In { column, values }, row),
{
    let p = PredicateView::In { column, values };
    assert(p->values == values);
    let list = alternatives(column, values, first);
    let any = Condition::Any(list);
    assert(any->Any_0 == list);
    let present = compile::non_null(values);
    let held = json::field(row, column)->0;
    let member = Condition::Member { column, first, count: present.len() };
    let null = Condition::IsNull { column };
    lemma_non_null_members(values);
    assert forall|i: int| 0 <= i < present.len() implies #[trigger] args[first + i] == sql::bound(present[i]) by {
        assert(args.subrange(first as int, (first + present.len()) as int)[i] == args[first + i]);
    }
    assert forall|i: int| 0 <= i < present.len() implies (order(cell(row, column), #[trigger] args[first + i])
        == Some(Rank::Level) <==> json::same_json(present[i], held)) by {
        let k = choose|k: int| 0 <= k < values.len() && values[k] == present[i];
        assert(suits(row, column, values[k]));
        lemma_equal(order, row, column, present[i]);
    }
    if predicate::selects(p, row) {
        let i = choose|i: int| 0 <= i < values.len() && json::same_json(#[trigger] values[i], held);
        if values[i] == JsonView::Null {
            assert(held == JsonView::Null);
            assert(list.last() == null);
            assert(list[list.len() - 1] == null);
            assert(truth(order, list[list.len() - 1], row, args) == Some(true));
        } else {
            let k = choose|k: int| 0 <= k < present.len() && present[k] == values[i];
            assert(order(cell(row, column), args[first + k]) == Some(Rank::Level));
            assert(list[0] == member);
            assert(truth(order, list[0], row, args) == Some(true));
        }
    } else {
        assert forall|i: int| 0 <= i < list.len() implies truth(order, #[trigger] list[i], row, args) != Some(
            true,
        ) by {
            if list[i] == member {
                assert forall|j: int| 0 <= j < present.len() implies order(
                    cell(row, column),
                    #[trigger] args[first + j],
                ) != Some(Rank::Level) by {
                    let k = choose|k: int| 0 <= k < values.len() && values[k] == present[j];
                    assert(!json::same_json(values[k], held));
                }
            } else {
                assert(list[i] == null);
                let k = choose|k: int| 0 <= k < values.len() && values[k] == JsonView::Null;
                assert(!json::same_json(values[k], held));
            }
        }
    }
}

proof fn lemma_empty_condition_selects(p: PredicateView, row: JsonView)
    requires
        compile::condition(p).len() == 0,
    ensures
        predicate::selects(p, row),
        compile::arguments(p).len() == 0,
    decreases p,
{
    reveal_strlit("0");
    reveal_strlit(" IS NULL");
    reveal_strlit(" = ?");
    reveal_strlit(" ?");
    reveal_strlit("(");
    match p {
        PredicateView::In { column, values } => {
            assert(p->values == values);
            if values.len() > 0 {
                lemma_non_null_members(values);
                lemma_parts_not_empty(compile::in_parts(column, values), " OR "@);
            }
        },
        PredicateView::And(children) => {
            assert(p->And_0 == children);
            let parts = compile::and_parts(children);
            lemma_and_parts_long(children);
            if parts.len() > 0 {
                lemma_parts_not_empty(parts, " AND "@);
            }
            lemma_empty_conditions_select(children, row);
        },
        _ => {},
    }
}

proof fn lemma_and_parts_long(list: Seq<PredicateView>)
    ensures
        forall|i: int| 0 <= i < compile::and_parts(list).len() ==> (#[trigger] compile::and_parts(list)[i]).len() > 0,
    decreases list,
{
    if list.len() > 0 {
        lemma_and_parts_long(list.drop_last());
        reveal_strlit("(");
        let front = compile::and_parts(list.drop_last());
        let parts = compile::and_parts(list);
        assert forall|i: int| 0 <= i < parts.len() implies (#[trigger] parts[i]).len() > 0 by {
            if i < front.len() {
                assert(parts[i] == front[i]);
            } else {
                assert(parts[i] == compile::parens(compile::condition(list.last())));
            }
        }
    }
}

proof fn lemma_parts_not_empty(parts: Seq<Seq<char>>, sep: Seq<char>)
    requires
        parts.len() > 0,
        forall|i: int| 0 <= i < parts.len() ==> (#[trigger] parts[i]).len() > 0,
    ensures
        text::joined(parts, sep).len() > 0,
{
    assert(parts[0].len() > 0);
    assert(parts[parts.len() - 1].len() > 0);
}

proof fn lemma_empty_conditions_select(list: Seq<PredicateView>, row: JsonView)
    requires
        compile::and_parts(list).len() == 0,
    ensures
        forall|i: int| 0 <= i < list.len() ==> predicate::selects(#[trigger] list[i], row),
        compile::and_arguments(list).len() == 0,
    decreases list,
{
    if list.len() > 0 {
        let front = list.drop_last();
        lemma_empty_conditions_select(front, row);
        lemma_empty_condition_selects(list.last(), row);
        assert forall|i: int| 0 <= i < list.len() implies predicate::selects(#[trigger] list[i], row) by {
            if i < front.len() {
                assert(front[i] == list[i]);
            }
        }
    }
}

proof fn lemma_every(
    order: spec_fn(SqlView, SqlView) -> Option<Rank>,
    list: Seq<PredicateView>,
    row: JsonView,
    args: Seq<SqlView>,
    first: nat,
)
    requires
        compares_values(order),
        forall|i: int| 0 <= i < list.len() ==> applies(#[trigger] list[i], row),
        first + compile::and_arguments(list).len() <= args.len(),
        args.subrange(first as int, (first + compile::and_arguments(list).len()) as int)
            == compile::and_arguments(list),
    ensures
        (forall|i: int|
            0 <= i < all_compiled(list, first).len() ==> truth(order, #[trigger] all_compiled(list, first)[i], row, args)
                == Some(true)) <==> (forall|i: int|
            0 <= i < list.len() ==> predicate::selects(#[trigger] list[i], row)),
    decreases list,
{
    if list.len() > 0 {
        let front = list.drop_last();
        let last = list.last();
        assert forall|i: int| 0 <= i < front.len() implies applies(#[trigger] front[i], row) by {
            assert(front[i] == list[i]);
        }
        assert(applies(list[list.len() - 1], row));
        let all = compile::and_arguments(list);
        let m = compile::and_arguments(front).len();
        let given = args.subrange(first as int, (first + all.len()) as int);
        assert(args.subrange(first as int, (first + m) as int) =~= given.subrange(0, m as int));
        assert(given.subrange(0, m as int) =~= compile::and_arguments(front));
        lemma_every(order, front, row, args, first);
        let conditions = all_compiled(list, first);
        let before = all_compiled(front, first);
        if compile::condition(last).len() == 0 {
            lemma_empty_condition_selects(last, row);
        } else {
            let n = compile::arguments(last).len();
            let at = first + m;
            assert(args.subrange(at as int, (at + n) as int) =~= given.subrange(m as int, (m + n) as int));
            assert(given.subrange(m as int, (m + n) as int) =~= compile::arguments(last));
            law_condition_selects_what_the_predicate_selects(order, last, row, args, at);
            assert(conditions == before.push(compiled(last, at)));
        }
        let left = forall|i: int|
            0 <= i < conditions.len() ==> truth(order, #[trigger] conditions[i], row, args) == Some(true);
        let right = forall|i: int| 0 <= i < list.len() ==> predicate::selects(#[trigger] list[i], row);
        if left {
            assert forall|i: int| 0 <= i < before.len() implies truth(order, #[trigger] before[i], row, args)
                == Some(true) by {
                assert(before[i] == conditions[i]);
            }
            assert forall|i: int| 0 <= i < list.len() implies predicate::selects(#[trigger] list[i], row) by {
                if i < front.len() {
                    assert(front[i] == list[i]);
                } else if compile::condition(last).len() > 0 {
                    assert(truth(order, conditions[conditions.len() - 1], row, args) == Some(true));
                }
            }
        }
        if right {
            assert forall|i: int| 0 <= i < front.len() implies predicate::selects(#[trigger] front[i], row) by {
                assert(front[i] == list[i]);
            }
            assert(predicate::selects(list[list.len() - 1], row));
            assert forall|i: int| 0 <= i < conditions.len() implies truth(
                order,
                #[trigger] conditions[i],
                row,
                args,
            ) == Some(true) by {
                if i < before.len() {
                    assert(before[i] == conditions[i]);
                }
            }
        }
    }
}

/// Snapshot and replay agree: the condition of a predicate, with its values bound in their order,
/// is true of a row exactly where the predicate selects the row, for rows whose columns hold null,
/// integers or texts and are compared with null and values of their own kind. Integers in ranges
/// are to be within 2^53 of zero, since a range compares numbers as doubles.
pub proof fn law_condition_selects_what_the_predicate_selects(
    order: spec_fn(SqlView, SqlView) -> Option<Rank>,
    p: PredicateView,
    row: JsonView,
    args: Seq<SqlView>,
    first: nat,
)
    requires
        compares_values(order),
        applies(p, row),
        first + compile::arguments(p).len() <= args.len(),
        args.subrange(first as int, (first + compile::arguments(p).len()) as int) == compile::arguments(p),
    ensures
        truth(order, compiled(p, first), row, args) == Some(true) <==> predicate::selects(p, row),
    decreases p,
{
    match p {
        PredicateView::All => {},
        PredicateView::Eq { column, value } => {
            let held = json::field(row, column)->0;
            if value == JsonView::Null {
                assert(cell(row, column) == SqlView::Null <==> held == JsonView::Null);
            } else {
                assert(args.subrange(first as int, (first + 1) as int)[0] == args[first as int]);
                lemma_equal(order, row, column, value);
            }
        },
        PredicateView::Range { op, column, value } => {
            if value != JsonView::Null {
                assert(args.subrange(first as int, (first + 1) as int)[0] == args[first as int]);
                lemma_range(order, row, op, column, value);
            }
        },
        PredicateView::In { column, values } => {
            assert(p->values == values);
            if values.len() > 0 {
                lemma_in(order, column, values, row, args, first);
            }
        },
        PredicateView::And(children) => {
            assert(p->And_0 == children);
            if compile::and_parts(children).len() == 0 {
                lemma_empty_conditions_select(children, row);
            } else {
                lemma_every(order, children, row, args, first);
                let c = compiled(p, first);
                let parts = all_compiled(children, first);
                assert(c->Every_0 == parts);
            }
        },
    }
}

/// A predicate whose condition is written as nothing has none.
pub proof fn lemma_only_no_condition_is_empty(p: PredicateView, first: nat)
    ensures
        compiled(p, first) is Always <==> compile::condition(p).len() == 0,
{
    reveal_strlit("0");
    reveal_strlit(" IS NULL");
    reveal_strlit(" = ?");
    reveal_strlit(" ?");
    reveal_strlit("(");
    match p {
        PredicateView::In { column, values } => {
            assert(p->values == values);
            if values.len() > 0 {
                lemma_non_null_members(values);
                lemma_parts_not_empty(compile::in_parts(column, values), " OR "@);
            }
        },
        PredicateView::And(children) => {
            assert(p->And_0 == children);
            lemma_and_parts_long(children);
            if compile::and_parts(children).len() > 0 {
                lemma_parts_not_empty(compile::and_parts(children), " AND "@);
            }
        },
        _ => {},
    }
}

/// A list of placeholders has a question mark for each value, with commas between them, and a condition
/// that is part of another stands in parentheses.
pub proof fn law_placeholders_are_question_marks(n: nat, s: Seq<char>)
    ensures
        compile::placeholders(n).len() == (if n == 0 {
            0
        } else {
            2 * n - 1
        }),
        forall|i: int|
            0 <= i < compile::placeholders(n).len() ==> #[trigger] compile::placeholders(n)[i] == (if i % 2 == 0 {
                '?'
            } else {
                ','
            }),
        compile::parens(s) == seq!['('] + s + seq![')'],
    decreases n,
{
    reveal_strlit("?");
    reveal_strlit(",");
    reveal_strlit("(");
    reveal_strlit(")");
    assert(compile::parens(s) =~= seq!['('] + s + seq![')']);
    let marks = Seq::new(n, |i: int| "?"@);
    if n > 1 {
        let m = (n - 1) as nat;
        law_placeholders_are_question_marks(m, s);
        assert(marks.drop_last() =~= Seq::new(m, |i: int| "?"@));
        assert(compile::placeholders(n) == compile::placeholders(m) + ","@ + "?"@);
    }
}

} // verus!

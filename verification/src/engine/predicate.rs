//! Predicates over rows.
use vstd::prelude::*;
use crate::json;
use crate::json::{Json, JsonView};
use crate::number;
use crate::text;

verus! {

/// A comparison with a bound.
#[derive(Clone, Copy, Debug, PartialEq, Eq, Structural)]
pub enum RangeOp {
    Gt,
    Lt,
    Gte,
    Lte,
}

/// Which rows of a table belong to a shape.
#[derive(Debug)]
pub enum Predicate {
    All,
    Eq { column: String, value: Json },
    Range { op: RangeOp, column: String, value: Json },
    In { column: String, values: Vec<Json> },
    And(Vec<Predicate>),
}

/// The model of a predicate.
pub enum PredicateView {
    All,
    Eq { column: Seq<char>, value: JsonView },
    Range { op: RangeOp, column: Seq<char>, value: JsonView },
    In { column: Seq<char>, values: Seq<JsonView> },
    And(Seq<PredicateView>),
}

impl View for Predicate {
    type V = PredicateView;

    open spec fn view(&self) -> PredicateView
        decreases self,
    {
        match self {
            Predicate::All => PredicateView::All,
            Predicate::Eq { column, value } => PredicateView::Eq { column: column@, value: value@ },
            Predicate::Range { op, column, value } => PredicateView::Range {
                op: *op,
                column: column@,
                value: value@,
            },
            Predicate::In { column, values } => PredicateView::In {
                column: column@,
                values: json::views(values@),
            },
            Predicate::And(children) => PredicateView::And(
                Seq::new(
                    children@.len(),
                    |i: int|
                        if 0 <= i < children@.len() {
                            children@[i].view()
                        } else {
                            PredicateView::All
                        },
                ),
            ),
        }
    }
}

/// The models of some predicates.
pub open spec fn predicate_views(list: Seq<Predicate>) -> Seq<PredicateView> {
    Seq::new(list.len(), |i: int| list[i]@)
}

/// The model of a conjunction is made of the models of its parts.
pub proof fn lemma_and_view(children: Vec<Predicate>)
    ensures
        Predicate::And(children)@ == PredicateView::And(predicate_views(children@)),
{
    reveal_with_fuel(<Predicate as View>::view, 2);
    assert(Predicate::And(children)@->And_0 =~= predicate_views(children@));
}

/// How one value stands to another in their common order.
#[derive(Clone, Copy, PartialEq, Eq, Structural)]
pub enum Rank {
    Below,
    Level,
    Above,
}

/// The SQL operator of a comparison.
pub open spec fn op_sql(op: RangeOp) -> Seq<char> {
    match op {
        RangeOp::Gt => ">"@,
        RangeOp::Lt => "<"@,
        RangeOp::Gte => ">="@,
        RangeOp::Lte => "<="@,
    }
}

/// The name of a comparison in predicates written as JSON.
pub open spec fn op_key(op: RangeOp) -> Seq<char> {
    match op {
        RangeOp::Gt => "gt"@,
        RangeOp::Lt => "lt"@,
        RangeOp::Gte => "gte"@,
        RangeOp::Lte => "lte"@,
    }
}

/// How `left` stands to `right`: numbers by value, texts by code points, `false` below `true`;
/// values of different types, nulls, arrays and objects have no order.
pub open spec fn rank(left: JsonView, right: JsonView) -> Option<Rank> {
    match (left, right) {
        (JsonView::Number(a), JsonView::Number(b)) => {
            let (x, y) = (number::order_key(a), number::order_key(b));
            Some(
                if x < y {
                    Rank::Below
                } else if x == y {
                    Rank::Level
                } else {
                    Rank::Above
                },
            )
        },
        (JsonView::Text(a), JsonView::Text(b)) => Some(
            if a == b {
                Rank::Level
            } else if text::leq(a, b) {
                Rank::Below
            } else {
                Rank::Above
            },
        ),
        (JsonView::Bool(a), JsonView::Bool(b)) => Some(
            if a == b {
                Rank::Level
            } else if b {
                Rank::Below
            } else {
                Rank::Above
            },
        ),
        _ => None,
    }
}

/// Whether a comparison holds of a rank.
pub open spec fn admits(op: RangeOp, r: Rank) -> bool {
    match op {
        RangeOp::Gt => r == Rank::Above,
        RangeOp::Lt => r == Rank::Below,
        RangeOp::Gte => r != Rank::Below,
        RangeOp::Lte => r != Rank::Above,
    }
}

/// Whether `left op right` holds. Values without a common order satisfy no comparison.
pub open spec fn compares(left: JsonView, right: JsonView, op: RangeOp) -> bool {
    match rank(left, right) {
        Some(r) => admits(op, r),
        None => false,
    }
}

/// Whether a row satisfies a predicate. A column that the row lacks satisfies nothing.
pub open spec fn selects(p: PredicateView, row: JsonView) -> bool
    decreases p,
{
    match p {
        PredicateView::All => true,
        PredicateView::Eq { column, value } => json::same_option(json::field(row, column), Some(value)),
        PredicateView::Range { op, column, value } => match json::field(row, column) {
            Some(left) => compares(left, value, op),
            None => false,
        },
        PredicateView::In { column, values } => match json::field(row, column) {
            Some(left) => exists|i: int| 0 <= i < values.len() && json::same_json(#[trigger] values[i], left),
            None => false,
        },
        PredicateView::And(children) => forall|i: int|
            0 <= i < children.len() ==> selects(#[trigger] children[i], row),
    }
}

/// Whether a row that may be missing satisfies a predicate: a missing row satisfies none.
pub open spec fn visible(p: PredicateView, row: Option<JsonView>) -> bool {
    match row {
        Some(r) => selects(p, r),
        None => false,
    }
}

impl RangeOp {
    /// The SQL operator.
    pub fn sql(&self) -> (r: &'static str)
        ensures
            r@ == op_sql(*self),
    {
        match self {
            RangeOp::Gt => ">",
            RangeOp::Lt => "<",
            RangeOp::Gte => ">=",
            RangeOp::Lte => "<=",
        }
    }

    /// The name of the comparison.
    pub fn key(&self) -> (r: &'static str)
        ensures
            r@ == op_key(*self),
    {
        match self {
            RangeOp::Gt => "gt",
            RangeOp::Lt => "lt",
            RangeOp::Gte => "gte",
            RangeOp::Lte => "lte",
        }
    }

    /// The comparison of a name.
    pub fn from_key(k: &str) -> (r: Option<Self>)
        ensures
            r == op_of_key(k@),
            r is Some <==> exists|op: RangeOp| k@ == #[trigger] op_key(op),
            r matches Some(op) ==> k@ == op_key(op),
    {
        proof {
            law_op_keys_are_distinct();
        }
        if text::same_text(k, "gt") {
            assert(k@ == op_key(RangeOp::Gt));
            Some(RangeOp::Gt)
        } else if text::same_text(k, "lt") {
            assert(k@ == op_key(RangeOp::Lt));
            Some(RangeOp::Lt)
        } else if text::same_text(k, "gte") {
            assert(k@ == op_key(RangeOp::Gte));
            Some(RangeOp::Gte)
        } else if text::same_text(k, "lte") {
            assert(k@ == op_key(RangeOp::Lte));
            Some(RangeOp::Lte)
        } else {
            None
        }
    }
}

/// The comparison that a name stands for.
pub open spec fn op_of_key(k: Seq<char>) -> Option<RangeOp> {
    if k == "gt"@ {
        Some(RangeOp::Gt)
    } else if k == "lt"@ {
        Some(RangeOp::Lt)
    } else if k == "gte"@ {
        Some(RangeOp::Gte)
    } else if k == "lte"@ {
        Some(RangeOp::Lte)
    } else {
        None
    }
}

/// Each comparison has a name of its own, by which it is found again.
pub proof fn law_op_keys_are_distinct()
    ensures
        forall|op: RangeOp| op_of_key(#[trigger] op_key(op)) == Some(op),
{
    reveal_strlit("gt");
    reveal_strlit("lt");
    reveal_strlit("gte");
    reveal_strlit("lte");
    assert("gt"@.len() == 2 && "lt"@.len() == 2 && "gte"@.len() == 3 && "lte"@.len() == 3);
    assert("gt"@[0] != "lt"@[0]);
    assert("gte"@[0] != "lte"@[0]);
    assert forall|op: RangeOp| op_of_key(#[trigger] op_key(op)) == Some(op) by {
        match op {
            RangeOp::Gt => {},
            RangeOp::Lt => {},
            RangeOp::Gte => {},
            RangeOp::Lte => {},
        }
    }
}

/// The predicate that every row satisfies.
pub fn all() -> (r: Predicate)
    ensures
        r@ == PredicateView::All,
{
    Predicate::All
}

/// The rows whose column equals a value.
pub fn eq(column: &str, value: Json) -> (r: Predicate)
    ensures
        r@ == (PredicateView::Eq { column: column@, value: value@ }),
{
    Predicate::Eq { column: column.to_string(), value }
}

/// The rows whose column is above a value.
pub fn gt(column: &str, value: Json) -> (r: Predicate)
    ensures
        r@ == (PredicateView::Range { op: RangeOp::Gt, column: column@, value: value@ }),
{
    Predicate::Range { op: RangeOp::Gt, column: column.to_string(), value }
}

/// The rows whose column is below a value.
pub fn lt(column: &str, value: Json) -> (r: Predicate)
    ensures
        r@ == (PredicateView::Range { op: RangeOp::Lt, column: column@, value: value@ }),
{
    Predicate::Range { op: RangeOp::Lt, column: column.to_string(), value }
}

/// The rows whose column is at or above a value.
pub fn gte(column: &str, value: Json) -> (r: Predicate)
    ensures
        r@ == (PredicateView::Range { op: RangeOp::Gte, column: column@, value: value@ }),
{
    Predicate::Range { op: RangeOp::Gte, column: column.to_string(), value }
}

/// The rows whose column is at or below a value.
pub fn lte(column: &str, value: Json) -> (r: Predicate)
    ensures
        r@ == (PredicateView::Range { op: RangeOp::Lte, column: column@, value: value@ }),
{
    Predicate::Range { op: RangeOp::Lte, column: column.to_string(), value }
}

/// The rows whose column equals one of some values.
pub fn in_list(column: &str, values: Vec<Json>) -> (r: Predicate)
    ensures
        r@ == (PredicateView::In { column: column@, values: json::views(values@) }),
{
    Predicate::In { column: column.to_string(), values }
}

/// The rows that satisfy every one of some predicates.
pub fn and(children: Vec<Predicate>) -> (r: Predicate)
    ensures
        r@ == PredicateView::And(predicate_views(children@)),
{
    proof {
        lemma_and_view(children);
    }
    Predicate::And(children)
}

fn rank_of(left: &Json, right: &Json) -> (r: Option<Rank>)
    ensures
        r == rank(left@, right@),
{
    match (left, right) {
        (Json::Number(a), Json::Number(b)) => {
            let x: i64 = a.order_key();
            let y: i64 = b.order_key();
            if x < y {
                Some(Rank::Below)
            } else if x == y {
                Some(Rank::Level)
            } else {
                Some(Rank::Above)
            }
        },
        (Json::Text(a), Json::Text(b)) => if text::same_text(a.as_str(), b.as_str()) {
            Some(Rank::Level)
        } else if text::text_leq(a.as_str(), b.as_str()) {
            Some(Rank::Below)
        } else {
            Some(Rank::Above)
        },
        (Json::Bool(a), Json::Bool(b)) => if *a == *b {
            Some(Rank::Level)
        } else if *b {
            Some(Rank::Below)
        } else {
            Some(Rank::Above)
        },
        _ => None,
    }
}

/// Whether `left op right` holds.
pub fn compare_json(left: &Json, right: &Json, op: &RangeOp) -> (r: bool)
    ensures
        r == compares(left@, right@, *op),
{
    match rank_of(left, right) {
        Some(rank) => match op {
            RangeOp::Gt => rank == Rank::Above,
            RangeOp::Lt => rank == Rank::Below,
            RangeOp::Gte => rank != Rank::Below,
            RangeOp::Lte => rank != Rank::Above,
        },
        None => false,
    }
}

fn any_same(values: &Vec<Json>, left: &Json) -> (r: bool)
    ensures
        r == exists|i: int|
            0 <= i < values@.len() && json::same_json(#[trigger] json::views(values@)[i], left@),
{
    let mut i: usize = 0;
    while i < values.len()
        invariant
            i <= values@.len(),
            forall|j: int| 0 <= j < i ==> !json::same_json(#[trigger] json::views(values@)[j], left@),
        decreases values@.len() - i,
    {
        assert(json::views(values@)[i as int] == values@[i as int]@);
        if values[i].same(left) {
            return true;
        }
        i += 1;
    }
    false
}

fn all_match(children: &Vec<Predicate>, row: &Json) -> (r: bool)
    ensures
        r == forall|i: int|
            0 <= i < children@.len() ==> selects(#[trigger] predicate_views(children@)[i], row@),
    decreases children,
{
    let mut i: usize = 0;
    while i < children.len()
        invariant
            i <= children@.len(),
            forall|j: int| 0 <= j < i ==> selects(#[trigger] predicate_views(children@)[j], row@),
        decreases children@.len() - i,
    {
        assert(decreases_to!(children => children@[i as int]));
        assert(predicate_views(children@)[i as int] == children@[i as int]@);
        if !predicate_matches_row(&children[i], row) {
            return false;
        }
        i += 1;
    }
    true
}

/// Whether a row satisfies a predicate.
pub fn predicate_matches_row(p: &Predicate, row: &Json) -> (r: bool)
    ensures
        r == selects(p@, row@),
    decreases p,
{
    match p {
        Predicate::All => true,
        Predicate::Eq { column, value } => match row.get(column.as_str()) {
            Some(left) => left.same(value),
            None => false,
        },
        Predicate::Range { op, column, value } => match row.get(column.as_str()) {
            Some(left) => compare_json(left, value, op),
            None => false,
        },
        Predicate::In { column, values } => match row.get(column.as_str()) {
            Some(left) => {
                assert(p@->values == json::views(values@));
                any_same(values, left)
            },
            None => false,
        },
        Predicate::And(children) => {
            proof {
                lemma_and_view(*children);
            }
            assert(p@->And_0 == predicate_views(children@));
            all_match(children, row)
        },
    }
}

/// Whether a row that may be missing satisfies a predicate.
pub fn predicate_matches(p: &Predicate, row: &Option<Json>) -> (r: bool)
    ensures
        r == visible(p@, json::option_view(*row)),
{
    match row {
        Some(row) => predicate_matches_row(p, row),
        None => false,
    }
}

fn copy_children(list: &Vec<Predicate>) -> (r: Vec<Predicate>)
    ensures
        predicate_views(r@) == predicate_views(list@),
    decreases list,
{
    let mut out: Vec<Predicate> = Vec::new();
    let mut i: usize = 0;
    while i < list.len()
        invariant
            i <= list@.len(),
            out@.len() == i,
            forall|j: int| 0 <= j < i ==> (#[trigger] out@[j])@ == list@[j]@,
        decreases list@.len() - i,
    {
        assert(decreases_to!(list => list@[i as int]));
        out.push(copy_predicate(&list[i]));
        i += 1;
    }
    assert(predicate_views(out@) =~= predicate_views(list@));
    out
}

fn copy_predicate(p: &Predicate) -> (r: Predicate)
    ensures
        r@ == p@,
    decreases p,
{
    match p {
        Predicate::All => Predicate::All,
        Predicate::Eq { column, value } => Predicate::Eq { column: column.clone(), value: value.clone() },
        Predicate::Range { op, column, value } => Predicate::Range {
            op: *op,
            column: column.clone(),
            value: value.clone(),
        },
        Predicate::In { column, values } => Predicate::In {
            column: column.clone(),
            values: json::copy_list(values),
        },
        Predicate::And(children) => {
            let r = copy_children(children);
            proof {
                lemma_and_view(*children);
                lemma_and_view(r);
            }
            Predicate::And(r)
        },
    }
}

impl Clone for Predicate {
    fn clone(&self) -> (r: Predicate)
        ensures
            r@ == self@,
    {
        copy_predicate(self)
    }
}

/// A comparison is written in SQL by its sign, and one that takes equal values too by the sign with
/// an equals sign; in JSON by two letters, and with an `e`.
pub proof fn law_operators_are_written_by_their_signs()
    ensures
        op_sql(RangeOp::Gt) == seq!['>'],
        op_sql(RangeOp::Lt) == seq!['<'],
        op_sql(RangeOp::Gte) == op_sql(RangeOp::Gt).push('='),
        op_sql(RangeOp::Lte) == op_sql(RangeOp::Lt).push('='),
        op_key(RangeOp::Gt) == seq!['g', 't'],
        op_key(RangeOp::Lt) == seq!['l', 't'],
        op_key(RangeOp::Gte) == op_key(RangeOp::Gt).push('e'),
        op_key(RangeOp::Lte) == op_key(RangeOp::Lt).push('e'),
{
    reveal_strlit(">");
    reveal_strlit("<");
    reveal_strlit(">=");
    reveal_strlit("<=");
    reveal_strlit("gt");
    reveal_strlit("lt");
    reveal_strlit("gte");
    reveal_strlit("lte");
    assert(op_sql(RangeOp::Gt) =~= seq!['>']);
    assert(op_sql(RangeOp::Lt) =~= seq!['<']);
    assert(op_sql(RangeOp::Gte) =~= seq!['>', '=']);
    assert(op_sql(RangeOp::Lte) =~= seq!['<', '=']);
    assert(op_key(RangeOp::Gt) =~= seq!['g', 't']);
    assert(op_key(RangeOp::Lt) =~= seq!['l', 't']);
    assert(op_key(RangeOp::Gte) =~= seq!['g', 't', 'e']);
    assert(op_key(RangeOp::Lte) =~= seq!['l', 't', 'e']);
}

/// Values have an order where both are numbers, both are texts or both are booleans.
pub open spec fn comparable(a: JsonView, b: JsonView) -> bool {
    ||| a is Number && b is Number
    ||| a is Text && b is Text
    ||| a is Bool && b is Bool
}

/// The order of values: one value stands below another exactly where the other stands above it, each
/// value is level with itself, and only values of one kind have an order.
pub proof fn law_ranks_mirror(a: JsonView, b: JsonView)
    ensures
        rank(a, b) is Some <==> comparable(a, b),
        rank(a, b) == Some(Rank::Below) <==> rank(b, a) == Some(Rank::Above),
        rank(a, b) == Some(Rank::Level) <==> rank(b, a) == Some(Rank::Level),
        comparable(a, a) ==> rank(a, a) == Some(Rank::Level),
        a is Text && b is Text && rank(a, b) == Some(Rank::Level) ==> a == b,
        a is Bool && b is Bool && rank(a, b) == Some(Rank::Level) ==> a == b,
{
    text::lemma_order_is_total();
    if let (JsonView::Text(x), JsonView::Text(y)) = (a, b) {
        let le = text::order();
        assert(le(x, y) || le(y, x));
        assert(le(x, y) && le(y, x) ==> x == y);
    }
}

/// How the values of small integers, of texts and of booleans are ordered.
pub proof fn law_ranks_follow_the_values(m: i64, n: i64, a: Seq<char>, b: Seq<char>, k: int)
    ensures
        -0x20_0000_0000_0000 <= m < n <= 0x20_0000_0000_0000 ==> rank(
            JsonView::Number(number::integer(m)),
            JsonView::Number(number::integer(n)),
        ) == Some(Rank::Below),
        0 <= k < a.len() && k < b.len() && a.take(k) == b.take(k) && a[k] < b[k] ==> rank(
            JsonView::Text(a),
            JsonView::Text(b),
        ) == Some(Rank::Below),
        k == a.len() && k < b.len() && a == b.take(k) ==> rank(JsonView::Text(a), JsonView::Text(b)) == Some(
            Rank::Below,
        ),
        rank(JsonView::Bool(false), JsonView::Bool(true)) == Some(Rank::Below),
{
    if -0x20_0000_0000_0000 <= m < n <= 0x20_0000_0000_0000 {
        number::law_integers_keep_their_order(m, n);
    }
    if 0 <= k <= a.len() && k <= b.len() && a.take(k) == b.take(k) {
        assert forall|i: int| 0 <= i < k implies #[trigger] a[i] == b[i] by {
            assert(a.take(k)[i] == b.take(k)[i]);
        }
        text::law_texts_are_ordered_by_code_points(a, b, k);
    }
    if k == a.len() && k < b.len() && a == b.take(k) {
        assert(a.take(k) =~= a);
        assert forall|i: int| 0 <= i < k implies #[trigger] a[i] == b[i] by {
            assert(a[i] == b.take(k)[i]);
        }
        text::law_texts_are_ordered_by_code_points(a, b, k);
    }
}

/// Comparisons fit together: of two values with an order exactly one of greater, less and level
/// holds, greater or equal is one of the two, and so is less or equal; to turn a comparison round is
/// to swap the values. Values without an order satisfy none.
pub proof fn law_comparisons_fit_together(a: JsonView, b: JsonView)
    ensures
        compares(a, b, RangeOp::Gt) == compares(b, a, RangeOp::Lt),
        compares(a, b, RangeOp::Gte) == compares(b, a, RangeOp::Lte),
        compares(a, b, RangeOp::Gt) <==> rank(a, b) == Some(Rank::Above),
        compares(a, b, RangeOp::Gte) <==> compares(a, b, RangeOp::Gt) || rank(a, b) == Some(Rank::Level),
        compares(a, b, RangeOp::Lte) <==> compares(a, b, RangeOp::Lt) || rank(a, b) == Some(Rank::Level),
        !(compares(a, b, RangeOp::Gt) && compares(a, b, RangeOp::Lte)),
        comparable(a, b) <==> compares(a, b, RangeOp::Gt) || compares(a, b, RangeOp::Lte),
{
    law_ranks_mirror(a, b);
}

/// What predicates mean: an equality takes the rows whose column has the value, a range those whose
/// column compares with the value, a list those that one of its equalities takes, a conjunction
/// those that all of its parts take, and everything takes every row.
pub proof fn law_predicates_mean_what_they_say(
    row: JsonView,
    column: Seq<char>,
    value: JsonView,
    values: Seq<JsonView>,
    op: RangeOp,
    parts: Seq<PredicateView>,
)
    ensures
        selects(PredicateView::All, row),
        selects(PredicateView::Eq { column, value }, row) <==> (json::field(row, column) matches Some(v)
            && json::same_json(v, value)),
        selects(PredicateView::Range { op, column, value }, row) <==> (json::field(row, column) matches Some(v)
            && compares(v, value, op)),
        selects(PredicateView::In { column, values }, row) <==> exists|i: int|
            0 <= i < values.len() && selects(PredicateView::Eq { column, value: #[trigger] values[i] }, row),
        selects(PredicateView::And(parts), row) <==> forall|i: int|
            0 <= i < parts.len() ==> selects(#[trigger] parts[i], row),
{
    let p = PredicateView::In { column, values };
    assert(p->values == values);
    let q = PredicateView::And(parts);
    assert(q->And_0 == parts);
    if let Some(v) = json::field(row, column) {
        assert forall|i: int| 0 <= i < values.len() implies json::same_json(#[trigger] values[i], v)
            == json::same_json(v, values[i]) by {
            json::law_equality_is_an_equivalence(values[i], v, v);
            json::law_equality_is_an_equivalence(v, values[i], v);
        }
        if selects(p, row) {
            let i = choose|i: int| 0 <= i < values.len() && json::same_json(#[trigger] values[i], v);
            assert(selects(PredicateView::Eq { column, value: values[i] }, row));
        }
        if exists|i: int| 0 <= i < values.len() && selects(PredicateView::Eq { column, value: #[trigger] values[i] }, row) {
            let i = choose|i: int|
                0 <= i < values.len() && selects(PredicateView::Eq { column, value: #[trigger] values[i] }, row);
            assert(json::same_json(values[i], v));
        }
    }
}

} // verus!

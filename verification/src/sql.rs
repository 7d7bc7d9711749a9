//! SQL text: quoting of names and literals, row expressions, and bound values.
use vstd::prelude::*;
use crate::json;
use crate::json::{Json, JsonView};
use crate::number;
use crate::text;

verus! {

/// A value bound to a placeholder of a statement.
#[derive(Debug)]
pub enum SqlValue {
    Null,
    Integer(i64),
    /// A double, by the bits of its IEEE 754 encoding.
    Real(u64),
    Text(String),
}

/// The model of a bound value.
pub enum SqlView {
    Null,
    Integer(i64),
    Real(u64),
    Text(Seq<char>),
}

impl View for SqlValue {
    type V = SqlView;

    open spec fn view(&self) -> SqlView {
        match *self {
            SqlValue::Null => SqlView::Null,
            SqlValue::Integer(n) => SqlView::Integer(n),
            SqlValue::Real(bits) => SqlView::Real(bits),
            SqlValue::Text(s) => SqlView::Text(s@),
        }
    }
}

/// The models of some bound values.
pub open spec fn sql_views(list: Seq<SqlValue>) -> Seq<SqlView> {
    Seq::new(list.len(), |i: int| list[i]@)
}

/// A text with each occurrence of a character written twice.
pub open spec fn doubled(s: Seq<char>, q: char) -> Seq<char>
    decreases s.len(),
{
    if s.len() == 0 {
        Seq::empty()
    } else if s.last() == q {
        doubled(s.drop_last(), q).push(q).push(q)
    } else {
        doubled(s.drop_last(), q).push(s.last())
    }
}

/// A text between two quote characters, with each quote character inside it doubled.
pub open spec fn enclosed(s: Seq<char>, q: char) -> Seq<char> {
    seq![q] + doubled(s, q) + seq![q]
}

/// A name as SQL writes it.
pub open spec fn ident(s: Seq<char>) -> Seq<char> {
    enclosed(s, '"')
}

/// A text literal as SQL writes it.
pub open spec fn literal(s: Seq<char>) -> Seq<char> {
    enclosed(s, '\'')
}

/// One column of a row expression: its name as a literal, then the qualified column.
pub open spec fn column_pair(qualifier: Seq<char>, column: Seq<char>) -> Seq<char> {
    literal(column) + ", "@ + qualifier + ident(column)
}

/// The columns of a row expression.
pub open spec fn column_pairs(qualifier: Seq<char>, columns: Seq<Seq<char>>) -> Seq<Seq<char>> {
    Seq::new(columns.len(), |i: int| column_pair(qualifier, columns[i]))
}

/// The expression that builds a JSON object of some columns of a row.
pub open spec fn row_object(qualifier: Seq<char>, columns: Seq<Seq<char>>) -> Seq<char> {
    "json_object("@ + text::joined(column_pairs(qualifier, columns), ", "@) + ")"@
}

/// The qualifier of a row alias: nothing where there is no alias.
pub open spec fn qualifier(prefix: Seq<char>) -> Seq<char> {
    if prefix.len() == 0 {
        Seq::empty()
    } else {
        prefix + "."@
    }
}

/// The bound value of a JSON value. Arrays and objects are bound as their text.
pub open spec fn bound(v: JsonView) -> SqlView {
    match v {
        JsonView::Null => SqlView::Null,
        JsonView::Bool(b) => SqlView::Integer(if b { 1 } else { 0 }),
        JsonView::Number(n) => match number::as_i64(n) {
            Some(i) => SqlView::Integer(i),
            None => SqlView::Real(number::as_double(n)),
        },
        JsonView::Text(s) => SqlView::Text(s),
        _ => SqlView::Text(json::encoded(v)),
    }
}

/// Writes a text between two quote characters, doubling those inside it.
pub fn enclose(s: &str, q: char) -> (r: String)
    ensures
        r@ == enclosed(s@, q),
{
    let chars = text::chars_of(s);
    let mut out = String::new();
    out.push(q);
    let mut i: usize = 0;
    while i < chars.len()
        invariant
            i <= chars@.len(),
            out@ == seq![q] + doubled(chars@.take(i as int), q),
        decreases chars@.len() - i,
    {
        assert(chars@.take(i + 1).drop_last() =~= chars@.take(i as int));
        if chars[i] == q {
            out.push(q);
        }
        out.push(chars[i]);
        i += 1;
        assert(out@ =~= seq![q] + doubled(chars@.take(i as int), q));
    }
    assert(chars@.take(chars@.len() as int) =~= chars@);
    out.push(q);
    assert(out@ =~= enclosed(s@, q));
    out
}

/// Writes a name as SQL has it.
pub fn quote_ident(s: &str) -> (r: String)
    ensures
        r@ == ident(s@),
{
    enclose(s, '"')
}

/// Writes a text literal as SQL has it.
pub fn quote_string(s: &str) -> (r: String)
    ensures
        r@ == literal(s@),
{
    enclose(s, '\'')
}

/// The expression that builds a JSON object of some columns, each behind a qualifier.
pub fn object_expr(qualifier: &str, columns: &Vec<String>) -> (r: String)
    ensures
        r@ == row_object(qualifier@, text::texts(columns@)),
{
    let mut parts: Vec<String> = Vec::new();
    let mut i: usize = 0;
    while i < columns.len()
        invariant
            i <= columns@.len(),
            parts@.len() == i,
            forall|j: int| 0 <= j < i ==> (#[trigger] parts@[j])@ == column_pair(qualifier@, columns@[j]@),
        decreases columns@.len() - i,
    {
        let mut part = quote_string(columns[i].as_str());
        part.append(", ");
        part.append(qualifier);
        let name = quote_ident(columns[i].as_str());
        part.append(name.as_str());
        parts.push(part);
        i += 1;
    }
    assert(text::texts(parts@) =~= column_pairs(qualifier@, text::texts(columns@)));
    let inner = text::join(&parts, ", ");
    let mut out = "json_object(".to_string();
    out.append(inner.as_str());
    out.append(")");
    out
}

/// The expression that builds a JSON object of some columns of the row that `prefix` names, or
/// of the current row where `prefix` is empty.
pub fn row_json(prefix: &str, columns: &Vec<String>) -> (r: String)
    ensures
        r@ == row_object(qualifier(prefix@), text::texts(columns@)),
{
    if prefix.is_empty() {
        let none = String::new();
        object_expr(none.as_str(), columns)
    } else {
        let mut q = prefix.to_string();
        q.append(".");
        object_expr(q.as_str(), columns)
    }
}

/// The bound value of a JSON value.
pub fn json_to_value(v: &Json) -> (r: SqlValue)
    ensures
        r@ == bound(v@),
{
    match v {
        Json::Null => SqlValue::Null,
        Json::Bool(b) => SqlValue::Integer(
            if *b {
                1
            } else {
                0
            },
        ),
        Json::Number(n) => match n.as_i64() {
            Some(i) => SqlValue::Integer(i),
            None => SqlValue::Real(n.as_double()),
        },
        Json::Text(s) => SqlValue::Text(s.clone()),
        Json::Array(_) => SqlValue::Text(v.to_text()),
        Json::Object(_) => SqlValue::Text(v.to_text()),
    }
}

proof fn lemma_doubled_injective(a: Seq<char>, b: Seq<char>, q: char)
    requires
        doubled(a, q) == doubled(b, q),
    ensures
        a == b,
    decreases a.len() + b.len(),
{
    if a.len() == 0 || b.len() == 0 {
        if a.len() > 0 {
            assert(doubled(a, q).len() > 0);
        }
        if b.len() > 0 {
            assert(doubled(b, q).len() > 0);
        }
        assert(a =~= b);
    } else {
        let (da, db) = (doubled(a, q), doubled(b, q));
        assert(da.last() == a.last());
        assert(db.last() == b.last());
        let (fa, fb) = (doubled(a.drop_last(), q), doubled(b.drop_last(), q));
        if a.last() == q {
            assert(da.drop_last().drop_last() =~= fa);
            assert(db.drop_last().drop_last() =~= fb);
        } else {
            assert(da.drop_last() =~= fa);
            assert(db.drop_last() =~= fb);
        }
        lemma_doubled_injective(a.drop_last(), b.drop_last(), q);
        assert(a =~= a.drop_last().push(a.last()));
        assert(b =~= b.drop_last().push(b.last()));
    }
}

/// Two names that are written alike are the same name, and likewise two text literals: no
/// character of a name or a text can end its quotation.
pub proof fn law_quoting_is_injective(a: Seq<char>, b: Seq<char>)
    ensures
        ident(a) == ident(b) ==> a == b,
        literal(a) == literal(b) ==> a == b,
{
    if ident(a) == ident(b) {
        assert(ident(a).drop_first().drop_last() =~= doubled(a, '"'));
        assert(ident(b).drop_first().drop_last() =~= doubled(b, '"'));
        lemma_doubled_injective(a, b, '"');
    }
    if literal(a) == literal(b) {
        assert(literal(a).drop_first().drop_last() =~= doubled(a, '\''));
        assert(literal(b).drop_first().drop_last() =~= doubled(b, '\''));
        lemma_doubled_injective(a, b, '\'');
    }
}

/// A text that lacks the quote character is written between two of them as it is.
pub proof fn law_plain_texts_are_written_as_they_are(s: Seq<char>, q: char)
    requires
        forall|i: int| 0 <= i < s.len() ==> #[trigger] s[i] != q,
    ensures
        enclosed(s, q) == seq![q] + s + seq![q],
    decreases s.len(),
{
    if s.len() > 0 {
        let front = s.drop_last();
        assert forall|i: int| 0 <= i < front.len() implies #[trigger] front[i] != q by {
            assert(front[i] == s[i]);
        }
        law_plain_texts_are_written_as_they_are(front, q);
        assert(s[s.len() - 1] != q);
        let (a, b) = (enclosed(front, q), seq![q] + front + seq![q]);
        assert(doubled(front, q) =~= a.subrange(1, a.len() - 1));
        assert(front =~= b.subrange(1, b.len() - 1));
        assert(doubled(s, q) =~= s);
    } else {
        assert(doubled(s, q) =~= s);
    }
}

/// A quote character in a text is written twice, and what stands before and behind it as it would be
/// on its own.
pub proof fn law_quotes_are_doubled(a: Seq<char>, b: Seq<char>, q: char)
    ensures
        doubled(a + seq![q] + b, q) == doubled(a, q) + seq![q, q] + doubled(b, q),
    decreases b.len(),
{
    let s = a + seq![q] + b;
    if b.len() == 0 {
        assert(s.drop_last() =~= a);
        assert(doubled(s, q) =~= doubled(a, q) + seq![q, q] + doubled(b, q));
    } else {
        assert(s.drop_last() =~= a + seq![q] + b.drop_last());
        law_quotes_are_doubled(a, b.drop_last(), q);
        assert(doubled(s, q) =~= doubled(a, q) + seq![q, q] + doubled(b, q));
    }
}

/// What is bound for a value: null for null, one and zero for true and false, an integer that fits
/// as it is, a text as it is, every other number as a double with its order, and what has parts as
/// its text.
pub proof fn law_values_are_bound_as_they_are(n: i64, s: Seq<char>, x: number::NumberView, v: JsonView)
    ensures
        bound(JsonView::Null) == SqlView::Null,
        bound(JsonView::Bool(true)) == bound(JsonView::Number(number::integer(1))),
        bound(JsonView::Bool(false)) == bound(JsonView::Number(number::integer(0))),
        bound(JsonView::Number(number::integer(n))) == SqlView::Integer(n),
        bound(JsonView::Text(s)) == SqlView::Text(s),
        x is Float ==> bound(JsonView::Number(x)) == SqlView::Real(x->bits),
        bound(JsonView::Number(x)) matches SqlView::Real(b) ==> number::as_i64(x) is None,
        bound(JsonView::Number(x)) matches SqlView::Real(b) ==> number::signed_magnitude(b) == number::order_key(x),
        v is Array || v is Object ==> bound(v) == SqlView::Text(json::encoded(v)),
{
    number::law_doubles_keep_the_order(x);
}

/// A row without a name is not qualified, and one with a name by the name and a dot.
pub proof fn law_rows_are_qualified_by_name(prefix: Seq<char>)
    ensures
        prefix.len() == 0 ==> qualifier(prefix).len() == 0,
        prefix.len() > 0 ==> qualifier(prefix) == prefix.push('.'),
{
    reveal_strlit(".");
    assert(prefix + "."@ =~= prefix.push('.'));
}

} // verus!

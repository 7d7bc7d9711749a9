//! JSON values: equality, lookup in objects, and compact text.
//!
//! An object keeps its keys in the order of texts, each of them once, so that two equal
//! objects have the same entries in the same places and the compact text of a value is
//! its canonical text.
use vstd::prelude::*;
use crate::number;
use crate::number::{Number, NumberView};
use crate::text;

verus! {

/// A JSON value.
#[derive(Debug)]
pub enum Json {
    Null,
    Bool(bool),
    Number(Number),
    Text(String),
    Array(Vec<Json>),
    Object(JsonObject),
}

/// A JSON object.
#[derive(Debug)]
pub struct JsonObject {
    entries: Vec<(String, Json)>,
}

/// The model of a JSON value.
pub enum JsonView {
    Null,
    Bool(bool),
    Number(NumberView),
    Text(Seq<char>),
    Array(Seq<JsonView>),
    Object(Seq<(Seq<char>, JsonView)>),
}

impl View for Json {
    type V = JsonView;

    open spec fn view(&self) -> JsonView
        decreases self,
    {
        match self {
            Json::Null => JsonView::Null,
            Json::Bool(b) => JsonView::Bool(*b),
            Json::Number(n) => JsonView::Number(n@),
            Json::Text(s) => JsonView::Text(s@),
            Json::Array(a) => JsonView::Array(
                Seq::new(
                    a@.len(),
                    |i: int|
                        if 0 <= i < a@.len() {
                            a@[i].view()
                        } else {
                            JsonView::Null
                        },
                ),
            ),
            Json::Object(o) => JsonView::Object(o.view()),
        }
    }
}

impl View for JsonObject {
    type V = Seq<(Seq<char>, JsonView)>;

    closed spec fn view(&self) -> Seq<(Seq<char>, JsonView)>
        decreases self,
    {
        let e = self.entries;
        Seq::new(
            e@.len(),
            |i: int|
                if 0 <= i < e@.len() {
                    (e@[i].0@, e@[i].1.view())
                } else {
                    (Seq::empty(), JsonView::Null)
                },
        )
    }
}

/// The models of the values of a list.
pub open spec fn views(list: Seq<Json>) -> Seq<JsonView> {
    Seq::new(list.len(), |i: int| list[i]@)
}

/// Whether the keys of some entries are in the order of texts, each of them once.
pub open spec fn keys_increasing(entries: Seq<(Seq<char>, JsonView)>) -> bool {
    forall|i: int, j: int|
        0 <= i < j < entries.len() ==> text::leq((#[trigger] entries[i]).0, (#[trigger] entries[j]).0)
            && entries[i].0 != entries[j].0
}

/// The value of a key.
pub open spec fn lookup(entries: Seq<(Seq<char>, JsonView)>, key: Seq<char>) -> Option<JsonView>
    decreases entries.len(),
{
    if entries.len() == 0 {
        None
    } else if entries.last().0 == key {
        Some(entries.last().1)
    } else {
        lookup(entries.drop_last(), key)
    }
}

/// The entries with the value of a key set: in place where the key is there, else at the place
/// that the order of the keys gives it.
pub open spec fn put(
    entries: Seq<(Seq<char>, JsonView)>,
    key: Seq<char>,
    value: JsonView,
) -> Seq<(Seq<char>, JsonView)>
    decreases entries.len(),
{
    if entries.len() == 0 {
        seq![(key, value)]
    } else if entries.last().0 == key {
        entries.drop_last().push((key, value))
    } else if text::leq(entries.last().0, key) {
        entries.push((key, value))
    } else {
        put(entries.drop_last(), key, value).push(entries.last())
    }
}

/// The entries whose keys are among some keys.
pub open spec fn among(entries: Seq<(Seq<char>, JsonView)>, keys: Seq<Seq<char>>) -> Seq<(Seq<char>, JsonView)>
    decreases entries.len(),
{
    if entries.len() == 0 {
        Seq::empty()
    } else if keys.contains(entries.last().0) {
        among(entries.drop_last(), keys).push(entries.last())
    } else {
        among(entries.drop_last(), keys)
    }
}

/// A value reduced to some keys: an object keeps the entries of these keys, another value has
/// none to lose.
pub open spec fn projected(v: JsonView, keys: Seq<Seq<char>>) -> JsonView {
    match v {
        JsonView::Object(entries) => JsonView::Object(among(entries, keys)),
        _ => v,
    }
}

/// The value of a key in a value: `None` where the value is no object.
pub open spec fn field(v: JsonView, key: Seq<char>) -> Option<JsonView> {
    match v {
        JsonView::Object(entries) => lookup(entries, key),
        _ => None,
    }
}

/// The integer of a value, where it is one that fits.
pub open spec fn integer_of(v: JsonView) -> Option<i64> {
    match v {
        JsonView::Number(n) => number::as_i64(n),
        _ => None,
    }
}

/// The text of a value, where it is a string.
pub open spec fn text_of(v: JsonView) -> Option<Seq<char>> {
    match v {
        JsonView::Text(s) => Some(s),
        _ => None,
    }
}

/// Equality of JSON values.
pub open spec fn same_json(a: JsonView, b: JsonView) -> bool
    decreases a,
{
    match (a, b) {
        (JsonView::Null, JsonView::Null) => true,
        (JsonView::Bool(x), JsonView::Bool(y)) => x == y,
        (JsonView::Number(x), JsonView::Number(y)) => number::same_number(x, y),
        (JsonView::Text(x), JsonView::Text(y)) => x == y,
        (JsonView::Array(x), JsonView::Array(y)) => {
            &&& x.len() == y.len()
            &&& forall|i: int| 0 <= i < x.len() ==> same_json(#[trigger] x[i], y[i])
        },
        (JsonView::Object(x), JsonView::Object(y)) => {
            &&& x.len() == y.len()
            &&& forall|i: int|
                0 <= i < x.len() ==> (#[trigger] x[i]).0 == y[i].0 && same_json(x[i].1, y[i].1)
        },
        _ => false,
    }
}

/// The model of a value that may be missing.
pub open spec fn option_view(v: Option<Json>) -> Option<JsonView> {
    match v {
        Some(j) => Some(j@),
        None => None,
    }
}

/// Equality of JSON values that may be missing.
pub open spec fn same_option(a: Option<JsonView>, b: Option<JsonView>) -> bool {
    match (a, b) {
        (Some(x), Some(y)) => same_json(x, y),
        (None, None) => true,
        _ => false,
    }
}

/// How a character is written in a JSON string.
pub open spec fn escape(c: char) -> Seq<char> {
    if c == '"' {
        seq!['\\', '"']
    } else if c == '\\' {
        seq!['\\', '\\']
    } else if c as u32 == 8 {
        seq!['\\', 'b']
    } else if c as u32 == 9 {
        seq!['\\', 't']
    } else if c as u32 == 10 {
        seq!['\\', 'n']
    } else if c as u32 == 12 {
        seq!['\\', 'f']
    } else if c as u32 == 13 {
        seq!['\\', 'r']
    } else if (c as u32) < 32 {
        seq![
            '\\',
            'u',
            '0',
            '0',
            crate::sha256::hex_digit(c as int / 16),
            crate::sha256::hex_digit(c as int % 16),
        ]
    } else {
        seq![c]
    }
}

/// The inside of a JSON string.
pub open spec fn escaped(s: Seq<char>) -> Seq<char>
    decreases s.len(),
{
    if s.len() == 0 {
        Seq::empty()
    } else {
        escape(s[0]) + escaped(s.skip(1))
    }
}

/// A text as a JSON string.
pub open spec fn quoted(s: Seq<char>) -> Seq<char> {
    seq!['"'] + escaped(s) + seq!['"']
}

/// The text of a number.
pub open spec fn number_text(n: NumberView) -> Seq<char> {
    match n {
        NumberView::PosInt(n) => text::decimal(n as int),
        NumberView::NegInt(n) => text::decimal(n as int),
        NumberView::Float { text, .. } => text,
    }
}

/// The compact text of a value, without white space.
pub open spec fn encoded(v: JsonView) -> Seq<char>
    decreases v,
{
    match v {
        JsonView::Null => seq!['n', 'u', 'l', 'l'],
        JsonView::Bool(b) => if b {
            seq!['t', 'r', 'u', 'e']
        } else {
            seq!['f', 'a', 'l', 's', 'e']
        },
        JsonView::Number(n) => number_text(n),
        JsonView::Text(s) => quoted(s),
        JsonView::Array(a) => bracketed('[', encoded_list(a), ']'),
        JsonView::Object(o) => bracketed('{', encoded_entries(o), '}'),
    }
}

/// The compact texts of some values.
pub open spec fn encoded_list(list: Seq<JsonView>) -> Seq<Seq<char>>
    decreases list,
{
    if list.len() == 0 {
        Seq::empty()
    } else {
        encoded_list(list.drop_last()).push(encoded(list.last()))
    }
}

/// The compact texts of some entries of an object.
pub open spec fn encoded_entries(entries: Seq<(Seq<char>, JsonView)>) -> Seq<Seq<char>>
    decreases entries,
{
    if entries.len() == 0 {
        Seq::empty()
    } else {
        encoded_entries(entries.drop_last()).push(entry_text(entries.last().0, encoded(entries.last().1)))
    }
}

/// An entry of an object: its key, a colon, and the text of its value.
pub open spec fn entry_text(key: Seq<char>, value: Seq<char>) -> Seq<char> {
    quoted(key) + seq![':'] + value
}

/// Some texts with commas between them, inside brackets.
pub open spec fn bracketed(open: char, parts: Seq<Seq<char>>, close: char) -> Seq<char> {
    seq![open] + text::joined(parts, seq![',']) + seq![close]
}

/// A text as a JSON string, by `serde_json::to_string`, which cannot fail for a text: a quote
/// and a backslash get a backslash, the characters below space are written as escapes, and
/// every other character stands for itself.
#[verifier::external_body]
pub(crate) fn json_string(s: &str) -> (r: String)
    ensures
        r@ == quoted(s@),
{
    serde_json::to_string(s).unwrap()
}

/// `serde_json::from_str` for a list of texts: the texts of a JSON array of strings, `None` where
/// the text is no such array.
pub uninterp spec fn parsed_texts(s: Seq<char>) -> Option<Seq<Seq<char>>>;

/// The model of a list of texts that may be missing.
pub open spec fn option_texts(list: Option<Vec<String>>) -> Option<Seq<Seq<char>>> {
    match list {
        Some(v) => Some(text::texts(v@)),
        None => None,
    }
}

/// The texts of a JSON array of strings, by `serde_json::from_str`, which fails where the text is
/// no such array. What it accepts besides the compact form stays unsaid: the result has a name.
#[verifier::external_body]
pub(crate) fn texts_from_json(s: &str) -> (r: Option<Vec<String>>)
    ensures
        option_texts(r) == parsed_texts(s@),
{
    serde_json::from_str::<Vec<String>>(s).ok()
}

/// Some texts as a JSON array of strings, by `serde_json::to_string`, which cannot fail for texts:
/// the compact form, from which `serde_json::from_str` reads the same texts again.
#[verifier::external_body]
pub(crate) fn texts_to_json(list: &Vec<String>) -> (r: String)
    ensures
        r@ == encoded(JsonView::Array(text_values(text::texts(list@)))),
        parsed_texts(r@) == Some(text::texts(list@)),
{
    serde_json::to_string(list).unwrap()
}

proof fn lemma_leq_total_order()
    ensures
        forall|a: Seq<char>| #[trigger] text::leq(a, a),
        forall|a: Seq<char>, b: Seq<char>| #[trigger] text::leq(a, b) && #[trigger] text::leq(b, a) ==> a == b,
        forall|a: Seq<char>, b: Seq<char>| #[trigger] text::leq(a, b) || #[trigger] text::leq(b, a),
        forall|a: Seq<char>, b: Seq<char>, c: Seq<char>|
            #[trigger] text::leq(a, b) && #[trigger] text::leq(b, c) ==> text::leq(a, c),
{
    text::lemma_order_is_total();
    let r = text::order();
    assert forall|a: Seq<char>| #[trigger] text::leq(a, a) by {
        assert(r(a, a));
    }
    assert forall|a: Seq<char>, b: Seq<char>| #[trigger] text::leq(a, b) && #[trigger] text::leq(b, a) implies a
        == b by {
        assert(r(a, b) && r(b, a));
    }
    assert forall|a: Seq<char>, b: Seq<char>| #[trigger] text::leq(a, b) || #[trigger] text::leq(b, a) by {
        assert(r(a, b) || r(b, a));
    }
    assert forall|a: Seq<char>, b: Seq<char>, c: Seq<char>|
        #[trigger] text::leq(a, b) && #[trigger] text::leq(b, c) implies text::leq(a, c) by {
        assert(r(a, b) && r(b, c));
        assert(r(a, c));
    }
}

/// Where `put` puts an entry: behind `pos` entries, or in place of the last of them.
proof fn lemma_put_at(entries: Seq<(Seq<char>, JsonView)>, key: Seq<char>, value: JsonView, pos: int)
    requires
        0 <= pos <= entries.len(),
        pos == 0 || text::leq(entries[pos - 1].0, key),
        forall|j: int| pos <= j < entries.len() ==> !text::leq((#[trigger] entries[j]).0, key),
    ensures
        put(entries, key, value) == (if pos > 0 && entries[pos - 1].0 == key {
            entries.update(pos - 1, (key, value))
        } else {
            entries.insert(pos, (key, value))
        }),
    decreases entries.len(),
{
    lemma_leq_total_order();
    if pos == entries.len() {
        if pos > 0 && entries.last().0 == key {
            assert(entries.drop_last().push((key, value)) =~= entries.update(pos - 1, (key, value)));
        } else {
            assert(entries.insert(pos, (key, value)) =~= entries.push((key, value)));
        }
    } else {
        let front = entries.drop_last();
        assert(!text::leq(entries[entries.len() - 1].0, key));
        assert forall|j: int| pos <= j < front.len() implies !text::leq((#[trigger] front[j]).0, key) by {
            assert(front[j] == entries[j]);
        }
        lemma_put_at(front, key, value, pos);
        if pos > 0 && entries[pos - 1].0 == key {
            assert(front.update(pos - 1, (key, value)).push(entries.last()) =~= entries.update(
                pos - 1,
                (key, value),
            ));
        } else {
            assert(front.insert(pos, (key, value)).push(entries.last()) =~= entries.insert(pos, (key, value)));
        }
    }
}

/// Setting the value of a key keeps the keys in order.
proof fn lemma_put_keeps_order(entries: Seq<(Seq<char>, JsonView)>, key: Seq<char>, value: JsonView)
    requires
        keys_increasing(entries),
    ensures
        keys_increasing(put(entries, key, value)),
        forall|i: int|
            0 <= i < put(entries, key, value).len() ==> {
                ||| (#[trigger] put(entries, key, value)[i]).0 == key
                ||| exists|k: int| 0 <= k < entries.len() && entries[k].0 == put(entries, key, value)[i].0
            },
    decreases entries.len(),
{
    lemma_leq_total_order();
    let r = put(entries, key, value);
    if entries.len() == 0 {
    } else if entries.last().0 == key {
        assert forall|i: int| 0 <= i < r.len() implies {
            ||| (#[trigger] r[i]).0 == key
            ||| exists|k: int| 0 <= k < entries.len() && entries[k].0 == r[i].0
        } by {
            if i < entries.len() - 1 {
                assert(entries[i].0 == r[i].0);
            }
        }
    } else if text::leq(entries.last().0, key) {
        assert forall|i: int, j: int| 0 <= i < j < r.len() implies text::leq((#[trigger] r[i]).0, (
        #[trigger] r[j]).0) && r[i].0 != r[j].0 by {
            if j == entries.len() && i < entries.len() - 1 {
                let m = entries[entries.len() - 1];
                assert(text::leq(entries[i].0, m.0));
                assert(text::leq(m.0, key));
            }
        }
        assert forall|i: int| 0 <= i < r.len() implies {
            ||| (#[trigger] r[i]).0 == key
            ||| exists|k: int| 0 <= k < entries.len() && entries[k].0 == r[i].0
        } by {
            if i < entries.len() {
                assert(entries[i].0 == r[i].0);
            }
        }
    } else {
        let front = entries.drop_last();
        let last = entries.last();
        assert forall|i: int, j: int| 0 <= i < j < front.len() implies text::leq((#[trigger] front[i]).0, (
        #[trigger] front[j]).0) && front[i].0 != front[j].0 by {
            assert(front[i] == entries[i] && front[j] == entries[j]);
        }
        lemma_put_keeps_order(front, key, value);
        let mid = put(front, key, value);
        assert(text::leq(key, last.0));
        assert forall|i: int| 0 <= i < mid.len() implies text::leq((#[trigger] mid[i]).0, last.0) && mid[i].0
            != last.0 by {
            if mid[i].0 != key {
                let k = choose|k: int| 0 <= k < front.len() && front[k].0 == mid[i].0;
                assert(entries[k] == front[k]);
                assert(entries[entries.len() - 1] == last);
            }
        }
        assert forall|i: int| 0 <= i < r.len() implies {
            ||| (#[trigger] r[i]).0 == key
            ||| exists|k: int| 0 <= k < entries.len() && entries[k].0 == r[i].0
        } by {
            if i < mid.len() {
                assert(r[i] == mid[i]);
                if mid[i].0 != key {
                    let k = choose|k: int| 0 <= k < front.len() && front[k].0 == mid[i].0;
                    assert(entries[k].0 == r[i].0);
                }
            } else {
                assert(entries[entries.len() - 1].0 == r[i].0);
            }
        }
    }
}

/// A key reads back the value that it was set to last, and setting it leaves every other key
/// as it was.
pub proof fn law_put_then_lookup(
    entries: Seq<(Seq<char>, JsonView)>,
    key: Seq<char>,
    value: JsonView,
    other: Seq<char>,
)
    requires
        keys_increasing(entries),
        other != key,
    ensures
        lookup(put(entries, key, value), key) == Some(value),
        lookup(put(entries, key, value), other) == lookup(entries, other),
        keys_increasing(put(entries, key, value)),
    decreases entries.len(),
{
    lemma_put_keeps_order(entries, key, value);
    let r = put(entries, key, value);
    if entries.len() == 0 {
        reveal_with_fuel(lookup, 2);
        assert(r.drop_last() =~= Seq::empty());
    } else if entries.last().0 == key {
        assert(r.drop_last() =~= entries.drop_last());
    } else if text::leq(entries.last().0, key) {
        assert(r.drop_last() =~= entries);
    } else {
        let front = entries.drop_last();
        assert forall|i: int, j: int| 0 <= i < j < front.len() implies text::leq((#[trigger] front[i]).0, (
        #[trigger] front[j]).0) && front[i].0 != front[j].0 by {
            assert(front[i] == entries[i] && front[j] == entries[j]);
        }
        law_put_then_lookup(front, key, value, other);
        assert(r.drop_last() =~= put(front, key, value));
        assert(r.last() == entries.last());
    }
}

proof fn lemma_among_keys(entries: Seq<(Seq<char>, JsonView)>, keys: Seq<Seq<char>>)
    ensures
        forall|i: int|
            0 <= i < among(entries, keys).len() ==> exists|k: int|
                0 <= k < entries.len() && entries[k] == #[trigger] among(entries, keys)[i],
    decreases entries.len(),
{
    if entries.len() > 0 {
        let front = entries.drop_last();
        lemma_among_keys(front, keys);
        let r = among(entries, keys);
        assert forall|i: int| 0 <= i < r.len() implies exists|k: int|
            0 <= k < entries.len() && entries[k] == #[trigger] r[i] by {
            if i < among(front, keys).len() {
                let k = choose|k: int| 0 <= k < front.len() && front[k] == among(front, keys)[i];
                assert(entries[k] == r[i]);
            } else {
                assert(entries[entries.len() - 1] == r[i]);
            }
        }
    }
}

proof fn lemma_lookup_among(entries: Seq<(Seq<char>, JsonView)>, keys: Seq<Seq<char>>, key: Seq<char>)
    ensures
        lookup(among(entries, keys), key) == (if keys.contains(key) {
            lookup(entries, key)
        } else {
            None
        }),
    decreases entries.len(),
{
    if entries.len() > 0 {
        let front = entries.drop_last();
        lemma_lookup_among(front, keys, key);
        if keys.contains(entries.last().0) {
            assert(among(entries, keys).drop_last() =~= among(front, keys));
        }
    }
}

/// A value reduced to some keys has the values of these keys that it had, and no others.
pub proof fn law_projection_keeps_its_keys(v: JsonView, keys: Seq<Seq<char>>, key: Seq<char>)
    ensures
        field(projected(v, keys), key) == (if keys.contains(key) {
            field(v, key)
        } else {
            None
        }),
{
    if let JsonView::Object(entries) = v {
        lemma_lookup_among(entries, keys, key);
    }
}

/// The values of all keys once one is set.
pub proof fn lemma_lookups_after_put(entries: Seq<(Seq<char>, JsonView)>, key: Seq<char>, value: JsonView)
    requires
        keys_increasing(entries),
    ensures
        keys_increasing(put(entries, key, value)),
        forall|other: Seq<char>| #[trigger]
            lookup(put(entries, key, value), other) == (if other == key {
                Some(value)
            } else {
                lookup(entries, other)
            }),
{
    lemma_put_keeps_order(entries, key, value);
    assert forall|other: Seq<char>| #[trigger]
        lookup(put(entries, key, value), other) == (if other == key {
            Some(value)
        } else {
            lookup(entries, other)
        }) by {
        if other == key {
            law_put_then_lookup(entries, key, value, key.push('x'));
        } else {
            law_put_then_lookup(entries, key, value, other);
        }
    }
}

impl JsonObject {
    #[verifier::type_invariant]
    closed spec fn inv(&self) -> bool {
        keys_increasing(self@)
    }

    /// An object without entries.
    pub fn new() -> (r: JsonObject)
        ensures
            r@ == Seq::<(Seq<char>, JsonView)>::empty(),
    {
        let entries: Vec<(String, Json)> = Vec::new();
        let r = JsonObject { entries };
        assert(r@ =~= Seq::empty());
        r
    }

    /// The number of entries.
    pub fn len(&self) -> (r: usize)
        ensures
            r == self@.len(),
            keys_increasing(self@),
    {
        proof {
            use_type_invariant(self);
        }
        self.entries.len()
    }

    /// The key of an entry.
    pub fn key_at(&self, i: usize) -> (r: &String)
        requires
            i < self@.len(),
        ensures
            r@ == self@[i as int].0,
    {
        &self.entries[i].0
    }

    /// The value of an entry.
    pub fn value_at(&self, i: usize) -> (r: &Json)
        requires
            i < self@.len(),
        ensures
            r@ == self@[i as int].1,
            decreases_to!(self => r),
    {
        &self.entries[i].1
    }

    /// The value of a key.
    pub fn get(&self, key: &str) -> (r: Option<&Json>)
        ensures
            match r {
                Some(v) => lookup(self@, key@) == Some(v@) && decreases_to!(self => v),
                None => lookup(self@, key@) is None,
            },
    {
        let mut i: usize = self.entries.len();
        assert(self@.take(self@.len() as int) =~= self@);
        while i > 0
            invariant
                i <= self.entries@.len(),
                self@.len() == self.entries@.len(),
                lookup(self@, key@) == lookup(self@.take(i as int), key@),
            decreases i,
        {
            i -= 1;
            let ghost front = self@.take(i + 1);
            assert(front.last() == self@[i as int]);
            assert(front.drop_last() =~= self@.take(i as int));
            if text::same_text(self.entries[i].0.as_str(), key) {
                return Some(self.value_at(i));
            }
        }
        None
    }

    /// Sets the value of a key.
    pub fn insert(&mut self, key: String, value: Json)
        ensures
            final(self)@ == put(old(self)@, key@, value@),
    {
        proof {
            use_type_invariant(&*self);
            lemma_put_keeps_order(self@, key@, value@);
            lemma_leq_total_order();
        }
        let ghost before = self@;
        let mut entries: Vec<(String, Json)> = Vec::new();
        std::mem::swap(&mut entries, &mut self.entries);
        let ghost old_entries = entries@;
        let mut pos: usize = entries.len();
        while pos > 0 && !text::text_leq(entries[pos - 1].0.as_str(), key.as_str())
            invariant
                entries@ == old_entries,
                before.len() == old_entries.len(),
                forall|j: int| 0 <= j < before.len() ==> (#[trigger] before[j]).0 == old_entries[j].0@,
                pos <= before.len(),
                forall|j: int| pos <= j < before.len() ==> !text::leq((#[trigger] before[j]).0, key@),
            decreases pos,
        {
            pos -= 1;
        }
        proof {
            lemma_put_at(before, key@, value@, pos as int);
        }
        let ghost want = put(before, key@, value@);
        if pos > 0 && text::same_text(entries[pos - 1].0.as_str(), key.as_str()) {
            entries.set(pos - 1, (key, value));
        } else {
            entries.insert(pos, (key, value));
        }
        assert(JsonObject { entries }@ =~= want);
        self.entries = entries;
    }
}

/// The model of an array is made of the models of its values.
pub proof fn lemma_array_view(list: Vec<Json>)
    ensures
        Json::Array(list)@ == JsonView::Array(views(list@)),
{
    reveal_with_fuel(<Json as View>::view, 2);
    assert(Json::Array(list)@->Array_0 =~= views(list@));
}

/// The object of the entries of an object whose keys are among some keys.
pub fn restrict_object(o: &JsonObject, keys: &Vec<String>) -> (r: JsonObject)
    ensures
        r@ == among(o@, text::texts(keys@)),
{
    proof {
        use_type_invariant(o);
    }
    let ghost all = o@;
    let ghost ks = text::texts(keys@);
    let mut out = JsonObject::new();
    let mut i: usize = 0;
    assert(all.take(0) =~= Seq::empty());
    while i < o.len()
        invariant
            i <= all.len(),
            all == o@,
            ks == text::texts(keys@),
            keys_increasing(all),
            out@ == among(all.take(i as int), ks),
        decreases all.len() - i,
    {
        let ghost front = all.take(i as int);
        assert(all.take(i + 1).drop_last() =~= front);
        if text::has_text(keys, o.key_at(i).as_str()) {
            proof {
                lemma_among_keys(front, ks);
                if out@.len() > 0 {
                    let k = choose|k: int| 0 <= k < front.len() && front[k] == out@[out@.len() - 1];
                    assert(front[k] == all[k]);
                    assert(text::leq(all[k].0, all[i as int].0) && all[k].0 != all[i as int].0);
                }
            }
            let ghost before = out@;
            let key = o.key_at(i).clone();
            let value = o.value_at(i).copy();
            out.insert(key, value);
            assert(out@ =~= before.push(all[i as int]));
        }
        i += 1;
    }
    assert(all.take(all.len() as int) =~= all);
    out
}

/// Copies of some values.
pub fn copy_list(list: &Vec<Json>) -> (r: Vec<Json>)
    ensures
        views(r@) == views(list@),
    decreases list,
{
    let mut out: Vec<Json> = Vec::new();
    let mut i: usize = 0;
    while i < list.len()
        invariant
            i <= list@.len(),
            out@.len() == i,
            forall|j: int| 0 <= j < i ==> (#[trigger] out@[j])@ == list@[j]@,
        decreases list@.len() - i,
    {
        assert(decreases_to!(list => list@[i as int]));
        out.push(list[i].copy());
        i += 1;
    }
    assert(views(out@) =~= views(list@));
    out
}

fn copy_entries(entries: &Vec<(String, Json)>) -> (r: Vec<(String, Json)>)
    ensures
        r@.len() == entries@.len(),
        forall|j: int|
            0 <= j < r@.len() ==> (#[trigger] r@[j]).0@ == entries@[j].0@ && r@[j].1@ == entries@[j].1@,
    decreases entries,
{
    let mut out: Vec<(String, Json)> = Vec::new();
    let mut i: usize = 0;
    while i < entries.len()
        invariant
            i <= entries@.len(),
            out@.len() == i,
            forall|j: int|
                0 <= j < i ==> (#[trigger] out@[j]).0@ == entries@[j].0@ && out@[j].1@ == entries@[j].1@,
        decreases entries@.len() - i,
    {
        assert(decreases_to!(entries => entries@[i as int].1));
        out.push((entries[i].0.clone(), entries[i].1.copy()));
        i += 1;
    }
    out
}

impl Json {
    fn copy(&self) -> (r: Json)
        ensures
            r@ == self@,
        decreases self,
    {
        match self {
            Json::Null => Json::Null,
            Json::Bool(b) => Json::Bool(*b),
            Json::Number(n) => Json::Number(n.clone()),
            Json::Text(s) => Json::Text(s.clone()),
            Json::Array(a) => {
                let r = copy_list(a);
                proof {
                    lemma_array_view(*a);
                    lemma_array_view(r);
                }
                Json::Array(r)
            },
            Json::Object(o) => {
                proof {
                    use_type_invariant(o);
                }
                let entries = copy_entries(&o.entries);
                assert(JsonObject { entries }@ =~= o@);
                Json::Object(JsonObject { entries })
            },
        }
    }
}

impl Clone for Json {
    fn clone(&self) -> (r: Json)
        ensures
            r@ == self@,
    {
        self.copy()
    }
}

fn same_list(a: &Vec<Json>, b: &Vec<Json>) -> (r: bool)
    ensures
        r == (a@.len() == b@.len() && forall|i: int|
            0 <= i < a@.len() ==> same_json(#[trigger] views(a@)[i], views(b@)[i])),
    decreases a,
{
    if a.len() != b.len() {
        return false;
    }
    let mut i: usize = 0;
    while i < a.len()
        invariant
            a@.len() == b@.len(),
            i <= a@.len(),
            forall|j: int| 0 <= j < i ==> same_json(#[trigger] views(a@)[j], views(b@)[j]),
        decreases a@.len() - i,
    {
        assert(decreases_to!(a => a@[i as int]));
        assert(views(a@)[i as int] == a@[i as int]@);
        assert(views(b@)[i as int] == b@[i as int]@);
        if !a[i].same(&b[i]) {
            return false;
        }
        i += 1;
    }
    true
}

fn same_object(a: &JsonObject, b: &JsonObject) -> (r: bool)
    ensures
        r == (a@.len() == b@.len() && forall|i: int|
            0 <= i < a@.len() ==> (#[trigger] a@[i]).0 == b@[i].0 && same_json(a@[i].1, b@[i].1)),
    decreases a,
{
    if a.len() != b.len() {
        return false;
    }
    let mut i: usize = 0;
    while i < a.len()
        invariant
            a@.len() == b@.len(),
            i <= a@.len(),
            forall|j: int| 0 <= j < i ==> (#[trigger] a@[j]).0 == b@[j].0 && same_json(a@[j].1, b@[j].1),
        decreases a@.len() - i,
    {
        if !text::same_text(a.key_at(i).as_str(), b.key_at(i).as_str()) {
            assert(a@[i as int].0 != b@[i as int].0);
            return false;
        }
        let x = a.value_at(i);
        let y = b.value_at(i);
        if !x.same(y) {
            assert(!same_json(a@[i as int].1, b@[i as int].1));
            return false;
        }
        i += 1;
    }
    true
}

fn list_texts(list: &Vec<Json>) -> (r: Vec<String>)
    ensures
        text::texts(r@) == encoded_list(views(list@)),
    decreases list,
{
    let mut out: Vec<String> = Vec::new();
    let mut i: usize = 0;
    while i < list.len()
        invariant
            i <= list@.len(),
            text::texts(out@) == encoded_list(views(list@).take(i as int)),
        decreases list@.len() - i,
    {
        assert(decreases_to!(list => list@[i as int]));
        assert(views(list@).take(i + 1).drop_last() =~= views(list@).take(i as int));
        out.push(list[i].to_text());
        i += 1;
        assert(text::texts(out@) =~= encoded_list(views(list@).take(i as int)));
    }
    assert(views(list@).take(list@.len() as int) =~= views(list@));
    out
}

fn entry_texts(o: &JsonObject) -> (r: Vec<String>)
    ensures
        text::texts(r@) == encoded_entries(o@),
    decreases o,
{
    let mut out: Vec<String> = Vec::new();
    let mut i: usize = 0;
    while i < o.len()
        invariant
            i <= o@.len(),
            text::texts(out@) == encoded_entries(o@.take(i as int)),
        decreases o@.len() - i,
    {
        let mut entry = json_string(o.key_at(i).as_str());
        entry.push(':');
        let value = o.value_at(i).to_text();
        entry.append(value.as_str());
        assert(entry@ =~= entry_text(o@[i as int].0, encoded(o@[i as int].1)));
        assert(o@.take(i + 1).drop_last() =~= o@.take(i as int));
        out.push(entry);
        i += 1;
        assert(text::texts(out@) =~= encoded_entries(o@.take(i as int)));
    }
    assert(o@.take(o@.len() as int) =~= o@);
    out
}

/// Some texts with commas between them, inside brackets.
pub fn bracket(open: char, parts: &Vec<String>, close: char) -> (r: String)
    ensures
        r@ == bracketed(open, text::texts(parts@), close),
{
    let mut out = String::new();
    out.push(open);
    let inner = text::join(parts, ",");
    out.append(inner.as_str());
    out.push(close);
    proof {
        reveal_strlit(",");
        assert(","@ =~= seq![',']);
        assert(out@ =~= bracketed(open, text::texts(parts@), close));
    }
    out
}

impl Json {
    /// Whether this value equals another.
    pub fn same(&self, other: &Json) -> (r: bool)
        ensures
            r == same_json(self@, other@),
        decreases self,
    {
        match (self, other) {
            (Json::Null, Json::Null) => true,
            (Json::Bool(x), Json::Bool(y)) => *x == *y,
            (Json::Number(x), Json::Number(y)) => x.same(y),
            (Json::Text(x), Json::Text(y)) => text::same_text(x.as_str(), y.as_str()),
            (Json::Array(x), Json::Array(y)) => {
                proof {
                    lemma_array_view(*x);
                    lemma_array_view(*y);
                }
                same_list(x, y)
            },
            (Json::Object(x), Json::Object(y)) => same_object(x, y),
            _ => false,
        }
    }

    /// The compact text of the value.
    pub fn to_text(&self) -> (r: String)
        ensures
            r@ == encoded(self@),
        decreases self,
    {
        match self {
            Json::Null => {
                proof {
                    reveal_strlit("null");
                    assert("null"@ =~= seq!['n', 'u', 'l', 'l']);
                }
                "null".to_string()
            },
            Json::Bool(b) => {
                proof {
                    reveal_strlit("true");
                    reveal_strlit("false");
                    assert("true"@ =~= seq!['t', 'r', 'u', 'e']);
                    assert("false"@ =~= seq!['f', 'a', 'l', 's', 'e']);
                }
                if *b {
                    "true".to_string()
                } else {
                    "false".to_string()
                }
            },
            Json::Number(n) => match n {
                Number::PosInt(n) => text::decimal_u64(*n),
                Number::NegInt(n) => text::decimal_i64(*n),
                Number::Float { bits: _, text } => text.clone(),
            },
            Json::Text(s) => json_string(s.as_str()),
            Json::Array(a) => {
                proof {
                    lemma_array_view(*a);
                }
                bracket('[', &list_texts(a), ']')
            },
            Json::Object(o) => bracket('{', &entry_texts(o), '}'),
        }
    }

    /// Whether the value is null.
    pub fn is_null(&self) -> (r: bool)
        ensures
            r == (self@ == JsonView::Null),
    {
        match self {
            Json::Null => true,
            _ => false,
        }
    }

    /// The value of a key: `None` where the value is no object.
    pub fn get(&self, key: &str) -> (r: Option<&Json>)
        ensures
            match r {
                Some(v) => field(self@, key@) == Some(v@),
                None => field(self@, key@) is None,
            },
    {
        match self {
            Json::Object(o) => o.get(key),
            _ => None,
        }
    }

    /// The value reduced to some keys.
    pub fn project(&self, keys: &Vec<String>) -> (r: Json)
        ensures
            r@ == projected(self@, text::texts(keys@)),
    {
        match self {
            Json::Object(o) => Json::Object(restrict_object(o, keys)),
            _ => self.copy(),
        }
    }

    /// The integer of the value, where it is one that fits.
    pub fn as_i64(&self) -> (r: Option<i64>)
        ensures
            r == integer_of(self@),
    {
        match self {
            Json::Number(n) => n.as_i64(),
            _ => None,
        }
    }

    /// The text of the value, where it is a string.
    pub fn as_text(&self) -> (r: Option<&String>)
        ensures
            match r {
                Some(s) => text_of(self@) == Some(s@),
                None => text_of(self@) is None,
            },
    {
        match self {
            Json::Text(s) => Some(s),
            _ => None,
        }
    }

    /// The JSON number of an integer.
    pub fn integer(n: i64) -> (r: Json)
        ensures
            r@ == JsonView::Number(number::integer(n)),
    {
        if n < 0 {
            Json::Number(Number::NegInt(n))
        } else {
            Json::Number(Number::PosInt(n as u64))
        }
    }

    /// The JSON string of a text.
    pub fn text(s: &str) -> (r: Json)
        ensures
            r@ == JsonView::Text(s@),
    {
        Json::Text(s.to_string())
    }

    /// The JSON array of some texts.
    pub fn texts(list: &Vec<String>) -> (r: Json)
        ensures
            r@ == JsonView::Array(text_values(text::texts(list@))),
    {
        let mut out: Vec<Json> = Vec::new();
        let mut i: usize = 0;
        while i < list.len()
            invariant
                i <= list@.len(),
                out@.len() == i,
                forall|j: int| 0 <= j < i ==> (#[trigger] out@[j])@ == JsonView::Text(list@[j]@),
            decreases list@.len() - i,
        {
            out.push(Json::Text(list[i].clone()));
            i += 1;
        }
        proof {
            lemma_array_view(out);
            assert(views(out@) =~= text_values(text::texts(list@)));
        }
        Json::Array(out)
    }
}

/// The JSON strings of some texts.
pub open spec fn text_values(list: Seq<Seq<char>>) -> Seq<JsonView> {
    Seq::new(list.len(), |i: int| JsonView::Text(list[i]))
}

impl PartialEq for Json {
    fn eq(&self, other: &Json) -> (r: bool) {
        self.same(other)
    }
}

impl Eq for Json {
}

impl vstd::std_specs::cmp::PartialEqSpecImpl for Json {
    open spec fn obeys_eq_spec() -> bool {
        true
    }

    open spec fn eq_spec(&self, other: &Json) -> bool {
        same_json(self@, other@)
    }
}

proof fn lemma_escape_prefix(c: char, d: char, x: Seq<char>, y: Seq<char>)
    requires
        escape(c) + x == escape(d) + y,
    ensures
        c == d,
        x == y,
{
    let (s, t) = (escape(c) + x, escape(d) + y);
    assert(s[0] == escape(c)[0] && t[0] == escape(d)[0]);
    if escape(c).len() > 1 {
        assert(s[1] == escape(c)[1]);
    }
    if escape(d).len() > 1 {
        assert(t[1] == escape(d)[1]);
    }
    if escape(c).len() == 6 {
        assert(s[4] == escape(c)[4] && s[5] == escape(c)[5]);
    }
    if escape(d).len() == 6 {
        assert(t[4] == escape(d)[4] && t[5] == escape(d)[5]);
    }
    assert(c == d);
    assert(x =~= s.skip(escape(c).len() as int));
    assert(y =~= t.skip(escape(c).len() as int));
}

proof fn lemma_escaped_prefix(a: Seq<char>, b: Seq<char>, x: Seq<char>, y: Seq<char>)
    requires
        escaped(a) + seq!['"'] + x == escaped(b) + seq!['"'] + y,
    ensures
        a == b,
        x == y,
    decreases a.len(),
{
    let (s, t) = (escaped(a) + seq!['"'] + x, escaped(b) + seq!['"'] + y);
    if a.len() == 0 || b.len() == 0 {
        if a.len() > 0 {
            assert(s[0] == escape(a[0])[0]);
            assert(t[0] == '"');
        }
        if b.len() > 0 {
            assert(t[0] == escape(b[0])[0]);
            assert(s[0] == '"');
        }
        assert(a =~= b);
        assert(x =~= s.skip(1));
        assert(y =~= t.skip(1));
    } else {
        let (u, v) = (escaped(a.skip(1)) + seq!['"'] + x, escaped(b.skip(1)) + seq!['"'] + y);
        assert(s =~= escape(a[0]) + u);
        assert(t =~= escape(b[0]) + v);
        lemma_escape_prefix(a[0], b[0], u, v);
        lemma_escaped_prefix(a.skip(1), b.skip(1), x, y);
        assert(a =~= seq![a[0]] + a.skip(1));
        assert(b =~= seq![b[0]] + b.skip(1));
    }
}

/// A JSON string shows where it ends and which text it holds, whatever stands behind it.
pub proof fn law_quoted_reads_back(a: Seq<char>, b: Seq<char>, x: Seq<char>, y: Seq<char>)
    requires
        quoted(a) + x == quoted(b) + y,
    ensures
        a == b,
        x == y,
{
    let (s, t) = (quoted(a) + x, quoted(b) + y);
    assert(s.skip(1) =~= escaped(a) + seq!['"'] + x);
    assert(t.skip(1) =~= escaped(b) + seq!['"'] + y);
    lemma_escaped_prefix(a, b, x, y);
}

/// A list of JSON strings shows where it ends and which texts it holds, whatever stands behind it.
pub proof fn lemma_text_list_reads_back(
    a: Seq<Seq<char>>,
    b: Seq<Seq<char>>,
    x: Seq<char>,
    y: Seq<char>,
)
    requires
        text::joined(encoded_list(text_values(a)), seq![',']) + seq![']'] + x == text::joined(
            encoded_list(text_values(b)),
            seq![','],
        ) + seq![']'] + y,
    ensures
        a == b,
        x == y,
    decreases a.len(),
{
    let sep = seq![','];
    let (p, q) = (encoded_list(text_values(a)), encoded_list(text_values(b)));
    lemma_text_list(a);
    lemma_text_list(b);
    let (s, t) = (text::joined(p, sep) + seq![']'] + x, text::joined(q, sep) + seq![']'] + y);
    let u = lemma_text_list_front(a, x);
    let v = lemma_text_list_front(b, y);
    if a.len() == 0 || b.len() == 0 {
        if a.len() > 0 {
            assert(s[0] == quoted(a[0])[0]);
            assert(t[0] == ']');
        }
        if b.len() > 0 {
            assert(t[0] == quoted(b[0])[0]);
            assert(s[0] == ']');
        }
        assert(a =~= b);
        assert(x =~= s.skip(1));
        assert(y =~= t.skip(1));
    } else {
        law_quoted_reads_back(a[0], b[0], u, v);
        if a.len() == 1 || b.len() == 1 {
            assert(u[0] == v[0]);
            assert(a =~= b);
            assert(x =~= u.skip(1));
            assert(y =~= v.skip(1));
        } else {
            assert(u.skip(1) =~= text::joined(encoded_list(text_values(a.skip(1))), sep) + seq![']'] + x);
            assert(v.skip(1) =~= text::joined(encoded_list(text_values(b.skip(1))), sep) + seq![']'] + y);
            lemma_text_list_reads_back(a.skip(1), b.skip(1), x, y);
            assert(a =~= seq![a[0]] + a.skip(1));
            assert(b =~= seq![b[0]] + b.skip(1));
        }
    }
}

proof fn lemma_text_list(list: Seq<Seq<char>>)
    ensures
        encoded_list(text_values(list)) == Seq::new(list.len(), |i: int| quoted(list[i])),
    decreases list.len(),
{
    if list.len() > 0 {
        lemma_text_list(list.drop_last());
        assert(text_values(list).drop_last() =~= text_values(list.drop_last()));
        assert(text_values(list).last() == JsonView::Text(list.last()));
        assert(encoded(JsonView::Text(list.last())) == quoted(list.last()));
    }
    assert(encoded_list(text_values(list)) =~= Seq::new(list.len(), |i: int| quoted(list[i])));
}

/// What stands behind the first text of a list.
proof fn lemma_text_list_front(list: Seq<Seq<char>>, x: Seq<char>) -> (rest: Seq<char>)
    ensures
        list.len() > 0 ==> text::joined(encoded_list(text_values(list)), seq![',']) + seq![']'] + x == quoted(
            list[0],
        ) + rest,
        list.len() == 1 ==> rest == seq![']'] + x,
        list.len() > 1 ==> rest == seq![','] + text::joined(
            encoded_list(text_values(list.skip(1))),
            seq![','],
        ) + seq![']'] + x,
{
    let sep = seq![','];
    let parts = encoded_list(text_values(list));
    lemma_text_list(list);
    lemma_text_list(list.skip(1));
    if list.len() == 1 {
        let rest = seq![']'] + x;
        assert(text::joined(parts, sep) + seq![']'] + x =~= quoted(list[0]) + rest);
        rest
    } else if list.len() > 1 {
        text::lemma_joined_first(parts, sep);
        assert(parts.skip(1) =~= encoded_list(text_values(list.skip(1))));
        let rest = sep + text::joined(parts.skip(1), sep) + seq![']'] + x;
        assert(text::joined(parts, sep) + seq![']'] + x =~= quoted(list[0]) + rest);
        rest
    } else {
        x
    }
}

proof fn lemma_escape_of_quote(c: char, k: int)
    requires
        0 <= k < escape(c).len(),
        escape(c)[k] == '"',
    ensures
        k == 1,
        escape(c)[0] == '\\',
{
    let e = escape(c);
    if e.len() == 6 {
        assert(0 <= c as int / 16 < 2);
        assert(e[4] == crate::sha256::hex_digit(c as int / 16));
        assert(e[5] == crate::sha256::hex_digit(c as int % 16));
        assert(e[0] == '\\' && e[1] == 'u' && e[2] == '0' && e[3] == '0');
    }
}

/// Inside a JSON string every quote stands behind a backslash.
proof fn lemma_inner_quotes_are_escaped(s: Seq<char>, k: int)
    requires
        0 <= k < escaped(s).len(),
        escaped(s)[k] == '"',
    ensures
        k > 0,
        escaped(s)[k - 1] == '\\',
    decreases s.len(),
{
    let n = escape(s[0]).len() as int;
    if k < n {
        assert(escaped(s)[k] == escape(s[0])[k]);
        lemma_escape_of_quote(s[0], k);
        assert(escaped(s)[0] == escape(s[0])[0]);
    } else {
        assert(escaped(s)[k] == escaped(s.skip(1))[k - n]);
        lemma_inner_quotes_are_escaped(s.skip(1), k - n);
        assert(escaped(s)[k - 1] == escaped(s.skip(1))[k - n - 1]);
    }
}

/// A JSON string behind a colon shows where it starts and which text it holds, read from its end.
pub proof fn lemma_last_quoted_reads_back(x: Seq<char>, y: Seq<char>, a: Seq<char>, b: Seq<char>)
    requires
        x + seq![':'] + quoted(a) == y + seq![':'] + quoted(b),
    ensures
        x == y,
        a == b,
{
    let (s, t) = (x + seq![':'] + quoted(a), y + seq![':'] + quoted(b));
    let (m, n) = (escaped(a).len() as int, escaped(b).len() as int);
    let i = s.len() - m - 2;
    let j = t.len() - n - 2;
    assert(s[i] == '"' && s[i - 1] == ':');
    assert(t[j] == '"' && t[j - 1] == ':');
    if m < n {
        let k = n - m - 1;
        assert(t[i] == escaped(b)[k]);
        lemma_inner_quotes_are_escaped(b, k);
        assert(t[i - 1] == escaped(b)[k - 1]);
    }
    if n < m {
        let k = m - n - 1;
        assert(s[j] == escaped(a)[k]);
        lemma_inner_quotes_are_escaped(a, k);
        assert(s[j - 1] == escaped(a)[k - 1]);
    }
    assert(x =~= s.take(i - 1));
    assert(y =~= t.take(i - 1));
    assert(quoted(a) =~= s.skip(i));
    assert(quoted(b) =~= t.skip(i));
    assert(quoted(a) + Seq::<char>::empty() =~= quoted(a));
    assert(quoted(b) + Seq::<char>::empty() =~= quoted(b));
    law_quoted_reads_back(a, b, Seq::empty(), Seq::empty());
}

/// The compact text of each entry stands at the place of the entry.
pub proof fn lemma_encoded_entries_index(entries: Seq<(Seq<char>, JsonView)>, i: int)
    requires
        0 <= i < entries.len(),
    ensures
        encoded_entries(entries).len() == entries.len(),
        encoded_entries(entries)[i] == entry_text(entries[i].0, encoded(entries[i].1)),
    decreases entries.len(),
{
    if i < entries.len() - 1 {
        lemma_encoded_entries_index(entries.drop_last(), i);
    } else if entries.len() > 1 {
        lemma_encoded_entries_index(entries.drop_last(), 0);
    } else {
        assert(encoded_entries(entries.drop_last()).len() == 0);
    }
}

/// Equality of JSON values is an equivalence.
pub proof fn law_equality_is_an_equivalence(a: JsonView, b: JsonView, c: JsonView)
    ensures
        same_json(a, a),
        same_json(a, b) ==> same_json(b, a),
        same_json(a, b) && same_json(b, c) ==> same_json(a, c),
    decreases a,
{
    match a {
        JsonView::Array(x) => {
            assert(a->Array_0 == x);
            let y = if let JsonView::Array(y) = b {
                y
            } else {
                x
            };
            let z = if let JsonView::Array(z) = c {
                z
            } else {
                x
            };
            assert(b is Array ==> b->Array_0 == y);
            assert(c is Array ==> c->Array_0 == z);
            assert forall|i: int| 0 <= i < x.len() implies same_json(#[trigger] x[i], x[i]) by {
                law_equality_is_an_equivalence(x[i], x[i], x[i]);
            }
            if same_json(a, b) {
                assert forall|i: int| 0 <= i < y.len() implies same_json(#[trigger] y[i], x[i]) by {
                    assert(same_json(x[i], y[i]));
                    law_equality_is_an_equivalence(x[i], y[i], y[i]);
                }
                if same_json(b, c) {
                    assert forall|i: int| 0 <= i < x.len() implies same_json(#[trigger] x[i], z[i]) by {
                        assert(same_json(x[i], y[i]));
                        assert(same_json(y[i], z[i]));
                        law_equality_is_an_equivalence(x[i], y[i], z[i]);
                    }
                }
            }
        },
        JsonView::Object(x) => {
            assert(a->Object_0 == x);
            let y = if let JsonView::Object(y) = b {
                y
            } else {
                x
            };
            let z = if let JsonView::Object(z) = c {
                z
            } else {
                x
            };
            assert(b is Object ==> b->Object_0 == y);
            assert(c is Object ==> c->Object_0 == z);
            assert forall|i: int| 0 <= i < x.len() implies same_json((#[trigger] x[i]).1, x[i].1) by {
                law_equality_is_an_equivalence(x[i].1, x[i].1, x[i].1);
            }
            if same_json(a, b) {
                assert forall|i: int| 0 <= i < y.len() implies (#[trigger] y[i]).0 == x[i].0 && same_json(
                    y[i].1,
                    x[i].1,
                ) by {
                    assert(x[i].0 == y[i].0 && same_json(x[i].1, y[i].1));
                    law_equality_is_an_equivalence(x[i].1, y[i].1, y[i].1);
                }
                if same_json(b, c) {
                    assert forall|i: int| 0 <= i < x.len() implies (#[trigger] x[i]).0 == z[i].0 && same_json(
                        x[i].1,
                        z[i].1,
                    ) by {
                        assert(x[i].0 == y[i].0 && same_json(x[i].1, y[i].1));
                        assert(y[i].0 == z[i].0 && same_json(y[i].1, z[i].1));
                        law_equality_is_an_equivalence(x[i].1, y[i].1, z[i].1);
                    }
                }
            }
        },
        _ => {},
    }
}

/// Whether a value has no number but integers, at any depth, and none of them is written as a
/// negative one without being one.
pub open spec fn whole(v: JsonView) -> bool
    decreases v,
{
    match v {
        JsonView::Number(n) => match n {
            NumberView::PosInt(_) => true,
            NumberView::NegInt(i) => i < 0,
            NumberView::Float { .. } => false,
        },
        JsonView::Array(a) => forall|i: int| 0 <= i < a.len() ==> whole(#[trigger] a[i]),
        JsonView::Object(o) => forall|i: int| 0 <= i < o.len() ==> whole((#[trigger] o[i]).1),
        _ => true,
    }
}

/// Values without fractions are the same exactly where they are equal.
pub proof fn law_whole_values_are_the_same_where_equal(a: JsonView, b: JsonView)
    requires
        whole(a),
        whole(b),
    ensures
        same_json(a, b) <==> a == b,
    decreases a,
{
    law_equality_is_an_equivalence(a, b, b);
    if same_json(a, b) {
        match a {
            JsonView::Array(x) => {
                assert(a->Array_0 == x);
                let y = b->Array_0;
                assert forall|i: int| 0 <= i < x.len() implies x[i] == y[i] by {
                    assert(same_json(x[i], y[i]));
                    assert(whole(x[i]) && whole(y[i]));
                    law_whole_values_are_the_same_where_equal(x[i], y[i]);
                }
                assert(x =~= y);
            },
            JsonView::Object(x) => {
                assert(a->Object_0 == x);
                let y = b->Object_0;
                assert forall|i: int| 0 <= i < x.len() implies x[i] == y[i] by {
                    assert(x[i].0 == y[i].0 && same_json(x[i].1, y[i].1));
                    assert(whole(x[i].1) && whole(y[i].1));
                    law_whole_values_are_the_same_where_equal(x[i].1, y[i].1);
                }
                assert(x =~= y);
            },
            _ => {},
        }
    }
}

/// Whether a text cannot go on a value that stands before it.
pub open spec fn ends_value(x: Seq<char>) -> bool {
    x.len() == 0 || x[0] == ',' || x[0] == ']' || x[0] == '}'
}

proof fn lemma_digits_shape(n: nat)
    ensures
        text::digits(n).len() > 0,
        forall|i: int| 0 <= i < text::digits(n).len() ==> '0' <= #[trigger] text::digits(n)[i] <= '9',
    decreases n,
{
    if n >= 10 {
        lemma_digits_shape(n / 10);
    }
}

/// A number shows where it ends, and which number it is.
proof fn lemma_number_reads_back(m: int, n: int, x: Seq<char>, y: Seq<char>)
    requires
        text::decimal(m) + x == text::decimal(n) + y,
        ends_value(x),
        ends_value(y),
    ensures
        m == n,
        x == y,
{
    let (s, t) = (text::decimal(m), text::decimal(n));
    let (a, b) = (if m < 0 { (-m) as nat } else { m as nat }, if n < 0 { (-n) as nat } else { n as nat });
    lemma_digits_shape(a);
    lemma_digits_shape(b);
    let (sx, ty) = (s + x, t + y);
    assert(sx[0] == s[0] && ty[0] == t[0]);
    assert(s[0] == (if m < 0 { '-' } else { text::digits(a)[0] }));
    assert(t[0] == (if n < 0 { '-' } else { text::digits(b)[0] }));
    assert((m < 0) == (n < 0));
    if s.len() < t.len() {
        let k = s.len() as int;
        assert(ty[k] == t[k]);
        assert(t[k] == (if n < 0 { text::digits(b)[k - 1] } else { text::digits(b)[k] }));
        assert(sx.len() == ty.len());
        assert(sx[k] == x[0]);
    }
    if t.len() < s.len() {
        let k = t.len() as int;
        assert(sx[k] == s[k]);
        assert(s[k] == (if m < 0 { text::digits(a)[k - 1] } else { text::digits(a)[k] }));
        assert(sx.len() == ty.len());
        assert(ty[k] == y[0]);
    }
    assert(s =~= sx.take(s.len() as int));
    assert(t =~= ty.take(t.len() as int));
    assert(x =~= sx.skip(s.len() as int));
    assert(y =~= ty.skip(t.len() as int));
    assert(text::digits(a) == text::digits(b)) by {
        if m < 0 {
            assert(text::digits(a) =~= s.skip(1));
            assert(text::digits(b) =~= t.skip(1));
        }
    }
    text::lemma_digits_read_back(a);
    text::lemma_digits_read_back(b);
}

/// The first character of a value tells its kind.
proof fn lemma_first_char(v: JsonView)
    requires
        whole(v),
    ensures
        encoded(v).len() > 0,
        match v {
            JsonView::Null => encoded(v)[0] == 'n',
            JsonView::Bool(b) => encoded(v)[0] == (if b { 't' } else { 'f' }),
            JsonView::Number(n) => encoded(v)[0] == '-' || '0' <= encoded(v)[0] <= '9',
            JsonView::Text(_) => encoded(v)[0] == '"',
            JsonView::Array(_) => encoded(v)[0] == '[',
            JsonView::Object(_) => encoded(v)[0] == '{',
        },
{
    if let JsonView::Number(n) = v {
        let k = match n {
            NumberView::PosInt(i) => i as int,
            NumberView::NegInt(i) => i as int,
            _ => 0,
        };
        lemma_digits_shape(if k < 0 { (-k) as nat } else { k as nat });
        assert(encoded(v) == text::decimal(k));
    }
    if let JsonView::Text(s) = v {
        assert(encoded(v) == quoted(s));
    }
}

/// What stands behind the first `i` parts of a list, up to its closing bracket.
spec fn rest_of(parts: Seq<Seq<char>>, i: int, close: char) -> Seq<char>
    decreases parts.len() - i,
{
    if i >= parts.len() {
        seq![close]
    } else {
        (if i > 0 {
            seq![',']
        } else {
            Seq::empty()
        }) + parts[i] + rest_of(parts, i + 1, close)
    }
}

proof fn lemma_rest_of_push(parts: Seq<Seq<char>>, p: Seq<char>, i: int, close: char)
    requires
        0 <= i <= parts.len(),
    ensures
        rest_of(parts.push(p), i, close) == rest_of(parts, i, close).drop_last() + (if parts.len() > 0 {
            seq![',']
        } else {
            Seq::empty()
        }) + p + seq![close],
        rest_of(parts, i, close).len() > 0,
        rest_of(parts, i, close).last() == close,
    decreases parts.len() - i,
{
    let q = parts.push(p);
    let sep: Seq<char> = if i > 0 {
        seq![',']
    } else {
        Seq::empty()
    };
    if i == parts.len() {
        assert(rest_of(q, i + 1, close) == seq![close]);
        assert(rest_of(q, i, close) =~= sep + p + seq![close]);
        assert(rest_of(parts, i, close).drop_last() =~= Seq::empty());
        assert(rest_of(q, i, close) =~= rest_of(parts, i, close).drop_last() + sep + p + seq![close]);
    } else {
        lemma_rest_of_push(parts, p, i + 1, close);
        let r = rest_of(parts, i + 1, close);
        assert(q[i] == parts[i]);
        assert(rest_of(parts, i, close).drop_last() =~= sep + parts[i] + r.drop_last());
        assert(rest_of(q, i, close) =~= rest_of(parts, i, close).drop_last() + seq![','] + p + seq![close]);
    }
}

proof fn lemma_bracketed_is_rest(open: char, parts: Seq<Seq<char>>, close: char)
    ensures
        bracketed(open, parts, close) == seq![open] + rest_of(parts, 0, close),
    decreases parts.len(),
{
    let sep = seq![','];
    assert(text::joined(parts, sep) + seq![close] == rest_of(parts, 0, close)) by {
        if parts.len() == 0 {
            assert(text::joined(parts, sep) + seq![close] =~= seq![close]);
        } else {
            let front = parts.drop_last();
            let p = parts.last();
            lemma_bracketed_is_rest(open, front, close);
            let b = bracketed(open, front, close);
            assert(b.skip(1) =~= rest_of(front, 0, close));
            assert(b.skip(1).drop_last() =~= text::joined(front, sep));
            lemma_rest_of_push(front, p, 0, close);
            assert(front.push(p) =~= parts);
            assert(text::joined(parts, sep) + seq![close] =~= rest_of(parts, 0, close));
        }
    }
    assert(bracketed(open, parts, close) =~= seq![open] + (text::joined(parts, sep) + seq![close]));
}

proof fn lemma_encoded_list_index(list: Seq<JsonView>, i: int)
    requires
        0 <= i < list.len(),
    ensures
        encoded_list(list).len() == list.len(),
        encoded_list(list)[i] == encoded(list[i]),
    decreases list.len(),
{
    if i < list.len() - 1 {
        lemma_encoded_list_index(list.drop_last(), i);
    } else if list.len() > 1 {
        lemma_encoded_list_index(list.drop_last(), 0);
    } else {
        assert(encoded_list(list.drop_last()).len() == 0);
    }
}

/// A value shows where it ends, and which value it is.
proof fn lemma_value_reads_back(a: JsonView, b: JsonView, x: Seq<char>, y: Seq<char>)
    requires
        whole(a),
        whole(b),
        encoded(a) + x == encoded(b) + y,
        ends_value(x),
        ends_value(y),
    ensures
        a == b,
        x == y,
    decreases a, 0int,
{
    lemma_first_char(a);
    lemma_first_char(b);
    let (s, t) = (encoded(a) + x, encoded(b) + y);
    assert(s[0] == encoded(a)[0] && t[0] == encoded(b)[0]);
    match a {
        JsonView::Null => {
            assert(b is Null);
            assert(s.skip(4) =~= x && t.skip(4) =~= y);
        },
        JsonView::Bool(p) => {
            assert(b is Bool && b->Bool_0 == p);
            let n: int = if p {
                4
            } else {
                5
            };
            assert(s.skip(n) =~= x && t.skip(n) =~= y);
        },
        JsonView::Number(m) => {
            assert(b is Number);
            let n = b->Number_0;
            let i = match m {
                NumberView::PosInt(i) => i as int,
                NumberView::NegInt(i) => i as int,
                _ => 0,
            };
            let j = match n {
                NumberView::PosInt(i) => i as int,
                NumberView::NegInt(i) => i as int,
                _ => 0,
            };
            assert(encoded(a) == text::decimal(i) && encoded(b) == text::decimal(j));
            lemma_number_reads_back(i, j, x, y);
        },
        JsonView::Text(p) => {
            assert(b is Text);
            let q = b->Text_0;
            assert(encoded(a) == quoted(p) && encoded(b) == quoted(q));
            law_quoted_reads_back(p, q, x, y);
        },
        JsonView::Array(p) => {
            assert(b is Array);
            let q = b->Array_0;
            assert(a->Array_0 == p);
            let (ps, qs) = (encoded_list(p), encoded_list(q));
            assert(encoded(a) == bracketed('[', ps, ']') && encoded(b) == bracketed('[', qs, ']'));
            lemma_bracketed_is_rest('[', ps, ']');
            lemma_bracketed_is_rest('[', qs, ']');
            assert(s.skip(1) =~= rest_of(ps, 0, ']') + x);
            assert(t.skip(1) =~= rest_of(qs, 0, ']') + y);
            assert(decreases_to!(a => a->Array_0));
            lemma_list_reads_back(p, q, 0, x, y);
            assert(p =~= q);
        },
        JsonView::Object(p) => {
            assert(b is Object);
            let q = b->Object_0;
            assert(a->Object_0 == p);
            let (ps, qs) = (encoded_entries(p), encoded_entries(q));
            assert(encoded(a) == bracketed('{', ps, '}') && encoded(b) == bracketed('{', qs, '}'));
            lemma_bracketed_is_rest('{', ps, '}');
            lemma_bracketed_is_rest('{', qs, '}');
            assert(s.skip(1) =~= rest_of(ps, 0, '}') + x);
            assert(t.skip(1) =~= rest_of(qs, 0, '}') + y);
            assert(decreases_to!(a => a->Object_0));
            lemma_entries_read_back(p, q, 0, x, y);
            assert(p =~= q);
        },
    }
}

proof fn lemma_list_reads_back(
    p: Seq<JsonView>,
    q: Seq<JsonView>,
    i: int,
    x: Seq<char>,
    y: Seq<char>,
)
    requires
        forall|k: int| 0 <= k < p.len() ==> whole(#[trigger] p[k]),
        forall|k: int| 0 <= k < q.len() ==> whole(#[trigger] q[k]),
        0 <= i <= p.len(),
        i <= q.len(),
        rest_of(encoded_list(p), i, ']') + x == rest_of(encoded_list(q), i, ']') + y,
        ends_value(x),
        ends_value(y),
    ensures
        p.len() == q.len(),
        forall|k: int| i <= k < p.len() ==> #[trigger] p[k] == q[k],
        x == y,
    decreases p, p.len() - i,
{
    let (ps, qs) = (encoded_list(p), encoded_list(q));
    lemma_list_len(p);
    lemma_list_len(q);
    if i < p.len() {
        lemma_encoded_list_index(p, i);
        lemma_first_char(p[i]);
        lemma_rest_head(ps, i, ']', x);
    }
    if i < q.len() {
        lemma_encoded_list_index(q, i);
        lemma_first_char(q[i]);
        lemma_rest_head(qs, i, ']', y);
    }
    if i < p.len() {
        let (u, v) = (rest_of(ps, i + 1, ']') + x, rest_of(qs, i + 1, ']') + y);
        lemma_rest_shape(ps, i + 1, ']');
        lemma_rest_shape(qs, i + 1, ']');
        assert(decreases_to!(p => p[i]));
        lemma_value_reads_back(p[i], q[i], u, v);
        lemma_list_reads_back(p, q, i + 1, x, y);
    } else {
        lemma_rest_end(ps, ']', x);
        lemma_rest_end(qs, ']', y);
    }
}

proof fn lemma_list_len(list: Seq<JsonView>)
    ensures
        encoded_list(list).len() == list.len(),
    decreases list.len(),
{
    if list.len() > 0 {
        lemma_list_len(list.drop_last());
    }
}

proof fn lemma_entries_len(list: Seq<(Seq<char>, JsonView)>)
    ensures
        encoded_entries(list).len() == list.len(),
    decreases list.len(),
{
    if list.len() > 0 {
        lemma_entries_len(list.drop_last());
    }
}

proof fn lemma_rest_shape(parts: Seq<Seq<char>>, i: int, close: char)
    requires
        i > 0,
        close == ']' || close == '}',
    ensures
        rest_of(parts, i, close).len() > 0,
        ends_value(rest_of(parts, i, close)),
{
}

proof fn lemma_entries_read_back(
    p: Seq<(Seq<char>, JsonView)>,
    q: Seq<(Seq<char>, JsonView)>,
    i: int,
    x: Seq<char>,
    y: Seq<char>,
)
    requires
        forall|k: int| 0 <= k < p.len() ==> whole((#[trigger] p[k]).1),
        forall|k: int| 0 <= k < q.len() ==> whole((#[trigger] q[k]).1),
        0 <= i <= p.len(),
        i <= q.len(),
        rest_of(encoded_entries(p), i, '}') + x == rest_of(encoded_entries(q), i, '}') + y,
        ends_value(x),
        ends_value(y),
    ensures
        p.len() == q.len(),
        forall|k: int| i <= k < p.len() ==> #[trigger] p[k] == q[k],
        x == y,
    decreases p, p.len() - i,
{
    let (ps, qs) = (encoded_entries(p), encoded_entries(q));
    lemma_entries_len(p);
    lemma_entries_len(q);
    if i < p.len() {
        lemma_encoded_entries_index(p, i);
        lemma_entry_text_shape(p[i].0, encoded(p[i].1));
        lemma_rest_head(ps, i, '}', x);
    }
    if i < q.len() {
        lemma_encoded_entries_index(q, i);
        lemma_entry_text_shape(q[i].0, encoded(q[i].1));
        lemma_rest_head(qs, i, '}', y);
    }
    if i < p.len() {
        let (u, v) = (rest_of(ps, i + 1, '}') + x, rest_of(qs, i + 1, '}') + y);
        lemma_rest_shape(ps, i + 1, '}');
        lemma_rest_shape(qs, i + 1, '}');
        lemma_entry_reads_back(p[i].0, q[i].0, encoded(p[i].1), encoded(q[i].1), u, v);
        assert(decreases_to!(p => p[i]));
        assert(decreases_to!(p[i] => p[i].1));
        lemma_value_reads_back(p[i].1, q[i].1, u, v);
        lemma_entries_read_back(p, q, i + 1, x, y);
    } else {
        lemma_rest_end(ps, '}', x);
        lemma_rest_end(qs, '}', y);
    }
}

proof fn lemma_entry_text_shape(key: Seq<char>, value: Seq<char>)
    ensures
        entry_text(key, value).len() > 0,
        entry_text(key, value)[0] == '"',
{
}

proof fn lemma_entry_reads_back(
    k: Seq<char>,
    l: Seq<char>,
    m: Seq<char>,
    n: Seq<char>,
    u: Seq<char>,
    v: Seq<char>,
)
    requires
        entry_text(k, m) + u == entry_text(l, n) + v,
    ensures
        k == l,
        m + u == n + v,
{
    let (a, b) = (seq![':'] + m + u, seq![':'] + n + v);
    let (c, d) = (quoted(k), quoted(l));
    lemma_regrouped(c, m, u);
    lemma_regrouped(d, n, v);
    law_quoted_reads_back(k, l, a, b);
    assert(a.skip(1) =~= m + u);
    assert(b.skip(1) =~= n + v);
}

proof fn lemma_regrouped(c: Seq<char>, m: Seq<char>, u: Seq<char>)
    ensures
        (c + seq![':'] + m) + u == c + (seq![':'] + m + u),
{
    assert((c + seq![':'] + m) + u =~= c + (seq![':'] + m + u));
}

/// What stands behind the first `i` parts of a list starts with the next part, behind a comma where
/// it is not the first.
proof fn lemma_rest_head(parts: Seq<Seq<char>>, i: int, close: char, x: Seq<char>)
    requires
        0 <= i < parts.len(),
        parts[i].len() > 0,
        parts[i][0] != close,
        close != ',',
    ensures
        ({
            let s = rest_of(parts, i, close) + x;
            &&& s.len() > 0
            &&& s[0] != close
            &&& s.skip(
                if i > 0 {
                    1int
                } else {
                    0int
                },
            ) == parts[i] + (rest_of(parts, i + 1, close) + x)
        }),
{
    let r = rest_of(parts, i + 1, close);
    let s = rest_of(parts, i, close) + x;
    if i > 0 {
        assert(s =~= seq![','] + (parts[i] + (r + x)));
        assert(s.skip(1) =~= parts[i] + (r + x));
    } else {
        assert(s =~= parts[i] + (r + x));
        assert(s[0] == parts[i][0]);
        assert(s.skip(0) =~= s);
    }
}

proof fn lemma_rest_end(parts: Seq<Seq<char>>, close: char, x: Seq<char>)
    ensures
        (rest_of(parts, parts.len() as int, close) + x).skip(1) == x,
{
    assert((rest_of(parts, parts.len() as int, close) + x).skip(1) =~= x);
}

/// A text stands for one value: values without fractions that have the same compact text are equal,
/// at any depth.
pub proof fn law_texts_stand_for_one_value(a: JsonView, b: JsonView)
    requires
        whole(a),
        whole(b),
        encoded(a) == encoded(b),
    ensures
        a == b,
{
    let none = Seq::<char>::empty();
    assert(encoded(a) + none =~= encoded(b) + none);
    lemma_value_reads_back(a, b, none, none);
}

/// How values are written: the words of JSON, lists and objects in brackets with commas between their
/// parts, and each entry of an object as its key, a colon and its value.
pub proof fn law_values_are_written_as_in_json(
    list: Seq<JsonView>,
    entries: Seq<(Seq<char>, JsonView)>,
    key: Seq<char>,
    v: JsonView,
)
    ensures
        encoded(JsonView::Null) == "null"@,
        encoded(JsonView::Bool(true)) == "true"@,
        encoded(JsonView::Bool(false)) == "false"@,
        encoded(JsonView::Array(Seq::empty())) == "[]"@,
        encoded(JsonView::Object(Seq::empty())) == "{}"@,
        encoded(JsonView::Array(seq![v])) == "["@ + encoded(v) + "]"@,
        encoded(JsonView::Object(seq![(key, v)])) == "{"@ + encoded(JsonView::Text(key)) + ":"@ + encoded(v) + "}"@,
        list.len() > 0 ==> encoded(JsonView::Array(list.push(v))) == encoded(JsonView::Array(list)).drop_last() + ","@
            + encoded(v) + "]"@,
        entries.len() > 0 ==> encoded(JsonView::Object(entries.push((key, v)))) == encoded(
            JsonView::Object(entries),
        ).drop_last() + ","@ + encoded(JsonView::Text(key)) + ":"@ + encoded(v) + "}"@,
{
    reveal_strlit("null");
    reveal_strlit("true");
    reveal_strlit("false");
    reveal_strlit("[]");
    reveal_strlit("{}");
    reveal_strlit("[");
    reveal_strlit("]");
    reveal_strlit("{");
    reveal_strlit("}");
    reveal_strlit(":");
    reveal_strlit(",");
    let none = Seq::<JsonView>::empty();
    let nothing = Seq::<(Seq<char>, JsonView)>::empty();
    assert(encoded(JsonView::Text(key)) == quoted(key));
    assert(encoded(JsonView::Null) =~= "null"@);
    assert(encoded(JsonView::Bool(true)) =~= "true"@);
    assert(encoded(JsonView::Bool(false)) =~= "false"@);
    lemma_list_written(none, v);
    lemma_list_written(list, v);
    lemma_entries_written(nothing, key, v);
    lemma_entries_written(entries, key, v);
    assert(none.push(v) =~= seq![v]);
    assert(nothing.push((key, v)) =~= seq![(key, v)]);
    assert(encoded(JsonView::Array(none)) =~= "[]"@);
    assert(encoded(JsonView::Object(nothing)) =~= "{}"@);
}

proof fn lemma_list_written(list: Seq<JsonView>, v: JsonView)
    ensures
        list.len() == 0 ==> encoded(JsonView::Array(list)) == seq!['['] + seq![']'] && encoded(
            JsonView::Array(list.push(v)),
        ) == seq!['['] + encoded(v) + seq![']'],
        list.len() > 0 ==> encoded(JsonView::Array(list.push(v))) == encoded(JsonView::Array(list)).drop_last() + seq![
            ',',
        ] + encoded(v) + seq![']'],
{
    let (a, b) = (JsonView::Array(list), JsonView::Array(list.push(v)));
    assert(a->Array_0 == list && b->Array_0 == list.push(v));
    lemma_list_len(list);
    assert(list.push(v).drop_last() =~= list);
    let (ps, p) = (encoded_list(list), encoded(v));
    assert(encoded_list(list.push(v)) == ps.push(p));
    assert(encoded(a) == bracketed('[', ps, ']') && encoded(b) == bracketed('[', ps.push(p), ']'));
    lemma_bracketed_push('[', ps, p, ']');
}

proof fn lemma_entries_written(entries: Seq<(Seq<char>, JsonView)>, key: Seq<char>, v: JsonView)
    ensures
        entries.len() == 0 ==> encoded(JsonView::Object(entries)) == seq!['{'] + seq!['}'] && encoded(
            JsonView::Object(entries.push((key, v))),
        ) == seq!['{'] + quoted(key) + seq![':'] + encoded(v) + seq!['}'],
        entries.len() > 0 ==> encoded(JsonView::Object(entries.push((key, v)))) == encoded(
            JsonView::Object(entries),
        ).drop_last() + seq![','] + quoted(key) + seq![':'] + encoded(v) + seq!['}'],
{
    let next = entries.push((key, v));
    let (a, b) = (JsonView::Object(entries), JsonView::Object(next));
    assert(a->Object_0 == entries && b->Object_0 == next);
    lemma_entries_len(entries);
    assert(next.drop_last() =~= entries);
    let (ps, p) = (encoded_entries(entries), entry_text(key, encoded(v)));
    assert(encoded_entries(next) == ps.push(p));
    assert(encoded(a) == bracketed('{', ps, '}') && encoded(b) == bracketed('{', ps.push(p), '}'));
    lemma_bracketed_push('{', ps, p, '}');
    let (q, w) = (quoted(key), encoded(v));
    let front = encoded(a).drop_last();
    assert(front + seq![','] + (q + seq![':'] + w) + seq!['}'] =~= front + seq![','] + q + seq![':'] + w + seq!['}']);
    assert(seq!['{'] + (q + seq![':'] + w) + seq!['}'] =~= seq!['{'] + q + seq![':'] + w + seq!['}']);
}

proof fn lemma_bracketed_push(open: char, parts: Seq<Seq<char>>, p: Seq<char>, close: char)
    ensures
        parts.len() == 0 ==> bracketed(open, parts, close) == seq![open] + seq![close] && bracketed(
            open,
            parts.push(p),
            close,
        ) == seq![open] + p + seq![close],
        parts.len() > 0 ==> bracketed(open, parts.push(p), close) == bracketed(open, parts, close).drop_last() + seq![
            ',',
        ] + p + seq![close],
{
    let sep = seq![','];
    assert(parts.push(p).drop_last() =~= parts);
    if parts.len() == 0 {
        assert(bracketed(open, parts, close) =~= seq![open] + seq![close]);
        assert(text::joined(parts.push(p), sep) == p);
    } else {
        let j = text::joined(parts, sep);
        assert(text::joined(parts.push(p), sep) == j + sep + p);
        assert(bracketed(open, parts, close).drop_last() =~= seq![open] + j);
        assert(seq![open] + (j + sep + p) + seq![close] =~= seq![open] + j + sep + p + seq![close]);
    }
}

} // verus!

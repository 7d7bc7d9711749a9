//! Shapes by name, and the messages that a change of a row sends to the readers of a shape.
use vstd::prelude::*;
use vstd::hash_map::StringHashMap;
use crate::engine;
use crate::json;
use crate::json::{Json, JsonObject, JsonView};
use crate::number::Number;
use crate::sha256;
use crate::sort;
use crate::text;

verus! {

broadcast use vstd::hash_map::group_hash_map_axioms;

/// A named shape: some columns of the rows of a table that satisfy a predicate, for one audience.
#[derive(Debug, PartialEq, Eq)]
pub struct Shape {
    pub name: String,
    pub table: String,
    pub columns: Vec<String>,
    pub predicate: Predicate,
    pub auth_scope: String,
    pub schema_version: u64,
}

/// Which rows of a table belong to a shape.
#[derive(Debug, PartialEq, Eq)]
pub enum Predicate {
    All,
    Eq { column: String, value: Json },
    And { predicates: Vec<Predicate> },
}

/// The kind of a change.
#[derive(Debug, Clone, Copy, PartialEq, Eq, Structural)]
pub enum LogOp {
    Insert,
    Update,
    Delete,
}

/// One change of a row of a table, with the key and the row before and after it.
#[derive(Debug, Clone, PartialEq)]
pub struct LogRow {
    pub seq: i64,
    pub table_name: String,
    pub op: LogOp,
    pub pk_json: Json,
    pub old_pk_json: Option<Json>,
    pub new_pk_json: Option<Json>,
    pub old_json: Option<Json>,
    pub new_json: Option<Json>,
    pub created_at: i64,
}

/// What a reader of a shape does with its copy of a row.
#[derive(Debug, Clone, PartialEq)]
pub enum ShapeMessage {
    Insert { key: Json, value: Json, offset: i64 },
    Update { key: Json, value: Json, offset: i64 },
    Delete { key: Json, offset: i64 },
}

/// The rows of a shape at a position in the log.
#[derive(Debug, Clone, PartialEq)]
pub struct Snapshot {
    pub rows: Vec<Json>,
    pub offset: i64,
}

/// The messages up to a position in the log.
#[derive(Debug, Clone, PartialEq)]
pub struct Replay {
    pub messages: Vec<ShapeMessage>,
    pub offset: i64,
}

/// The model of a predicate.
pub enum PredicateView {
    All,
    Eq { column: Seq<char>, value: JsonView },
    And { predicates: Seq<PredicateView> },
}

impl View for Predicate {
    type V = PredicateView;

    open spec fn view(&self) -> PredicateView
        decreases self,
    {
        match self {
            Predicate::All => PredicateView::All,
            Predicate::Eq { column, value } => PredicateView::Eq { column: column@, value: value@ },
            Predicate::And { predicates } => PredicateView::And {
                predicates: Seq::new(
                    predicates@.len(),
                    |i: int|
                        if 0 <= i < predicates@.len() {
                            predicates@[i].view()
                        } else {
                            PredicateView::All
                        },
                ),
            },
        }
    }
}

/// The models of some predicates.
pub open spec fn predicate_views(list: Seq<Predicate>) -> Seq<PredicateView> {
    Seq::new(list.len(), |i: int| list[i]@)
}

proof fn lemma_and_view(predicates: Vec<Predicate>)
    ensures
        (Predicate::And { predicates })@ == (PredicateView::And { predicates: predicate_views(predicates@) }),
{
    reveal_with_fuel(<Predicate as View>::view, 2);
    assert((Predicate::And { predicates })@->predicates =~= predicate_views(predicates@));
}

/// The model of a shape.
pub struct ShapeView {
    pub name: Seq<char>,
    pub table: Seq<char>,
    pub columns: Seq<Seq<char>>,
    pub predicate: PredicateView,
    pub auth_scope: Seq<char>,
    pub schema_version: u64,
}

impl View for Shape {
    type V = ShapeView;

    open spec fn view(&self) -> ShapeView {
        ShapeView {
            name: self.name@,
            table: self.table@,
            columns: text::texts(self.columns@),
            predicate: self.predicate@,
            auth_scope: self.auth_scope@,
            schema_version: self.schema_version,
        }
    }
}

/// The model of a change.
pub struct LogRowView {
    pub seq: i64,
    pub table_name: Seq<char>,
    pub op: LogOp,
    pub pk_json: JsonView,
    pub old_pk_json: Option<JsonView>,
    pub new_pk_json: Option<JsonView>,
    pub old_json: Option<JsonView>,
    pub new_json: Option<JsonView>,
    pub created_at: i64,
}

impl View for LogRow {
    type V = LogRowView;

    open spec fn view(&self) -> LogRowView {
        LogRowView {
            seq: self.seq,
            table_name: self.table_name@,
            op: self.op,
            pk_json: self.pk_json@,
            old_pk_json: json::option_view(self.old_pk_json),
            new_pk_json: json::option_view(self.new_pk_json),
            old_json: json::option_view(self.old_json),
            new_json: json::option_view(self.new_json),
            created_at: self.created_at,
        }
    }
}

/// The model of a message.
pub enum MessageView {
    Insert { key: JsonView, value: JsonView, offset: i64 },
    Update { key: JsonView, value: JsonView, offset: i64 },
    Delete { key: JsonView, offset: i64 },
}

impl View for ShapeMessage {
    type V = MessageView;

    open spec fn view(&self) -> MessageView {
        match self {
            ShapeMessage::Insert { key, value, offset } => MessageView::Insert {
                key: key@,
                value: value@,
                offset: *offset,
            },
            ShapeMessage::Update { key, value, offset } => MessageView::Update {
                key: key@,
                value: value@,
                offset: *offset,
            },
            ShapeMessage::Delete { key, offset } => MessageView::Delete { key: key@, offset: *offset },
        }
    }
}

/// The models of some messages.
pub open spec fn message_views(list: Seq<ShapeMessage>) -> Seq<MessageView> {
    Seq::new(list.len(), |i: int| list[i]@)
}

/// Whether the entries of a row satisfy a predicate. A column that the row lacks satisfies
/// nothing.
pub open spec fn holds(p: PredicateView, entries: Seq<(Seq<char>, JsonView)>) -> bool
    decreases p,
{
    match p {
        PredicateView::All => true,
        PredicateView::Eq { column, value } => json::same_option(json::lookup(entries, column), Some(value)),
        PredicateView::And { predicates } => forall|i: int|
            0 <= i < predicates.len() ==> holds(#[trigger] predicates[i], entries),
    }
}

/// Whether a row that may be missing satisfies a predicate: only an object does.
pub open spec fn matched(p: PredicateView, row: Option<JsonView>) -> bool {
    match row {
        Some(JsonView::Object(entries)) => holds(p, entries),
        _ => false,
    }
}

/// The key of the row before a change.
pub open spec fn old_key(row: LogRowView) -> JsonView {
    match row.old_pk_json {
        Some(k) => k,
        None => row.pk_json,
    }
}

/// The key of the row after a change.
pub open spec fn new_key(row: LogRowView) -> JsonView {
    match row.new_pk_json {
        Some(k) => k,
        None => row.pk_json,
    }
}

/// What a change sends to the readers of a shape. A change of another table sends nothing. A row
/// that stays in the shape under another key is deleted and inserted. Whether a row belongs to the
/// shape is decided on all of its columns; those of the shape are sent.
pub open spec fn messages(shape: ShapeView, row: LogRowView) -> Seq<MessageView> {
    let old_matches = matched(shape.predicate, row.old_json);
    let new_matches = matched(shape.predicate, row.new_json);
    let value = json::projected(row.new_json->0, shape.columns);
    if row.table_name != shape.table {
        Seq::empty()
    } else if !old_matches && new_matches {
        seq![MessageView::Insert { key: new_key(row), value, offset: row.seq }]
    } else if old_matches && new_matches && json::same_json(old_key(row), new_key(row)) {
        seq![MessageView::Update { key: new_key(row), value, offset: row.seq }]
    } else if old_matches && new_matches {
        seq![
            MessageView::Delete { key: old_key(row), offset: row.seq },
            MessageView::Insert { key: new_key(row), value, offset: row.seq },
        ]
    } else if old_matches {
        seq![MessageView::Delete { key: old_key(row), offset: row.seq }]
    } else {
        Seq::empty()
    }
}

fn all_hold(predicates: &Vec<Predicate>, row: &JsonObject) -> (r: bool)
    ensures
        r == forall|i: int|
            0 <= i < predicates@.len() ==> holds(#[trigger] predicate_views(predicates@)[i], row@),
    decreases predicates,
{
    let mut i: usize = 0;
    while i < predicates.len()
        invariant
            i <= predicates@.len(),
            forall|j: int| 0 <= j < i ==> holds(#[trigger] predicate_views(predicates@)[j], row@),
        decreases predicates@.len() - i,
    {
        assert(decreases_to!(predicates => predicates@[i as int]));
        assert(predicate_views(predicates@)[i as int] == predicates@[i as int]@);
        if !predicates[i].matches_object(row) {
            return false;
        }
        i += 1;
    }
    true
}

impl Predicate {
    /// Whether a row satisfies the predicate.
    pub fn matches(&self, row: Option<&Json>) -> (r: bool)
        ensures
            r == matched(
                self@,
                match row {
                    Some(v) => Some(v@),
                    None => None,
                },
            ),
    {
        match row {
            Some(row) => match row {
                Json::Object(o) => self.matches_object(o),
                _ => false,
            },
            None => false,
        }
    }

    /// Whether the entries of a row satisfy the predicate.
    pub fn matches_object(&self, row: &JsonObject) -> (r: bool)
        ensures
            r == holds(self@, row@),
        decreases self,
    {
        match self {
            Predicate::All => true,
            Predicate::Eq { column, value } => match row.get(column.as_str()) {
                Some(left) => left.same(value),
                None => false,
            },
            Predicate::And { predicates } => {
                proof {
                    lemma_and_view(*predicates);
                }
                assert(self@->predicates == predicate_views(predicates@));
                all_hold(predicates, row)
            },
        }
    }
}

fn key_or(key: &Option<Json>, pk: &Json) -> (r: Json)
    ensures
        r@ == (match json::option_view(*key) {
            Some(k) => k,
            None => pk@,
        }),
{
    match key {
        Some(k) => k.clone(),
        None => pk.clone(),
    }
}

/// The messages that a change sends to the readers of a shape.
pub fn messages_for_log(shape: &Shape, row: &LogRow) -> (r: Vec<ShapeMessage>)
    ensures
        message_views(r@) == messages(shape@, row@),
{
    let mut out: Vec<ShapeMessage> = Vec::new();
    if text::same_text(row.table_name.as_str(), shape.table.as_str()) {
        let old_matches = shape.predicate.matches(row.old_json.as_ref());
        let new_matches = shape.predicate.matches(row.new_json.as_ref());
        let from = key_or(&row.old_pk_json, &row.pk_json);
        let to = key_or(&row.new_pk_json, &row.pk_json);
        match (&row.new_json, new_matches) {
            (Some(value), true) => {
                let value = value.project(&shape.columns);
                if !old_matches {
                    out.push(ShapeMessage::Insert { key: to, value, offset: row.seq });
                } else if from.same(&to) {
                    out.push(ShapeMessage::Update { key: to, value, offset: row.seq });
                } else {
                    out.push(ShapeMessage::Delete { key: from, offset: row.seq });
                    out.push(ShapeMessage::Insert { key: to, value, offset: row.seq });
                }
            },
            _ => {
                if old_matches {
                    out.push(ShapeMessage::Delete { key: from, offset: row.seq });
                }
            },
        }
    }
    assert(message_views(out@) =~= messages(shape@, row@));
    out
}

/// The first message that a change sends to the readers of a shape.
pub fn message_for_log(shape: &Shape, row: &LogRow) -> (r: Option<ShapeMessage>)
    ensures
        r is Some <==> messages(shape@, row@).len() > 0,
        r matches Some(m) ==> m@ == messages(shape@, row@)[0],
{
    let mut all = messages_for_log(shape, row);
    assert(message_views(all@).len() == all@.len());
    if all.len() == 0 {
        None
    } else {
        assert(message_views(all@)[0] == all@[0]@);
        Some(all.remove(0))
    }
}

fn copy_predicates(list: &Vec<Predicate>) -> (r: Vec<Predicate>)
    ensures
        predicate_views(r@) == predicate_views(list@),
    decreases list,
{
    let mut out: Vec<Predicate> = Vec::new();
    let mut i: usize = 0;
    while i < list.len()
        invariant
            i <= list@.len(),
            out@.len() == i,
            forall|j: int| 0 <= j < i ==> (#[trigger] out@[j])@ == list@[j]@,
        decreases list@.len() - i,
    {
        assert(decreases_to!(list => list@[i as int]));
        out.push(copy_predicate(&list[i]));
        i += 1;
    }
    assert(predicate_views(out@) =~= predicate_views(list@));
    out
}

fn copy_predicate(p: &Predicate) -> (r: Predicate)
    ensures
        r@ == p@,
    decreases p,
{
    match p {
        Predicate::All => Predicate::All,
        Predicate::Eq { column, value } => Predicate::Eq { column: column.clone(), value: value.clone() },
        Predicate::And { predicates } => {
            let r = copy_predicates(predicates);
            proof {
                lemma_and_view(*predicates);
                lemma_and_view(r);
            }
            Predicate::And { predicates: r }
        },
    }
}

impl Clone for Predicate {
    fn clone(&self) -> (r: Predicate)
        ensures
            r@ == self@,
    {
        copy_predicate(self)
    }
}

impl Clone for Shape {
    fn clone(&self) -> (r: Shape)
        ensures
            r@ == self@,
    {
        Shape {
            name: self.name.clone(),
            table: self.table.clone(),
            columns: text::copy_texts(&self.columns),
            predicate: self.predicate.clone(),
            auth_scope: self.auth_scope.clone(),
            schema_version: self.schema_version,
        }
    }
}

/// Shapes by name.
pub struct ShapeRegistry {
    shapes: StringHashMap<Shape>,
}

impl View for ShapeRegistry {
    type V = Map<Seq<char>, ShapeView>;

    closed spec fn view(&self) -> Map<Seq<char>, ShapeView> {
        self.shapes@.map_values(|s: Shape| s@)
    }
}

impl ShapeRegistry {
    /// Every shape stands under its own name.
    #[verifier::type_invariant]
    closed spec fn inv(&self) -> bool {
        forall|k: Seq<char>| #[trigger] self.shapes@.contains_key(k) ==> self.shapes@[k].name@ == k
    }

    /// A registry without shapes.
    pub fn new() -> (r: Self)
        ensures
            r@ == Map::<Seq<char>, ShapeView>::empty(),
    {
        let r = ShapeRegistry { shapes: StringHashMap::new() };
        assert(r@ =~= Map::empty());
        r
    }

    /// Adds a shape under its name, and returns the one that stood there.
    pub fn add(&mut self, shape: Shape) -> (r: Option<Shape>)
        ensures
            final(self)@ == old(self)@.insert(shape@.name, shape@),
            r is Some <==> old(self)@.contains_key(shape@.name),
            r matches Some(s) ==> s@ == old(self)@[shape@.name] && s@.name == shape@.name,
    {
        proof {
            use_type_invariant(&*self);
        }
        let ghost before = self@;
        let old_shape = match self.shapes.get(shape.name.as_str()) {
            Some(s) => Some(s.clone()),
            None => None,
        };
        let name = shape.name.clone();
        let mut shapes: StringHashMap<Shape> = StringHashMap::new();
        std::mem::swap(&mut shapes, &mut self.shapes);
        shapes.insert(name, shape);
        self.shapes = shapes;
        assert(self@ =~= before.insert(shape@.name, shape@));
        old_shape
    }

    /// The shape of a name.
    pub fn get(&self, name: &str) -> (r: Option<&Shape>)
        ensures
            r is Some <==> self@.contains_key(name@),
            r matches Some(s) ==> s@ == self@[name@] && s@.name == name@,
    {
        proof {
            use_type_invariant(self);
        }
        self.shapes.get(name)
    }

    /// Whether there is a shape of a name.
    pub fn contains(&self, name: &str) -> (r: bool)
        ensures
            r == self@.contains_key(name@),
    {
        self.shapes.contains_key(name)
    }
}

impl Default for ShapeRegistry {
    fn default() -> (r: Self)
        ensures
            r@ == Map::<Seq<char>, ShapeView>::empty(),
    {
        ShapeRegistry::new()
    }
}

/// The predicate as the engine has it.
pub open spec fn engine_predicate(p: PredicateView) -> engine::predicate::PredicateView
    decreases p,
{
    match p {
        PredicateView::All => engine::predicate::PredicateView::All,
        PredicateView::Eq { column, value } => engine::predicate::PredicateView::Eq { column, value },
        PredicateView::And { predicates } => engine::predicate::PredicateView::And(
            engine_predicates(predicates),
        ),
    }
}

/// Some predicates as the engine has them.
pub open spec fn engine_predicates(list: Seq<PredicateView>) -> Seq<engine::predicate::PredicateView>
    decreases list,
{
    if list.len() == 0 {
        Seq::empty()
    } else {
        engine_predicates(list.drop_last()).push(engine_predicate(list.last()))
    }
}

/// The canonical JSON of a shape. Its name is no part of it: shapes that are defined alike are
/// the same shape.
pub open spec fn canonical(s: ShapeView) -> JsonView {
    engine::shape::identity_json(
        s.auth_scope,
        s.columns,
        engine::shape::predicate_json(engine_predicate(s.predicate)),
        s.schema_version,
        s.table,
    )
}

/// The SHA-256 digest of some bytes, by `sha2::Sha256::digest`, which counts the bits of a message
/// in 64 bits: the message has to be shorter than that.
#[verifier::external_body]
pub(crate) fn sha2_digest(bytes: &[u8]) -> (r: Vec<u8>)
    requires
        bytes@.len() < 0x2000_0000_0000_0000,
    ensures
        r@ == sha256::digest(bytes@),
{
    <sha2::Sha256 as sha2::Digest>::digest(bytes).to_vec()
}

fn to_engine_list(list: &Vec<Predicate>) -> (r: Vec<engine::predicate::Predicate>)
    ensures
        engine::predicate::predicate_views(r@) == engine_predicates(predicate_views(list@)),
    decreases list,
{
    let ghost ps = predicate_views(list@);
    let mut out: Vec<engine::predicate::Predicate> = Vec::new();
    let mut i: usize = 0;
    assert(engine::predicate::predicate_views(out@) =~= engine_predicates(ps.take(0)));
    while i < list.len()
        invariant
            i <= list@.len(),
            ps == predicate_views(list@),
            engine::predicate::predicate_views(out@) == engine_predicates(ps.take(i as int)),
        decreases list@.len() - i,
    {
        assert(ps.take(i + 1).drop_last() =~= ps.take(i as int));
        assert(ps.take(i + 1).last() == list@[i as int]@);
        assert(decreases_to!(list => list@[i as int]));
        let child = to_engine(&list[i]);
        let ghost before = engine::predicate::predicate_views(out@);
        out.push(child);
        assert(engine::predicate::predicate_views(out@) =~= before.push(child@));
        i += 1;
    }
    assert(ps.take(list@.len() as int) =~= ps);
    out
}

/// The predicate as the engine has it.
pub fn to_engine(p: &Predicate) -> (r: engine::predicate::Predicate)
    ensures
        r@ == engine_predicate(p@),
    decreases p,
{
    match p {
        Predicate::All => engine::predicate::all(),
        Predicate::Eq { column, value } => engine::predicate::eq(column.as_str(), value.clone()),
        Predicate::And { predicates } => {
            proof {
                lemma_and_view(*predicates);
            }
            engine::predicate::and(to_engine_list(predicates))
        },
    }
}

impl Shape {
    /// The handle of the shape: the hexadecimal SHA-256 digest of its canonical text. A text too
    /// long for the bit counter of `sha2` is digested here.
    pub fn handle(&self) -> (r: String)
        ensures
            r@ == engine::shape::json_handle(canonical(self@)),
    {
        let columns = engine::shape::sorted_texts(&self.columns);
        let predicate = to_engine(&self.predicate);
        let mut o = JsonObject::new();
        o.insert("auth_scope".to_string(), Json::text(self.auth_scope.as_str()));
        o.insert("columns".to_string(), Json::texts(&columns));
        o.insert("predicate".to_string(), engine::shape::predicate_to_json(&predicate));
        o.insert("schema_version".to_string(), Json::Number(Number::PosInt(self.schema_version)));
        o.insert("table".to_string(), Json::text(self.table.as_str()));
        let body = Json::Object(o).to_text();
        let bytes = body.as_str().as_bytes();
        let digest = if bytes.len() as u64 >= 0x2000_0000_0000_0000 {
            sha256::sha256(bytes)
        } else {
            sha2_digest(bytes)
        };
        sha256::to_hex(digest.as_slice())
    }
}

/// The shape as the engine has it.
pub open spec fn engine_shape(s: ShapeView) -> engine::shape::ShapeView {
    engine::shape::ShapeView {
        table: s.table,
        columns: s.columns,
        predicate: engine_predicate(s.predicate),
        auth_scope: s.auth_scope,
        schema_version: s.schema_version as u32,
    }
}

/// A shape has the same handle here and in the engine.
pub proof fn law_handle_is_that_of_the_engine(s: ShapeView)
    requires
        s.schema_version <= u32::MAX,
    ensures
        engine::shape::json_handle(canonical(s)) == engine::shape::shape_handle(engine_shape(s)),
{
}

/// A handle is made of 64 lower-case hexadecimal digits.
pub proof fn law_handle_shape(s: ShapeView)
    ensures
        ({
            let h = engine::shape::json_handle(canonical(s));
            &&& h.len() == 64
            &&& forall|i: int| 0 <= i < 64 ==> ('0' <= #[trigger] h[i] <= '9' || 'a' <= h[i] <= 'f')
        }),
{
    sha256::law_digest_is_64_hex_digits(vstd::utf8::encode_utf8(json::encoded(canonical(s))));
}

/// A handle names one shape: barring a collision of SHA-256, shapes that differ in their audience,
/// in their columns, in the canonical text of their predicate, in the version of their schema or in
/// their table have different handles.
pub proof fn law_handles_tell_shapes_apart(s: ShapeView, t: ShapeView)
    requires
        engine::shape::json_handle(canonical(s)) == engine::shape::json_handle(canonical(t)),
        !engine::shape::collide(canonical(s), canonical(t)),
    ensures
        s.auth_scope == t.auth_scope,
        s.columns.to_multiset() == t.columns.to_multiset(),
        json::encoded(engine::shape::predicate_json(engine_predicate(s.predicate))) == json::encoded(
            engine::shape::predicate_json(engine_predicate(t.predicate)),
        ),
        s.schema_version == t.schema_version,
        s.table == t.table,
{
    engine::shape::lemma_handle_tells_texts_apart(canonical(s), canonical(t));
    engine::shape::law_text_tells_identities_apart(
        s.auth_scope,
        t.auth_scope,
        s.columns,
        t.columns,
        engine::shape::predicate_json(engine_predicate(s.predicate)),
        engine::shape::predicate_json(engine_predicate(t.predicate)),
        s.schema_version,
        t.schema_version,
        s.table,
        t.table,
    );
}

/// Shapes of one table, audience and version that have the same columns in any order, and whose
/// predicates agree up to the order of the parts of their conjunctions at any depth, have one
/// handle, whatever their names.
pub proof fn law_equivalent_shapes_are_one(s: ShapeView, t: ShapeView)
    requires
        s.table == t.table,
        s.auth_scope == t.auth_scope,
        s.schema_version == t.schema_version,
        s.columns.to_multiset() == t.columns.to_multiset(),
        engine::shape::equivalent(engine_predicate(s.predicate), engine_predicate(t.predicate)),
    ensures
        engine::shape::json_handle(canonical(s)) == engine::shape::json_handle(canonical(t)),
{
    let (p, q) = (engine_predicate(s.predicate), engine_predicate(t.predicate));
    engine::shape::law_equivalent_predicates_have_one_text(p, q);
    engine::shape::lemma_identity_ignores_order(
        s.auth_scope,
        s.columns,
        t.columns,
        engine::shape::predicate_json(p),
        engine::shape::predicate_json(q),
        s.schema_version,
        s.table,
    );
}

/// The handle of a shape does not depend on its name.
pub proof fn law_handle_ignores_the_name(s: ShapeView, name: Seq<char>)
    ensures
        canonical(ShapeView { name, ..s }) == canonical(s),
{
}

proof fn lemma_engine_predicates_index(list: Seq<PredicateView>, i: int)
    requires
        0 <= i < list.len(),
    ensures
        engine_predicates(list).len() == list.len(),
        engine_predicates(list)[i] == engine_predicate(list[i]),
    decreases list.len(),
{
    if list.len() > 1 {
        if i < list.len() - 1 {
            lemma_engine_predicates_index(list.drop_last(), i);
        } else {
            lemma_engine_predicates_index(list.drop_last(), 0);
        }
    } else {
        assert(engine_predicates(list.drop_last()).len() == 0);
    }
}

/// A row of a table satisfies a predicate here where it does in the engine.
pub proof fn law_rows_match_as_in_the_engine(p: PredicateView, entries: Seq<(Seq<char>, JsonView)>)
    ensures
        holds(p, entries) == engine::predicate::selects(engine_predicate(p), JsonView::Object(entries)),
    decreases p,
{
    let row = JsonView::Object(entries);
    let q = engine_predicate(p);
    match p {
        PredicateView::And { predicates } => {
            assert(p->predicates == predicates);
            let children = engine_predicates(predicates);
            assert(q->And_0 == children);
            if predicates.len() > 0 {
                lemma_engine_predicates_index(predicates, 0);
            }
            assert forall|i: int| 0 <= i < predicates.len() implies engine::predicate::selects(
                #[trigger] children[i],
                row,
            ) == holds(predicates[i], entries) by {
                lemma_engine_predicates_index(predicates, i);
                law_rows_match_as_in_the_engine(predicates[i], entries);
            }
            if holds(p, entries) {
                assert forall|i: int| 0 <= i < children.len() implies engine::predicate::selects(
                    #[trigger] children[i],
                    row,
                ) by {
                    assert(holds(predicates[i], entries));
                }
            } else {
                let i = choose|i: int| 0 <= i < predicates.len() && !holds(#[trigger] predicates[i], entries);
                assert(!engine::predicate::selects(children[i], row));
            }
        },
        _ => {},
    }
}

/// The change as the engine has it, in some batch.
pub open spec fn engine_row(row: LogRowView, batch_id: Seq<char>, op: Seq<char>) -> engine::log::LogRowView {
    engine::log::LogRowView {
        seq: row.seq,
        batch_id,
        op,
        pk: row.pk_json,
        old_pk: row.old_pk_json,
        new_pk: row.new_pk_json,
        old_row: row.old_json,
        new_row: row.new_json,
    }
}

/// The message at a position as the engine has it.
pub open spec fn positioned(m: engine::log::MessageView, offset: i64) -> MessageView {
    match m {
        engine::log::MessageView::Insert { key, value } => MessageView::Insert { key, value, offset },
        engine::log::MessageView::Update { key, value } => MessageView::Update { key, value, offset },
        engine::log::MessageView::Delete { key } => MessageView::Delete { key, offset },
    }
}

/// Whether a row that may be missing is an object where it is there: every row of a table is.
pub open spec fn is_row(v: Option<JsonView>) -> bool {
    v matches Some(j) ==> j is Object
}

/// A change of the table of a shape sends its readers the messages that the engine sends, so they
/// keep a copy up to date as those do.
pub proof fn law_messages_are_those_of_the_engine(
    shape: ShapeView,
    row: LogRowView,
    batch_id: Seq<char>,
    op: Seq<char>,
)
    requires
        row.table_name == shape.table,
        is_row(row.old_json),
        is_row(row.new_json),
    ensures
        messages(shape, row) == engine::log::transitions(
            engine_predicate(shape.predicate),
            shape.columns,
            engine_row(row, batch_id, op),
        ).map_values(|m: engine::log::MessageView| positioned(m, row.seq)),
{
    let q = engine_predicate(shape.predicate);
    let t = engine::log::transitions(q, shape.columns, engine_row(row, batch_id, op));
    if let Some(JsonView::Object(entries)) = row.old_json {
        law_rows_match_as_in_the_engine(shape.predicate, entries);
    }
    if let Some(JsonView::Object(entries)) = row.new_json {
        law_rows_match_as_in_the_engine(shape.predicate, entries);
    }
    assert(messages(shape, row) =~= t.map_values(|m: engine::log::MessageView| positioned(m, row.seq)));
}

/// Every row that a message carries belongs to the shape and is reduced to its columns, and only a
/// row that belonged to the shape is deleted.
pub proof fn law_messages_carry_members_only(shape: ShapeView, row: LogRowView, i: int)
    requires
        0 <= i < messages(shape, row).len(),
    ensures
        match messages(shape, row)[i] {
            MessageView::Insert { value, .. } => matched(shape.predicate, row.new_json) && value == json::projected(
                row.new_json->0,
                shape.columns,
            ),
            MessageView::Update { value, .. } => matched(shape.predicate, row.new_json) && value == json::projected(
                row.new_json->0,
                shape.columns,
            ),
            MessageView::Delete { .. } => matched(shape.predicate, row.old_json),
        },
{
}

/// The row that a message carries, where it carries one.
pub open spec fn carried(m: MessageView) -> Option<JsonView> {
    match m {
        MessageView::Insert { value, .. } => Some(value),
        MessageView::Update { value, .. } => Some(value),
        MessageView::Delete { .. } => None,
    }
}

/// Columns are an allowlist: the row of a message has the columns of the shape as the changed row
/// has them, and no other column.
pub proof fn law_messages_stay_within_columns(shape: ShapeView, row: LogRowView, i: int, column: Seq<char>)
    requires
        0 <= i < messages(shape, row).len(),
    ensures
        carried(messages(shape, row)[i]) matches Some(value) ==> {
            &&& row.new_json matches Some(new)
            &&& json::field(value, column) == (if shape.columns.contains(column) {
                json::field(new, column)
            } else {
                None
            })
        },
{
    if let Some(new) = row.new_json {
        json::law_projection_keeps_its_keys(new, shape.columns, column);
    }
}

} // verus!

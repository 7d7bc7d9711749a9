//! The change log, and the messages that a change of a row sends to the readers of a shape.
use vstd::prelude::*;
use crate::engine::predicate;
use crate::engine::predicate::{Predicate, PredicateView};
use crate::engine::shape;
use crate::json;
use crate::json::{Json, JsonObject, JsonView};
use crate::number;
use crate::text;

verus! {

/// One change of a row: its place in the log, its batch, its kind, the key of the row, and the
/// key and the row before and after the change.
#[derive(Clone, Debug)]
pub struct LogRow {
    pub seq: i64,
    pub batch_id: String,
    pub op: String,
    pub pk: Json,
    pub old_pk: Option<Json>,
    pub new_pk: Option<Json>,
    pub old_row: Option<Json>,
    pub new_row: Option<Json>,
}

/// The model of a change.
pub struct LogRowView {
    pub seq: i64,
    pub batch_id: Seq<char>,
    pub op: Seq<char>,
    pub pk: JsonView,
    pub old_pk: Option<JsonView>,
    pub new_pk: Option<JsonView>,
    pub old_row: Option<JsonView>,
    pub new_row: Option<JsonView>,
}

impl View for LogRow {
    type V = LogRowView;

    open spec fn view(&self) -> LogRowView {
        LogRowView {
            seq: self.seq,
            batch_id: self.batch_id@,
            op: self.op@,
            pk: self.pk@,
            old_pk: json::option_view(self.old_pk),
            new_pk: json::option_view(self.new_pk),
            old_row: json::option_view(self.old_row),
            new_row: json::option_view(self.new_row),
        }
    }
}

/// The models of some changes.
pub open spec fn log_views(rows: Seq<LogRow>) -> Seq<LogRowView> {
    Seq::new(rows.len(), |i: int| rows[i]@)
}

/// What a reader of a shape does with its copy of a row.
pub enum MessageView {
    Insert { key: JsonView, value: JsonView },
    Update { key: JsonView, value: JsonView },
    Delete { key: JsonView },
}

/// The key of the row before a change.
pub open spec fn old_key(row: LogRowView) -> JsonView {
    match row.old_pk {
        Some(k) => k,
        None => row.pk,
    }
}

/// The key of the row after a change.
pub open spec fn new_key(row: LogRowView) -> JsonView {
    match row.new_pk {
        Some(k) => k,
        None => row.pk,
    }
}

/// What a change sends to the readers of a shape, by whether the row belongs to the shape before
/// and after it. A row that stays in the shape under another key is deleted and inserted. Whether
/// a row belongs to the shape is decided on all of its columns; those of the shape are sent.
pub open spec fn transitions(
    p: PredicateView,
    columns: Seq<Seq<char>>,
    row: LogRowView,
) -> Seq<MessageView> {
    match (predicate::visible(p, row.old_row), row.new_row) {
        (false, Some(new)) => if predicate::selects(p, new) {
            seq![MessageView::Insert { key: new_key(row), value: json::projected(new, columns) }]
        } else {
            Seq::empty()
        },
        (true, Some(new)) => if !predicate::selects(p, new) {
            seq![MessageView::Delete { key: old_key(row) }]
        } else if json::same_json(old_key(row), new_key(row)) {
            seq![MessageView::Update { key: new_key(row), value: json::projected(new, columns) }]
        } else {
            seq![
                MessageView::Delete { key: old_key(row) },
                MessageView::Insert { key: new_key(row), value: json::projected(new, columns) },
            ]
        },
        (true, None) => seq![MessageView::Delete { key: old_key(row) }],
        (false, None) => Seq::empty(),
    }
}

/// The entries that every message has.
pub open spec fn message_entries(
    kind: Seq<char>,
    row: LogRowView,
    key: JsonView,
) -> Seq<(Seq<char>, JsonView)> {
    json::put(
        json::put(
            json::put(
                json::put(shape::no_entries(), "type"@, JsonView::Text(kind)),
                "batch_id"@,
                JsonView::Text(row.batch_id),
            ),
            "key"@,
            key,
        ),
        "offset"@,
        JsonView::Number(number::integer(row.seq)),
    )
}

/// A message as JSON: a deletion has no value.
pub open spec fn message_json(row: LogRowView, m: MessageView) -> JsonView {
    match m {
        MessageView::Insert { key, value } => JsonView::Object(
            json::put(message_entries("insert"@, row, key), "value"@, value),
        ),
        MessageView::Update { key, value } => JsonView::Object(
            json::put(message_entries("update"@, row, key), "value"@, value),
        ),
        MessageView::Delete { key } => JsonView::Object(message_entries("delete"@, row, key)),
    }
}

/// The messages of a change as JSON.
pub open spec fn message_jsons(
    p: PredicateView,
    columns: Seq<Seq<char>>,
    row: LogRowView,
) -> Seq<JsonView> {
    let t = transitions(p, columns, row);
    Seq::new(t.len(), |i: int| message_json(row, t[i]))
}

/// The messages of some changes as JSON, in the order of the changes.
pub open spec fn all_message_jsons(
    p: PredicateView,
    columns: Seq<Seq<char>>,
    rows: Seq<LogRowView>,
) -> Seq<JsonView>
    decreases rows.len(),
{
    if rows.len() == 0 {
        Seq::empty()
    } else {
        all_message_jsons(p, columns, rows.drop_last()) + message_jsons(p, columns, rows.last())
    }
}

/// A message as JSON.
pub fn msg(kind: &str, r: &LogRow, key: &Json, value: Option<&Json>) -> (m: Json)
    ensures
        m@ == JsonView::Object(
            match value {
                Some(v) => json::put(message_entries(kind@, r@, key@), "value"@, v@),
                None => message_entries(kind@, r@, key@),
            },
        ),
{
    let mut o = JsonObject::new();
    o.insert("type".to_string(), Json::text(kind));
    o.insert("batch_id".to_string(), Json::text(r.batch_id.as_str()));
    o.insert("key".to_string(), key.clone());
    o.insert("offset".to_string(), Json::integer(r.seq));
    if let Some(v) = value {
        o.insert("value".to_string(), v.clone());
    }
    Json::Object(o)
}

fn key_or<'a>(key: &'a Option<Json>, pk: &'a Json) -> (r: &'a Json)
    ensures
        r@ == (match json::option_view(*key) {
            Some(k) => k,
            None => pk@,
        }),
{
    match key {
        Some(k) => k,
        None => pk,
    }
}

/// The messages that a change sends to the readers of a shape.
pub fn messages_for(p: &Predicate, columns: &Vec<String>, r: &LogRow) -> (messages: Vec<Json>)
    ensures
        json::views(messages@) == message_jsons(p@, text::texts(columns@), r@),
{
    let old_match = predicate::predicate_matches(p, &r.old_row);
    let new_match = predicate::predicate_matches(p, &r.new_row);
    let from = key_or(&r.old_pk, &r.pk);
    let to = key_or(&r.new_pk, &r.pk);
    let mut out: Vec<Json> = Vec::new();
    match &r.new_row {
        Some(new) => {
            if new_match {
                let value = new.project(columns);
                if !old_match {
                    out.push(msg("insert", r, to, Some(&value)));
                } else if from.same(to) {
                    out.push(msg("update", r, to, Some(&value)));
                } else {
                    out.push(msg("delete", r, from, None));
                    out.push(msg("insert", r, to, Some(&value)));
                }
            } else if old_match {
                out.push(msg("delete", r, from, None));
            }
        },
        None => {
            if old_match {
                out.push(msg("delete", r, from, None));
            }
        },
    }
    assert(json::views(out@) =~= message_jsons(p@, text::texts(columns@), r@));
    out
}

/// The messages that some changes send to the readers of a shape.
pub fn messages_for_all(p: &Predicate, columns: &Vec<String>, rows: &Vec<LogRow>) -> (messages: Vec<Json>)
    ensures
        json::views(messages@) == all_message_jsons(p@, text::texts(columns@), log_views(rows@)),
{
    let ghost all = log_views(rows@);
    let ghost cs = text::texts(columns@);
    let mut out: Vec<Json> = Vec::new();
    let mut i: usize = 0;
    assert(json::views(out@) =~= all_message_jsons(p@, cs, all.take(0)));
    while i < rows.len()
        invariant
            i <= rows@.len(),
            all == log_views(rows@),
            cs == text::texts(columns@),
            json::views(out@) == all_message_jsons(p@, cs, all.take(i as int)),
        decreases rows@.len() - i,
    {
        assert(all.take(i + 1).drop_last() =~= all.take(i as int));
        assert(all.take(i + 1).last() == rows@[i as int]@);
        let mut more = messages_for(p, columns, &rows[i]);
        let ghost before = out@;
        let ghost extra = more@;
        out.append(&mut more);
        assert(json::views(out@) =~= json::views(before) + json::views(extra));
        i += 1;
    }
    assert(all.take(rows@.len() as int) =~= all);
    out
}

/// The rows of a table that belong to a shape.
pub open spec fn members(p: PredicateView, table: Map<JsonView, JsonView>) -> Map<JsonView, JsonView> {
    table.restrict(Set::new(|k: JsonView| table.contains_key(k) && predicate::selects(p, table[k])))
}

/// The rows of a shape by their keys: the rows of its table that belong to it, reduced to its
/// columns. This is what a snapshot holds, and what a reader who is up to date holds.
pub open spec fn shape_rows(
    p: PredicateView,
    columns: Seq<Seq<char>>,
    table: Map<JsonView, JsonView>,
) -> Map<JsonView, JsonView> {
    members(p, table).map_values(|row: JsonView| json::projected(row, columns))
}

/// What a message makes of a reader's copy.
pub open spec fn applied(copy: Map<JsonView, JsonView>, m: MessageView) -> Map<JsonView, JsonView> {
    match m {
        MessageView::Insert { key, value } => copy.insert(key, value),
        MessageView::Update { key, value } => copy.insert(key, value),
        MessageView::Delete { key } => copy.remove(key),
    }
}

/// What some messages make of a reader's copy, one after the other.
pub open spec fn all_applied(
    copy: Map<JsonView, JsonView>,
    messages: Seq<MessageView>,
) -> Map<JsonView, JsonView>
    decreases messages.len(),
{
    if messages.len() == 0 {
        copy
    } else {
        applied(all_applied(copy, messages.drop_last()), messages.last())
    }
}

/// Whether a message fits a reader's copy: an insertion meets no row of its key, an update and a
/// deletion meet one.
pub open spec fn fits(copy: Map<JsonView, JsonView>, m: MessageView) -> bool {
    match m {
        MessageView::Insert { key, .. } => !copy.contains_key(key),
        MessageView::Update { key, .. } => copy.contains_key(key),
        MessageView::Delete { key } => copy.contains_key(key),
    }
}

/// Whether each of some messages fits what those before it made of a reader's copy.
pub open spec fn all_fit(copy: Map<JsonView, JsonView>, messages: Seq<MessageView>) -> bool
    decreases messages.len(),
{
    messages.len() == 0 || {
        &&& all_fit(copy, messages.drop_last())
        &&& fits(all_applied(copy, messages.drop_last()), messages.last())
    }
}

/// Whether a log row records the change of a table from `before` to `after`.
pub open spec fn records(
    before: Map<JsonView, JsonView>,
    row: LogRowView,
    after: Map<JsonView, JsonView>,
) -> bool {
    match (row.old_row, row.new_row) {
        (None, Some(new)) => {
            &&& !before.contains_key(new_key(row))
            &&& after == before.insert(new_key(row), new)
        },
        (Some(old), Some(new)) => {
            &&& before.contains_key(old_key(row))
            &&& before[old_key(row)] == old
            &&& (new_key(row) == old_key(row) || !before.contains_key(new_key(row)))
            &&& after == before.remove(old_key(row)).insert(new_key(row), new)
        },
        (Some(old), None) => {
            &&& before.contains_key(old_key(row))
            &&& before[old_key(row)] == old
            &&& after == before.remove(old_key(row))
        },
        (None, None) => after == before,
    }
}

/// Whether a row that stays in a shape keeps its key where JSON equality says so. It does but for
/// a key that changes from one zero to that of the other sign: they are equal as JSON numbers.
pub open spec fn keys_told_apart(p: PredicateView, row: LogRowView) -> bool {
    predicate::visible(p, row.old_row) && predicate::visible(p, row.new_row) && json::same_json(
        old_key(row),
        new_key(row),
    ) ==> old_key(row) == new_key(row)
}

/// A reader who was up to date before a change is up to date again once the messages of the
/// change are applied: the copy holds the rows of the shape, no more and no less. Each message
/// fits the copy that it meets.
pub proof fn law_messages_keep_a_copy_up_to_date(
    p: PredicateView,
    columns: Seq<Seq<char>>,
    before: Map<JsonView, JsonView>,
    row: LogRowView,
    after: Map<JsonView, JsonView>,
)
    requires
        records(before, row, after),
        keys_told_apart(p, row),
    ensures
        all_applied(shape_rows(p, columns, before), transitions(p, columns, row)) == shape_rows(
            p,
            columns,
            after,
        ),
        all_fit(shape_rows(p, columns, before), transitions(p, columns, row)),
{
    let t = transitions(p, columns, row);
    let copy = shape_rows(p, columns, before);
    json::law_equality_is_an_equivalence(old_key(row), new_key(row), new_key(row));
    reveal_with_fuel(all_applied, 3);
    reveal_with_fuel(all_fit, 3);
    if t.len() == 1 {
        assert(t.drop_last() =~= Seq::empty());
    } else if t.len() == 2 {
        assert(t.drop_last() =~= seq![t[0]]);
        assert(t.drop_last().drop_last() =~= Seq::empty());
    }
    assert(all_applied(copy, t) =~= shape_rows(p, columns, after));
}

/// The messages of some changes, in the order of the changes.
pub open spec fn all_transitions(
    p: PredicateView,
    columns: Seq<Seq<char>>,
    rows: Seq<LogRowView>,
) -> Seq<MessageView>
    decreases rows.len(),
{
    if rows.len() == 0 {
        Seq::empty()
    } else {
        all_transitions(p, columns, rows.drop_last()) + transitions(p, columns, rows.last())
    }
}

proof fn lemma_applied_concat(copy: Map<JsonView, JsonView>, a: Seq<MessageView>, b: Seq<MessageView>)
    ensures
        all_applied(copy, a + b) == all_applied(all_applied(copy, a), b),
        all_fit(copy, a + b) == (all_fit(copy, a) && all_fit(all_applied(copy, a), b)),
    decreases b.len(),
{
    if b.len() == 0 {
        assert(a + b =~= a);
    } else {
        assert((a + b).drop_last() =~= a + b.drop_last());
        lemma_applied_concat(copy, a, b.drop_last());
    }
}

/// Whether some changes lead a table through its states, one after the other, and every row that
/// stays in a shape keeps its key where JSON equality says so.
pub open spec fn history(
    p: PredicateView,
    rows: Seq<LogRowView>,
    tables: Seq<Map<JsonView, JsonView>>,
) -> bool {
    &&& tables.len() == rows.len() + 1
    &&& forall|i: int|
        0 <= i < rows.len() ==> records(tables[i], #[trigger] rows[i], tables[i + 1]) && keys_told_apart(p, rows[i])
}

/// A reader who was up to date at one state of a table and applies the messages of every change
/// since then holds the rows of the shape as they are now. Each message fits the copy that it
/// meets.
pub proof fn law_replay_keeps_a_copy_up_to_date(
    p: PredicateView,
    columns: Seq<Seq<char>>,
    rows: Seq<LogRowView>,
    tables: Seq<Map<JsonView, JsonView>>,
)
    requires
        history(p, rows, tables),
    ensures
        all_applied(shape_rows(p, columns, tables[0]), all_transitions(p, columns, rows)) == shape_rows(
            p,
            columns,
            tables.last(),
        ),
        all_fit(shape_rows(p, columns, tables[0]), all_transitions(p, columns, rows)),
    decreases rows.len(),
{
    if rows.len() > 0 {
        let front = rows.drop_last();
        let n = front.len() as int;
        let earlier = tables.drop_last();
        assert forall|i: int| 0 <= i < front.len() implies records(
            earlier[i],
            #[trigger] front[i],
            earlier[i + 1],
        ) && keys_told_apart(p, front[i]) by {
            assert(records(tables[i], rows[i], tables[i + 1]));
        }
        law_replay_keeps_a_copy_up_to_date(p, columns, front, earlier);
        assert(records(tables[n], rows[n], tables[n + 1]));
        law_messages_keep_a_copy_up_to_date(p, columns, tables[n], rows[n], tables[n + 1]);
        lemma_applied_concat(
            shape_rows(p, columns, tables[0]),
            all_transitions(p, columns, front),
            transitions(p, columns, rows.last()),
        );
    }
}

/// Every row that a message carries belongs to the shape and is reduced to its columns, and only a
/// row that belonged to the shape is deleted.
pub proof fn law_messages_carry_members_only(
    p: PredicateView,
    columns: Seq<Seq<char>>,
    row: LogRowView,
    i: int,
)
    requires
        0 <= i < transitions(p, columns, row).len(),
    ensures
        match transitions(p, columns, row)[i] {
            MessageView::Insert { key, value } => row.new_row matches Some(new) && predicate::selects(p, new)
                && value == json::projected(new, columns),
            MessageView::Update { key, value } => row.new_row matches Some(new) && predicate::selects(p, new)
                && value == json::projected(new, columns),
            MessageView::Delete { key } => predicate::visible(p, row.old_row),
        },
{
}

/// The row that a message carries, where it carries one.
pub open spec fn carried(m: MessageView) -> Option<JsonView> {
    match m {
        MessageView::Insert { value, .. } => Some(value),
        MessageView::Update { value, .. } => Some(value),
        MessageView::Delete { .. } => None,
    }
}

/// Columns are an allowlist: the row of a message has the columns of the shape as the changed row
/// has them, and no other column.
pub proof fn law_messages_stay_within_columns(
    p: PredicateView,
    columns: Seq<Seq<char>>,
    row: LogRowView,
    i: int,
    column: Seq<char>,
)
    requires
        0 <= i < transitions(p, columns, row).len(),
    ensures
        carried(transitions(p, columns, row)[i]) matches Some(value) ==> {
            &&& row.new_row matches Some(new)
            &&& json::field(value, column) == (if columns.contains(column) {
                json::field(new, column)
            } else {
                None
            })
        },
{
    if let Some(new) = row.new_row {
        json::law_projection_keeps_its_keys(new, columns, column);
    }
}

/// The table of membership transitions: which messages a change sends depends on whether the row
/// belonged to the shape before it and belongs to it after it.
pub proof fn law_membership_transitions(p: PredicateView, columns: Seq<Seq<char>>, row: LogRowView)
    ensures
        ({
            let old_in = predicate::visible(p, row.old_row);
            let new_in = predicate::visible(p, row.new_row);
            let same_key = json::same_json(old_key(row), new_key(row));
            let value = json::projected(row.new_row->0, columns);
            let t = transitions(p, columns, row);
            &&& !old_in && new_in ==> t == seq![MessageView::Insert { key: new_key(row), value }]
            &&& old_in && new_in && same_key ==> t == seq![MessageView::Update { key: new_key(row), value }]
            &&& old_in && new_in && !same_key ==> t == seq![
                MessageView::Delete { key: old_key(row) },
                MessageView::Insert { key: new_key(row), value },
            ]
            &&& old_in && !new_in ==> t == seq![MessageView::Delete { key: old_key(row) }]
            &&& !old_in && !new_in ==> t.len() == 0
        }),
{
}

/// What a reader makes of a message: `None` where it is none.
pub open spec fn read_message(m: JsonView) -> Option<MessageView> {
    match (json::field(m, "type"@), json::field(m, "key"@), json::field(m, "value"@)) {
        (Some(JsonView::Text(kind)), Some(key), Some(value)) => if kind == "insert"@ {
            Some(MessageView::Insert { key, value })
        } else if kind == "update"@ {
            Some(MessageView::Update { key, value })
        } else {
            None
        },
        (Some(JsonView::Text(kind)), Some(key), None) => if kind == "delete"@ {
            Some(MessageView::Delete { key })
        } else {
            None
        },
        _ => None,
    }
}

/// What a reader makes of some messages.
pub open spec fn all_read(messages: Seq<JsonView>) -> Seq<MessageView> {
    Seq::new(messages.len(), |i: int| read_message(messages[i])->0)
}

proof fn lemma_message_fields(kind: Seq<char>, row: LogRowView, key: JsonView, value: Option<JsonView>)
    ensures
        ({
            let e = message_entries(kind, row, key);
            let all = match value {
                Some(v) => json::put(e, "value"@, v),
                None => e,
            };
            &&& json::lookup(all, "type"@) == Some(JsonView::Text(kind))
            &&& json::lookup(all, "key"@) == Some(key)
            &&& json::lookup(all, "value"@) == value
        }),
{
    reveal_strlit("type");
    reveal_strlit("batch_id");
    reveal_strlit("key");
    reveal_strlit("offset");
    reveal_strlit("value");
    assert("type"@[0] == 't' && "batch_id"@[0] == 'b' && "key"@[0] == 'k' && "offset"@[0] == 'o');
    assert("value"@[0] == 'v');
    let e0 = shape::no_entries();
    let (t, b, k, o, v) = ("type"@, "batch_id"@, "key"@, "offset"@, "value"@);
    let batch = JsonView::Text(row.batch_id);
    let offset = JsonView::Number(number::integer(row.seq));
    let e1 = json::put(e0, t, JsonView::Text(kind));
    let e2 = json::put(e1, b, batch);
    let e3 = json::put(e2, k, key);
    let e4 = json::put(e3, o, offset);
    json::law_put_then_lookup(e0, t, JsonView::Text(kind), k);
    json::law_put_then_lookup(e0, t, JsonView::Text(kind), v);
    json::law_put_then_lookup(e1, b, batch, t);
    json::law_put_then_lookup(e1, b, batch, v);
    json::law_put_then_lookup(e2, k, key, t);
    json::law_put_then_lookup(e2, k, key, v);
    json::law_put_then_lookup(e3, o, offset, t);
    json::law_put_then_lookup(e3, o, offset, k);
    json::law_put_then_lookup(e3, o, offset, v);
    if let Some(x) = value {
        json::law_put_then_lookup(e4, v, x, t);
        json::law_put_then_lookup(e4, v, x, k);
    }
}

/// A reader reads a message as it was meant.
pub proof fn law_messages_read_back(row: LogRowView, m: MessageView)
    ensures
        read_message(message_json(row, m)) == Some(m),
{
    reveal_strlit("insert");
    reveal_strlit("update");
    reveal_strlit("delete");
    assert("insert"@[0] == 'i' && "update"@[0] == 'u' && "delete"@[0] == 'd');
    match m {
        MessageView::Insert { key, value } => lemma_message_fields("insert"@, row, key, Some(value)),
        MessageView::Update { key, value } => lemma_message_fields("update"@, row, key, Some(value)),
        MessageView::Delete { key } => lemma_message_fields("delete"@, row, key, None),
    }
}

/// A reader reads the messages of some changes as they were meant.
pub proof fn law_all_messages_read_back(p: PredicateView, columns: Seq<Seq<char>>, rows: Seq<LogRowView>)
    ensures
        all_read(all_message_jsons(p, columns, rows)) == all_transitions(p, columns, rows),
    decreases rows.len(),
{
    if rows.len() > 0 {
        law_all_messages_read_back(p, columns, rows.drop_last());
        let t = transitions(p, columns, rows.last());
        let last = message_jsons(p, columns, rows.last());
        assert forall|i: int| 0 <= i < t.len() implies #[trigger] read_message(last[i]) == Some(t[i]) by {
            law_messages_read_back(rows.last(), t[i]);
        }
        assert(all_read(last) =~= t);
    }
    assert(all_read(all_message_jsons(p, columns, rows)) =~= all_transitions(p, columns, rows));
}

/// A message says which change it is of: it carries the position of the change and its batch, so
/// that a reader can put together what was written together.
pub proof fn law_messages_say_their_change(row: LogRowView, m: MessageView)
    ensures
        json::field(message_json(row, m), "offset"@) == Some(JsonView::Number(number::integer(row.seq))),
        json::field(message_json(row, m), "batch_id"@) == Some(JsonView::Text(row.batch_id)),
{
    reveal_strlit("type");
    reveal_strlit("batch_id");
    reveal_strlit("key");
    reveal_strlit("offset");
    reveal_strlit("value");
    let (t, b, k, o, v) = ("type"@, "batch_id"@, "key"@, "offset"@, "value"@);
    assert(t[0] == 't' && b[0] == 'b' && k[0] == 'k' && o[0] == 'o' && v[0] == 'v');
    let (kind, key) = match m {
        MessageView::Insert { key, .. } => ("insert"@, key),
        MessageView::Update { key, .. } => ("update"@, key),
        MessageView::Delete { key } => ("delete"@, key),
    };
    let e1 = json::put(shape::no_entries(), t, JsonView::Text(kind));
    let e2 = json::put(e1, b, JsonView::Text(row.batch_id));
    let e3 = json::put(e2, k, key);
    let offset = JsonView::Number(number::integer(row.seq));
    let e4 = json::put(e3, o, offset);
    json::lemma_lookups_after_put(shape::no_entries(), t, JsonView::Text(kind));
    json::lemma_lookups_after_put(e1, b, JsonView::Text(row.batch_id));
    json::lemma_lookups_after_put(e2, k, key);
    json::lemma_lookups_after_put(e3, o, offset);
    match m {
        MessageView::Insert { value, .. } => json::lemma_lookups_after_put(e4, v, value),
        MessageView::Update { value, .. } => json::lemma_lookups_after_put(e4, v, value),
        MessageView::Delete { .. } => {},
    }
}

/// The messages of a change are those of the change alone, each of them with its position and its
/// batch.
pub proof fn law_change_messages_say_their_change(p: PredicateView, columns: Seq<Seq<char>>, row: LogRowView, i: int)
    requires
        0 <= i < message_jsons(p, columns, row).len(),
    ensures
        message_jsons(p, columns, row).len() <= 2,
        json::field(message_jsons(p, columns, row)[i], "offset"@) == Some(
            JsonView::Number(number::integer(row.seq)),
        ),
        json::field(message_jsons(p, columns, row)[i], "batch_id"@) == Some(JsonView::Text(row.batch_id)),
{
    law_messages_say_their_change(row, transitions(p, columns, row)[i]);
}

} // verus!

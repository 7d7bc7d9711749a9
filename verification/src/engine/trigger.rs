//! What the triggers of a table mean: which change fires them, and what they write to the log.
use vstd::prelude::*;
use crate::engine::log;
use crate::engine::log::LogRowView;
use crate::engine::schema;
use crate::json;
use crate::json::JsonView;
use crate::sql;
use crate::sqlite;
use crate::text;

verus! {

/// A kind of change.
pub enum Change {
    Insert,
    Update,
    Delete,
}

/// What a trigger writes to a column of the log that holds JSON: nothing, or an object of some
/// columns of the row before or after the change.
pub enum Written {
    Nothing,
    OfOld(Seq<Seq<char>>),
    OfNew(Seq<Seq<char>>),
}

/// The batch that a trigger writes to the log: none, the one that is open or one of its own where
/// none is open, or one of its own for every change.
pub enum Batch {
    Unlogged,
    OpenOrOwn,
    Own,
}

/// A trigger: its name, whether it is created only where it is missing, the change of a table that
/// fires it, and what it writes to each column of the log.
pub struct Trigger {
    pub name: Seq<char>,
    pub if_missing: bool,
    pub change: Change,
    pub table: Seq<char>,
    pub batch: Batch,
    pub op: Seq<char>,
    pub pk: Written,
    pub old_pk: Written,
    pub new_pk: Written,
    pub old_row: Written,
    pub new_row: Written,
}

/// The columns of a row as they are written, each behind its name as a text.
pub open spec fn columns_text(row: Seq<char>, columns: Seq<Seq<char>>) -> Seq<char>
    decreases columns.len(),
{
    if columns.len() == 0 {
        Seq::empty()
    } else {
        let last = sql::literal(columns.last()) + ", "@ + row + sql::ident(columns.last());
        if columns.len() == 1 {
            last
        } else {
            columns_text(row, columns.drop_last()) + ", "@ + last
        }
    }
}

/// What a trigger writes to a column of the log, as it is written.
pub open spec fn value_text(w: Written) -> Seq<char> {
    match w {
        Written::Nothing => "NULL"@,
        Written::OfOld(columns) => "json_object("@ + columns_text("OLD."@, columns) + ")"@,
        Written::OfNew(columns) => "json_object("@ + columns_text("NEW."@, columns) + ")"@,
    }
}

/// The word for a kind of change.
pub open spec fn change_word(c: Change) -> Seq<char> {
    match c {
        Change::Insert => "INSERT"@,
        Change::Update => "UPDATE"@,
        Change::Delete => "DELETE"@,
    }
}

/// The batch as it is written.
pub open spec fn batch_text(b: Batch) -> Seq<char> {
    match b {
        Batch::Unlogged => Seq::empty(),
        Batch::OpenOrOwn =>
            "COALESCE((SELECT value FROM _electrolite_meta WHERE key = 'current_batch_id'), lower(hex(randomblob(16))))"@,
        Batch::Own => "lower(hex(randomblob(16)))"@,
    }
}

/// A trigger as it is written.
pub open spec fn trigger_text(t: Trigger) -> Seq<char> {
    let head = if t.if_missing {
        "CREATE TRIGGER IF NOT EXISTS "@
    } else {
        "CREATE TRIGGER "@
    };
    let insert = match t.batch {
        Batch::Unlogged =>
            " BEGIN INSERT INTO _electrolite_log (table_name, op, pk_json, old_pk_json, new_pk_json, old_json, new_json) VALUES ("@,
        _ =>
            " BEGIN INSERT INTO _electrolite_log (batch_id, table_name, op, pk_json, old_pk_json, new_pk_json, old_json, new_json) VALUES ("@
            + batch_text(t.batch) + ", "@,
    };
    let values = sql::literal(t.op) + ", "@ + value_text(t.pk) + ", "@ + value_text(t.old_pk) + ", "@ + value_text(
        t.new_pk,
    ) + ", "@ + value_text(t.old_row) + ", "@ + value_text(t.new_row);
    head + sql::ident(t.name) + " AFTER "@ + change_word(t.change) + " ON "@ + sql::ident(t.table) + insert
        + sql::literal(t.table) + ", "@ + values + "); END; "@
}

/// What a column of the log holds once a trigger has fired.
pub open spec fn logged_as(w: Written, old: JsonView, new: JsonView) -> Option<JsonView> {
    match w {
        Written::Nothing => None,
        Written::OfOld(columns) => Some(json::projected(old, columns)),
        Written::OfNew(columns) => Some(json::projected(new, columns)),
    }
}

/// The change that a trigger logs: `open` is the batch that is open, where there is one, and `fresh`
/// an identity of its own.
pub open spec fn fired(
    t: Trigger,
    seq: i64,
    open: Option<Seq<char>>,
    fresh: Seq<char>,
    old: JsonView,
    new: JsonView,
) -> LogRowView {
    LogRowView {
        seq,
        batch_id: match (t.batch, open) {
            (Batch::OpenOrOwn, Some(id)) => id,
            _ => fresh,
        },
        op: t.op,
        pk: logged_as(t.pk, old, new)->0,
        old_pk: logged_as(t.old_pk, old, new),
        new_pk: logged_as(t.new_pk, old, new),
        old_row: logged_as(t.old_row, old, new),
        new_row: logged_as(t.new_row, old, new),
    }
}

/// The trigger of a table for a kind of change: it logs the batch, the kind, and the key and the row
/// before and after the change, as far as there are any.
pub open spec fn trigger_for(
    change: Change,
    table: Seq<char>,
    columns: Seq<Seq<char>>,
    pk: Seq<Seq<char>>,
) -> Trigger {
    let suffix = match change {
        Change::Insert => "_ai"@,
        Change::Update => "_au"@,
        Change::Delete => "_ad"@,
    };
    Trigger {
        name: "_electrolite_"@ + table + suffix,
        if_missing: false,
        change,
        table,
        batch: Batch::OpenOrOwn,
        op: match change {
            Change::Insert => "insert"@,
            Change::Update => "update"@,
            Change::Delete => "delete"@,
        },
        pk: if change is Delete {
            Written::OfOld(pk)
        } else {
            Written::OfNew(pk)
        },
        old_pk: if change is Insert {
            Written::Nothing
        } else {
            Written::OfOld(pk)
        },
        new_pk: if change is Delete {
            Written::Nothing
        } else {
            Written::OfNew(pk)
        },
        old_row: if change is Insert {
            Written::Nothing
        } else {
            Written::OfOld(columns)
        },
        new_row: if change is Delete {
            Written::Nothing
        } else {
            Written::OfNew(columns)
        },
    }
}

proof fn lemma_columns_text(row: Seq<char>, columns: Seq<Seq<char>>)
    ensures
        "json_object("@ + columns_text(row, columns) + ")"@ == sql::row_object(row, columns),
        columns_text(row, columns) == text::joined(sql::column_pairs(row, columns), ", "@),
    decreases columns.len(),
{
    let pairs = sql::column_pairs(row, columns);
    if columns.len() > 0 {
        assert(pairs.last() == sql::column_pair(row, columns.last()));
        if columns.len() > 1 {
            lemma_columns_text(row, columns.drop_last());
            assert(pairs.drop_last() =~= sql::column_pairs(row, columns.drop_last()));
        }
    }
}

/// The script that watches a table drops the triggers that were there and creates one for each kind
/// of change: each of them a trigger as it is written, with the open batch where there is one.
pub proof fn law_script_is_three_triggers(table: Seq<char>, columns: Seq<Seq<char>>, pk: Seq<Seq<char>>)
    ensures
        ({
            let insert = trigger_for(Change::Insert, table, columns, pk);
            let update = trigger_for(Change::Update, table, columns, pk);
            let delete = trigger_for(Change::Delete, table, columns, pk);
            schema::trigger_script(table, columns, pk) == ("DROP TRIGGER IF EXISTS "@ + sql::ident(insert.name)
                + "; "@) + ("DROP TRIGGER IF EXISTS "@ + sql::ident(update.name) + "; "@) + (
            "DROP TRIGGER IF EXISTS "@ + sql::ident(delete.name) + "; "@) + trigger_text(insert) + trigger_text(
                update,
            ) + trigger_text(delete)
        }),
{
    lemma_columns_text("NEW."@, columns);
    lemma_columns_text("OLD."@, columns);
    lemma_columns_text("NEW."@, pk);
    lemma_columns_text("OLD."@, pk);
    lemma_created(Change::Insert, table, columns, pk);
    lemma_created(Change::Update, table, columns, pk);
    lemma_created(Change::Delete, table, columns, pk);
}

proof fn lemma_created(change: Change, table: Seq<char>, columns: Seq<Seq<char>>, pk: Seq<Seq<char>>)
    ensures
        ({
            let t = trigger_for(change, table, columns, pk);
            let values = schema::logged(
                t.op,
                value_text(t.pk),
                value_text(t.old_pk),
                value_text(t.new_pk),
                value_text(t.old_row),
                value_text(t.new_row),
            );
            let suffix = match change {
                Change::Insert => "_ai"@,
                Change::Update => "_au"@,
                Change::Delete => "_ad"@,
            };
            trigger_text(t) == schema::create_trigger(table, suffix, change_word(change), values)
        }),
{
    let t = trigger_for(change, table, columns, pk);
    let suffix = match change {
        Change::Insert => "_ai"@,
        Change::Update => "_au"@,
        Change::Delete => "_ad"@,
    };
    let values = schema::logged(
        t.op,
        value_text(t.pk),
        value_text(t.old_pk),
        value_text(t.new_pk),
        value_text(t.old_row),
        value_text(t.new_row),
    );
    let head = "CREATE TRIGGER "@ + sql::ident(t.name) + " AFTER "@ + change_word(change) + " ON "@ + sql::ident(table);
    let insert = " BEGIN INSERT INTO _electrolite_log (batch_id, table_name, op, pk_json, old_pk_json, new_pk_json, old_json, new_json) VALUES ("@;
    let batch = "COALESCE((SELECT value FROM _electrolite_meta WHERE key = 'current_batch_id'), lower(hex(randomblob(16))))"@;
    lemma_middle(head, insert, batch, ", "@);
}

proof fn lemma_middle(a: Seq<char>, b: Seq<char>, c: Seq<char>, d: Seq<char>)
    ensures
        a + (b + c + d) == a + b + c + d,
{
    assert(a + (b + c + d) =~= a + b + c + d);
}

/// Whether a value is a row of a table with some columns: an object that has no other.
pub open spec fn is_row_of(columns: Seq<Seq<char>>, row: JsonView) -> bool {
    json::projected(row, columns) == row
}

/// The triggers record every change: what the trigger for a change writes to the log is the change
/// of the table that fired it, whether it inserts a row, changes one, also its key, or deletes one.
pub proof fn law_triggers_record_changes(
    table: Seq<char>,
    columns: Seq<Seq<char>>,
    pk: Seq<Seq<char>>,
    seq: i64,
    open: Option<Seq<char>>,
    fresh: Seq<char>,
    before: Map<JsonView, JsonView>,
    old: JsonView,
    new: JsonView,
)
    requires
        is_row_of(columns, old),
        is_row_of(columns, new),
    ensures
        ({
            let from = json::projected(old, pk);
            let to = json::projected(new, pk);
            let held = before.contains_key(from) && before[from] == old;
            let insert = fired(trigger_for(Change::Insert, table, columns, pk), seq, open, fresh, old, new);
            let update = fired(trigger_for(Change::Update, table, columns, pk), seq, open, fresh, old, new);
            let delete = fired(trigger_for(Change::Delete, table, columns, pk), seq, open, fresh, old, new);
            &&& !before.contains_key(to) ==> log::records(before, insert, before.insert(to, new))
            &&& held && (from == to || !before.contains_key(to)) ==> log::records(
                before,
                update,
                before.remove(from).insert(to, new),
            )
            &&& held ==> log::records(before, delete, before.remove(from))
            &&& log::new_key(insert) == to
            &&& log::old_key(update) == from && log::new_key(update) == to
            &&& log::old_key(delete) == from
            &&& insert.seq == seq && update.seq == seq && delete.seq == seq
            &&& insert.op == "insert"@ && update.op == "update"@ && delete.op == "delete"@
        }),
{
}

/// What a writer does: it opens a batch, changes a row of a watched table, or ends the batch.
pub enum Step {
    Open(Seq<char>),
    Write { change: Change, fresh: Seq<char>, old: JsonView, new: JsonView },
    End,
}

/// The batch that is open after some steps.
pub open spec fn open_after(steps: Seq<Step>) -> Option<Seq<char>>
    decreases steps.len(),
{
    if steps.len() == 0 {
        None
    } else {
        match steps.last() {
            Step::Open(id) => Some(id),
            Step::End => None,
            Step::Write { .. } => open_after(steps.drop_last()),
        }
    }
}

/// What a step at some place of a writer's steps logs, where it changes a row.
pub open spec fn logged_at(
    table: Seq<char>,
    columns: Seq<Seq<char>>,
    pk: Seq<Seq<char>>,
    steps: Seq<Step>,
    i: int,
    seq: i64,
) -> Option<LogRowView> {
    match steps[i] {
        Step::Write { change, fresh, old, new } => Some(
            fired(trigger_for(change, table, columns, pk), seq, open_after(steps.take(i)), fresh, old, new),
        ),
        _ => None,
    }
}

/// A batch keeps its changes together: between opening a batch and ending it every change is logged
/// under the identity of the batch, whatever its kind. A change outside of a batch has one of its
/// own.
pub proof fn law_batches_share_one_identity(
    table: Seq<char>,
    columns: Seq<Seq<char>>,
    pk: Seq<Seq<char>>,
    steps: Seq<Step>,
    start: int,
    i: int,
    seq: i64,
)
    requires
        0 <= start < i < steps.len(),
        forall|j: int| start < j <= i ==> (#[trigger] steps[j]) is Write,
    ensures
        steps[start] matches Step::Open(id) ==> {
            &&& logged_at(table, columns, pk, steps, i, seq) matches Some(row)
            &&& row.batch_id == id
        },
        steps[start] is End ==> {
            &&& logged_at(table, columns, pk, steps, i, seq) matches Some(row)
            &&& steps[i] matches Step::Write { fresh, .. }
            &&& row.batch_id == fresh
        },
{
    assert(steps[i] is Write);
    if !(steps[start] is Write) {
        lemma_open_since(steps, start, i);
    }
}

proof fn lemma_open_since(steps: Seq<Step>, start: int, i: int)
    requires
        0 <= start < i <= steps.len(),
        forall|j: int| start < j < i ==> (#[trigger] steps[j]) is Write,
        steps[start] is Open || steps[start] is End,
    ensures
        open_after(steps.take(i)) == (match steps[start] {
            Step::Open(id) => Some(id),
            _ => None,
        }),
    decreases i - start,
{
    let front = steps.take(i);
    assert(front.last() == steps[i - 1]);
    assert(front.drop_last() =~= steps.take(i - 1));
    if i - 1 > start {
        lemma_open_since(steps, start, i - 1);
        assert(steps[i - 1] is Write);
    }
}

/// The trigger of a table with one key column for a kind of change, in the log of all tables.
pub open spec fn plain_trigger_for(change: Change, w: sqlite::WatchedView) -> Trigger {
    let t = trigger_for(change, w.table, w.columns, seq![w.pk_column]);
    let suffix = match change {
        Change::Insert => "_ai"@,
        Change::Update => "_au"@,
        Change::Delete => "_ad"@,
    };
    Trigger { name: sqlite::prefix_text(w.table) + suffix, if_missing: true, batch: Batch::Unlogged, ..t }
}

/// The script that watches a table in the log of all tables creates a trigger for each kind of
/// change, each of them a trigger as it is written, which writes what the engine's trigger for the
/// change writes but the batch.
pub proof fn law_plain_script_is_three_triggers(w: sqlite::WatchedView)
    ensures
        sqlite::trigger_script(w) == trigger_text(plain_trigger_for(Change::Insert, w)) + trigger_text(
            plain_trigger_for(Change::Update, w),
        ) + trigger_text(plain_trigger_for(Change::Delete, w)),
{
    let key = seq![w.pk_column];
    reveal_strlit("NEW.");
    reveal_strlit("OLD.");
    reveal_strlit("NEW");
    reveal_strlit("OLD");
    reveal_strlit(".");
    assert("NEW"@ + "."@ =~= "NEW."@);
    assert("OLD"@ + "."@ =~= "OLD."@);
    lemma_columns_text("NEW."@, w.columns);
    lemma_columns_text("OLD."@, w.columns);
    lemma_columns_text("NEW."@, key);
    lemma_columns_text("OLD."@, key);
}

} // verus!

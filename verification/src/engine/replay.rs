//! Replays: the messages of the changes since a position in the log, page by page.
use vstd::prelude::*;
use crate::engine::error::{Error, ErrorView};
use crate::engine::log;
use crate::engine::log::{LogRow, LogRowView};
use crate::engine::shape;
use crate::engine::snapshot::{Described, DescribedView};
use crate::json;
use crate::json::{Json, JsonObject, JsonView};
use crate::number;
use crate::text;

verus! {

/// The messages since a position in the log, up to a later one.
#[derive(Debug)]
pub struct Replay {
    pub log_id: String,
    pub shape_handle: String,
    pub messages: Vec<Json>,
    pub offset: i64,
    pub up_to_date: bool,
}

/// The model of a replay.
pub struct ReplayView {
    pub log_id: Seq<char>,
    pub shape_handle: Seq<char>,
    pub messages: Seq<JsonView>,
    pub offset: i64,
    pub up_to_date: bool,
}

impl View for Replay {
    type V = ReplayView;

    open spec fn view(&self) -> ReplayView {
        ReplayView {
            log_id: self.log_id@,
            shape_handle: self.shape_handle@,
            messages: json::views(self.messages@),
            offset: self.offset,
            up_to_date: self.up_to_date,
        }
    }
}

/// The key under which the position that a table is retained from is stored.
pub open spec fn retained_key_text(table: Seq<char>) -> Seq<char> {
    "retained_offset:"@ + table
}

/// The position that a table is retained from, by what is stored: zero where nothing is, or no
/// number.
pub open spec fn retained(stored: Option<Seq<char>>) -> i64 {
    match stored {
        Some(s) => match text::parsed_i64(s) {
            Some(n) => n,
            None => 0,
        },
        None => 0,
    }
}

/// The model of a text that may be missing.
pub open spec fn option_text(s: Option<&str>) -> Option<Seq<char>> {
    match s {
        Some(s) => Some(s@),
        None => None,
    }
}

/// How many changes a page asks for: at least one.
pub open spec fn page_size(limit: i64) -> i64 {
    if limit < 1 {
        1
    } else {
        limit
    }
}

/// How many more changes a page may take to finish its last batch: ten times its size, as far as
/// that can be written.
pub open spec fn extra_size(limit: i64) -> i64 {
    if 10 * page_size(limit) > i64::MAX {
        i64::MAX
    } else {
        (10 * page_size(limit)) as i64
    }
}

/// The position behind some changes.
pub open spec fn latest(rows: Seq<LogRowView>, offset: i64) -> i64 {
    if rows.len() == 0 {
        offset
    } else {
        rows.last().seq
    }
}

/// The replay of some changes.
pub open spec fn replayed(
    d: DescribedView,
    offset: i64,
    rows: Seq<LogRowView>,
    newer: bool,
    log_id: Seq<char>,
) -> ReplayView {
    ReplayView {
        log_id,
        shape_handle: d.shape_handle,
        messages: log::all_message_jsons(d.predicate, d.columns, rows),
        offset: latest(rows, offset),
        up_to_date: !newer,
    }
}

/// The key under which the position that a table is retained from is stored.
pub fn retained_key(table: &str) -> (r: String)
    ensures
        r@ == retained_key_text(table@),
{
    let mut out = "retained_offset:".to_string();
    out.append(table);
    out
}

/// The position that a table is retained from, by what is stored.
pub fn retained_offset(stored: Option<&str>) -> (r: i64)
    ensures
        r == retained(option_text(stored)),
{
    match stored {
        Some(s) => match text::parse_i64(s) {
            Some(n) => n,
            None => 0,
        },
        None => 0,
    }
}

/// Refuses a position whose changes are gone.
pub fn begin_replay(offset: i64, retained: i64) -> (r: Result<(), Error>)
    ensures
        r is Err <==> offset < retained,
        r matches Err(e) ==> e@ == ErrorView::ResyncRequired,
{
    if offset < retained {
        Err(Error::ResyncRequired)
    } else {
        Ok(())
    }
}

/// How many changes a page asks for.
pub fn page_limit(limit: i64) -> (r: i64)
    ensures
        r == page_size(limit),
{
    if limit < 1 {
        1
    } else {
        limit
    }
}

/// How many more changes a page may take to finish its last batch.
pub fn batch_cap(limit: i64) -> (r: i64)
    ensures
        r == extra_size(limit),
{
    let size: i64 = page_limit(limit);
    if size > i64::MAX / 10 {
        i64::MAX
    } else {
        10 * size
    }
}

/// The position and the batch of the last change of a page, whose batch may go on behind it.
pub fn open_batch(page: &Vec<LogRow>) -> (r: Option<(i64, &String)>)
    ensures
        r is None <==> page@.len() == 0,
        r matches Some(b) ==> b.0 == log::log_views(page@).last().seq && b.1@ == log::log_views(page@).last().batch_id,
{
    let n: usize = page.len();
    if n == 0 {
        None
    } else {
        assert(log::log_views(page@).last() == page@[n - 1]@);
        Some((page[n - 1].seq, &page[n - 1].batch_id))
    }
}

/// The position behind some changes.
pub fn latest_offset(rows: &Vec<LogRow>, offset: i64) -> (r: i64)
    ensures
        r == latest(log::log_views(rows@), offset),
{
    let n: usize = rows.len();
    if n == 0 {
        offset
    } else {
        assert(log::log_views(rows@).last() == rows@[n - 1]@);
        rows[n - 1].seq
    }
}

/// The replay of the changes that the database read: a page and the rest of its last batch.
pub fn replay(
    described: &Described,
    offset: i64,
    rows: &Vec<LogRow>,
    newer: bool,
    log_id: String,
) -> (r: Replay)
    ensures
        r@ == replayed(described@, offset, log::log_views(rows@), newer, log_id@),
{
    let messages = log::messages_for_all(&described.predicate, &described.columns, rows);
    Replay {
        log_id,
        shape_handle: described.shape_handle.clone(),
        messages,
        offset: latest_offset(rows, offset),
        up_to_date: !newer,
    }
}

/// The body of a replay response.
pub open spec fn replay_body(r: ReplayView) -> JsonView {
    JsonView::Object(replay_entries(r))
}

/// The entries of the body of a replay response.
pub open spec fn replay_entries(r: ReplayView) -> Seq<(Seq<char>, JsonView)> {
    json::put(
        json::put(
            json::put(
                json::put(
                    json::put(
                        json::put(shape::no_entries(), "type"@, JsonView::Text("replay"@)),
                        "log_id"@,
                        JsonView::Text(r.log_id),
                    ),
                    "shape_handle"@,
                    JsonView::Text(r.shape_handle),
                ),
                "messages"@,
                JsonView::Array(r.messages),
            ),
            "offset"@,
            JsonView::Number(number::integer(r.offset)),
        ),
        "up_to_date"@,
        JsonView::Bool(r.up_to_date),
    )
}

/// The body of a replay response that ends a wait because the engine shuts down.
pub open spec fn farewell_body(r: ReplayView) -> JsonView {
    JsonView::Object(json::put(replay_entries(r), "shutdown"@, JsonView::Bool(true)))
}

fn replay_object(r: &Replay) -> (o: JsonObject)
    ensures
        o@ == replay_entries(r@),
{
    let mut o = JsonObject::new();
    o.insert("type".to_string(), Json::text("replay"));
    o.insert("log_id".to_string(), Json::text(r.log_id.as_str()));
    o.insert("shape_handle".to_string(), Json::text(r.shape_handle.as_str()));
    let messages = json::copy_list(&r.messages);
    proof {
        json::lemma_array_view(messages);
    }
    o.insert("messages".to_string(), Json::Array(messages));
    o.insert("offset".to_string(), Json::integer(r.offset));
    o.insert("up_to_date".to_string(), Json::Bool(r.up_to_date));
    o
}

/// The body of a replay response.
pub fn replay_to_json(r: &Replay) -> (b: Json)
    ensures
        b@ == replay_body(r@),
{
    Json::Object(replay_object(r))
}

/// The body of a replay response that ends a wait because the engine shuts down.
pub fn farewell_to_json(r: &Replay) -> (b: Json)
    ensures
        b@ == farewell_body(r@),
{
    let mut o = replay_object(r);
    o.insert("shutdown".to_string(), Json::Bool(true));
    Json::Object(o)
}

/// Whether the changes of a log stand in the order of their positions.
pub open spec fn ascending(log: Seq<LogRowView>) -> bool {
    forall|i: int, j: int| 0 <= i < j < log.len() ==> (#[trigger] log[i]).seq < (#[trigger] log[j]).seq
}

/// Whether the changes of each batch stand side by side.
pub open spec fn batches_together(log: Seq<LogRowView>) -> bool {
    forall|i: int, j: int, k: int|
        0 <= i < j < k < log.len() && (#[trigger] log[i]).batch_id == (#[trigger] log[k]).batch_id ==> (
        #[trigger] log[j]).batch_id == log[i].batch_id
}

/// How many changes stand at or before a position.
pub open spec fn passed(log: Seq<LogRowView>, offset: i64) -> nat
    decreases log.len(),
{
    if log.len() == 0 {
        0
    } else if log.last().seq <= offset {
        log.len()
    } else {
        passed(log.drop_last(), offset)
    }
}

/// The changes behind a position.
pub open spec fn later(log: Seq<LogRowView>, offset: i64) -> Seq<LogRowView> {
    log.skip(passed(log, offset) as int)
}

/// The first changes of a list.
pub open spec fn first(rows: Seq<LogRowView>, n: i64) -> Seq<LogRowView> {
    if n < rows.len() {
        rows.take(n as int)
    } else {
        rows
    }
}

/// The changes of one batch.
pub open spec fn of_batch(rows: Seq<LogRowView>, batch_id: Seq<char>) -> Seq<LogRowView>
    decreases rows.len(),
{
    if rows.len() == 0 {
        Seq::empty()
    } else if rows.last().batch_id == batch_id {
        of_batch(rows.drop_last(), batch_id).push(rows.last())
    } else {
        of_batch(rows.drop_last(), batch_id)
    }
}

/// The page of a log behind a position.
pub open spec fn page(log: Seq<LogRowView>, offset: i64, limit: i64) -> Seq<LogRowView> {
    first(later(log, offset), page_size(limit))
}

/// The changes behind a page that belong to its last batch, as many as a page may take.
pub open spec fn extension(log: Seq<LogRowView>, page: Seq<LogRowView>, limit: i64) -> Seq<LogRowView> {
    if page.len() == 0 {
        Seq::empty()
    } else {
        first(of_batch(later(log, page.last().seq), page.last().batch_id), extra_size(limit))
    }
}

/// The changes that a replay of a log behind a position is made of.
pub open spec fn answered(log: Seq<LogRowView>, offset: i64, limit: i64) -> Seq<LogRowView> {
    page(log, offset, limit) + extension(log, page(log, offset, limit), limit)
}

/// Whether a log holds changes behind a position.
pub open spec fn has_later(log: Seq<LogRowView>, offset: i64) -> bool {
    later(log, offset).len() > 0
}

/// The replay of a log behind a position.
pub open spec fn replay_of(
    d: DescribedView,
    log: Seq<LogRowView>,
    offset: i64,
    limit: i64,
    log_id: Seq<char>,
) -> ReplayView {
    let rows = answered(log, offset, limit);
    replayed(d, offset, rows, has_later(log, latest(rows, offset)), log_id)
}

/// The body of a replay response names the shape by its handle.
pub proof fn lemma_body_has_handle(r: ReplayView)
    ensures
        json::keys_increasing(replay_entries(r)),
        json::field(replay_body(r), "shape_handle"@) == Some(JsonView::Text(r.shape_handle)),
{
    reveal_strlit("type");
    reveal_strlit("log_id");
    reveal_strlit("shape_handle");
    reveal_strlit("messages");
    reveal_strlit("offset");
    reveal_strlit("up_to_date");
    let h = "shape_handle"@;
    assert(h[0] == 's' && "messages"@[0] == 'm' && "offset"@[0] == 'o' && "up_to_date"@[0] == 'u');
    assert("type"@[0] == 't' && "log_id"@[0] == 'l');
    let kind = JsonView::Text("replay"@);
    let log_id = JsonView::Text(r.log_id);
    let handle = JsonView::Text(r.shape_handle);
    let messages = JsonView::Array(r.messages);
    let offset = JsonView::Number(number::integer(r.offset));
    let up_to_date = JsonView::Bool(r.up_to_date);
    let e1 = json::put(shape::no_entries(), "type"@, kind);
    let e2 = json::put(e1, "log_id"@, log_id);
    let e3 = json::put(e2, h, handle);
    let e4 = json::put(e3, "messages"@, messages);
    let e5 = json::put(e4, "offset"@, offset);
    json::law_put_then_lookup(shape::no_entries(), "type"@, kind, h);
    json::law_put_then_lookup(e1, "log_id"@, log_id, h);
    json::law_put_then_lookup(e2, h, handle, "type"@);
    json::law_put_then_lookup(e3, "messages"@, messages, h);
    json::law_put_then_lookup(e4, "offset"@, offset, h);
    json::law_put_then_lookup(e5, "up_to_date"@, up_to_date, h);
}

/// The body that ends a wait because the engine shuts down says so.
pub proof fn lemma_farewell_says_so(r: ReplayView)
    ensures
        json::field(farewell_body(r), "shutdown"@) == Some(JsonView::Bool(true)),
{
    lemma_body_has_handle(r);
    reveal_strlit("shutdown");
    assert("shutdown"@ != Seq::<char>::empty()) by {
        assert("shutdown"@.len() == 8);
    }
    json::law_put_then_lookup(replay_entries(r), "shutdown"@, JsonView::Bool(true), Seq::empty());
}

/// In a log in order, the changes at or before a position stand in front.
pub proof fn lemma_passed(log: Seq<LogRowView>, offset: i64)
    requires
        ascending(log),
    ensures
        passed(log, offset) <= log.len(),
        forall|i: int| 0 <= i < log.len() ==> ((#[trigger] log[i]).seq <= offset <==> i < passed(log, offset)),
    decreases log.len(),
{
    if log.len() > 0 {
        let front = log.drop_last();
        assert forall|i: int, j: int| 0 <= i < j < front.len() implies (#[trigger] front[i]).seq < (
        #[trigger] front[j]).seq by {
            assert(log[i].seq < log[j].seq);
        }
        lemma_passed(front, offset);
        assert forall|i: int| 0 <= i < log.len() implies ((#[trigger] log[i]).seq <= offset <==> i < passed(
            log,
            offset,
        )) by {
            if i < front.len() {
                assert(front[i] == log[i]);
                assert(log[i].seq < log[log.len() - 1].seq);
            }
        }
    }
}

/// Behind the last of the first `n` changes behind a position stand the others.
proof fn lemma_later_of_later(log: Seq<LogRowView>, offset: i64, n: int)
    requires
        ascending(log),
        0 < n <= later(log, offset).len(),
    ensures
        later(log, later(log, offset)[n - 1].seq) == later(log, offset).skip(n),
        later(log, offset)[n - 1].seq > offset,
{
    let k = passed(log, offset) as int;
    let s = later(log, offset);
    let last = s[n - 1].seq;
    lemma_passed(log, offset);
    lemma_passed(log, last);
    assert(s[n - 1] == log[k + n - 1]);
    let m = passed(log, last) as int;
    assert(m == k + n) by {
        assert(k + n - 1 < m);
        if m > k + n {
            assert(log[k + n].seq <= last);
            assert(log[k + n - 1].seq < log[k + n].seq);
        }
    }
    assert(later(log, last) =~= s.skip(n));
}

/// How many changes at the front of a list belong to a batch, where no other comes back to it.
spec fn run(rows: Seq<LogRowView>, batch_id: Seq<char>) -> nat
    decreases rows.len(),
{
    if rows.len() == 0 {
        0
    } else if rows.last().batch_id == batch_id {
        rows.len()
    } else {
        run(rows.drop_last(), batch_id)
    }
}

proof fn lemma_of_batch_is_run(rows: Seq<LogRowView>, batch_id: Seq<char>)
    requires
        forall|j: int, k: int|
            0 <= j < k < rows.len() && (#[trigger] rows[k]).batch_id == batch_id ==> (#[trigger] rows[j]).batch_id
                == batch_id,
    ensures
        run(rows, batch_id) <= rows.len(),
        of_batch(rows, batch_id) == rows.take(run(rows, batch_id) as int),
        run(rows, batch_id) < rows.len() ==> rows[run(rows, batch_id) as int].batch_id != batch_id,
    decreases rows.len(),
{
    if rows.len() == 0 {
        assert(of_batch(rows, batch_id) =~= rows.take(0));
    } else {
        let front = rows.drop_last();
        assert forall|j: int, k: int|
            0 <= j < k < front.len() && (#[trigger] front[k]).batch_id == batch_id implies (
        #[trigger] front[j]).batch_id == batch_id by {
            assert(front[k] == rows[k] && front[j] == rows[j]);
        }
        lemma_of_batch_is_run(front, batch_id);
        if rows.last().batch_id == batch_id {
            let last = rows.len() - 1;
            assert(rows[last].batch_id == batch_id);
            let r = run(front, batch_id) as int;
            if r < front.len() {
                assert(rows[r].batch_id == batch_id);
                assert(front[r] == rows[r]);
            }
            assert(front.take(front.len() as int).push(rows.last()) =~= rows.take(rows.len() as int));
        } else {
            assert(front.take(run(front, batch_id) as int) =~= rows.take(run(front, batch_id) as int));
            if run(front, batch_id) < front.len() {
                assert(front[run(front, batch_id) as int] == rows[run(front, batch_id) as int]);
            }
        }
    }
}

/// Where the batches of a log stand together, a replay takes the next changes without a gap: as
/// many as `answered` has, which is at least one where there is any, and at most a page and its
/// extension. It stops inside a batch only where the extension is exhausted.
proof fn lemma_answered_is_prefix(log: Seq<LogRowView>, offset: i64, limit: i64)
    requires
        ascending(log),
        batches_together(log),
    ensures
        answered(log, offset, limit) == later(log, offset).take(answered(log, offset, limit).len() as int),
        answered(log, offset, limit).len() <= later(log, offset).len(),
        later(log, offset).len() > 0 ==> answered(log, offset, limit).len() > 0,
        answered(log, offset, limit).len() <= page_size(limit) + extra_size(limit),
        0 < answered(log, offset, limit).len() < later(log, offset).len()
            && extension(log, page(log, offset, limit), limit).len() < extra_size(limit) ==> later(
            log,
            offset,
        )[answered(log, offset, limit).len() as int].batch_id != answered(log, offset, limit).last().batch_id,
{
    let s = later(log, offset);
    let p = page(log, offset, limit);
    let n = p.len() as int;
    assert(p == s.take(n));
    lemma_passed(log, offset);
    if n == 0 {
        assert(answered(log, offset, limit) =~= s.take(0));
    } else {
        lemma_later_of_later(log, offset, n);
        let rest = s.skip(n);
        let b = p.last().batch_id;
        assert(p.last() == s[n - 1]);
        let k0 = passed(log, offset) as int;
        assert forall|j: int, k: int| 0 <= j < k < rest.len() && (#[trigger] rest[k]).batch_id == b implies (
        #[trigger] rest[j]).batch_id == b by {
            assert(rest[k] == log[k0 + n + k]);
            assert(rest[j] == log[k0 + n + j]);
            assert(log[k0 + n - 1].batch_id == b);
        }
        lemma_of_batch_is_run(rest, b);
        let e = extension(log, p, limit);
        let m = e.len() as int;
        assert(e =~= rest.take(m));
        assert(p + e =~= s.take(n + m));
        if n + m < s.len() && m < extra_size(limit) {
            assert(m == run(rest, b));
            assert(rest[m] == s[n + m]);
            if m > 0 {
                assert(e.last() == rest[m - 1]);
                assert(of_batch(rest, b) == rest.take(m));
                lemma_of_batch_has_batch(rest, b, m - 1);
            }
            assert((p + e).last().batch_id == b);
        }
    }
}

proof fn lemma_of_batch_has_batch(rows: Seq<LogRowView>, batch_id: Seq<char>, i: int)
    requires
        0 <= i < of_batch(rows, batch_id).len(),
    ensures
        of_batch(rows, batch_id)[i].batch_id == batch_id,
    decreases rows.len(),
{
    if rows.last().batch_id == batch_id {
        if i < of_batch(rows.drop_last(), batch_id).len() {
            lemma_of_batch_has_batch(rows.drop_last(), batch_id, i);
        }
    } else {
        lemma_of_batch_has_batch(rows.drop_last(), batch_id, i);
    }
}

proof fn lemma_messages_concat(
    p: crate::engine::predicate::PredicateView,
    columns: Seq<Seq<char>>,
    a: Seq<LogRowView>,
    b: Seq<LogRowView>,
)
    ensures
        log::all_message_jsons(p, columns, a + b) == log::all_message_jsons(p, columns, a) + log::all_message_jsons(p, columns, b),
    decreases b.len(),
{
    if b.len() == 0 {
        assert(a + b =~= a);
        assert(log::all_message_jsons(p, columns, a) + log::all_message_jsons(p, columns, b) =~= log::all_message_jsons(p, columns, a));
    } else {
        assert((a + b).drop_last() =~= a + b.drop_last());
        lemma_messages_concat(p, columns, a, b.drop_last());
        assert(log::all_message_jsons(p, columns, a + b) =~= log::all_message_jsons(p, columns, a) + log::all_message_jsons(p, columns, b));
    }
}

/// Replays leave nothing out and repeat nothing: the messages of one replay, followed by those of
/// all changes behind the position that it leads to, are the messages of all changes behind the
/// position that it started from.
pub proof fn law_replays_follow_without_gap(
    d: DescribedView,
    log: Seq<LogRowView>,
    offset: i64,
    limit: i64,
    log_id: Seq<char>,
)
    requires
        ascending(log),
        batches_together(log),
    ensures
        ({
            let r = replay_of(d, log, offset, limit, log_id);
            r.messages + log::all_message_jsons(d.predicate, d.columns, later(log, r.offset)) == log::all_message_jsons(
                d.predicate,
                d.columns,
                later(log, offset),
            )
        }),
{
    let s = later(log, offset);
    let rows = answered(log, offset, limit);
    lemma_answered_is_prefix(log, offset, limit);
    let n = rows.len() as int;
    if n > 0 {
        lemma_later_of_later(log, offset, n);
        assert(rows.last() == s[n - 1]);
    } else {
        assert(s.len() == 0);
        assert(s.skip(0) =~= s);
    }
    assert(rows + s.skip(n) =~= s);
    lemma_messages_concat(d.predicate, d.columns, rows, s.skip(n));
}

/// A replay goes forward wherever there is a change to replay, and stays where it is otherwise.
pub proof fn law_replays_go_forward(log: Seq<LogRowView>, offset: i64, limit: i64)
    requires
        ascending(log),
        batches_together(log),
    ensures
        has_later(log, offset) ==> latest(answered(log, offset, limit), offset) > offset,
        !has_later(log, offset) ==> latest(answered(log, offset, limit), offset) == offset,
{
    lemma_answered_is_prefix(log, offset, limit);
    let rows = answered(log, offset, limit);
    if rows.len() > 0 {
        lemma_later_of_later(log, offset, rows.len() as int);
        assert(rows.last() == later(log, offset)[rows.len() - 1]);
    }
}

/// A replay is up to date exactly where it has replayed every change behind the position that it
/// started from.
pub proof fn law_up_to_date_means_nothing_is_left(log: Seq<LogRowView>, offset: i64, limit: i64)
    requires
        ascending(log),
        batches_together(log),
    ensures
        !has_later(log, latest(answered(log, offset, limit), offset)) <==> answered(log, offset, limit) == later(
            log,
            offset,
        ),
{
    let s = later(log, offset);
    let rows = answered(log, offset, limit);
    lemma_answered_is_prefix(log, offset, limit);
    let n = rows.len() as int;
    if n > 0 {
        lemma_later_of_later(log, offset, n);
        assert(rows.last() == s[n - 1]);
        if s.skip(n).len() == 0 {
            assert(rows =~= s);
        }
    } else {
        assert(s.len() == 0);
        assert(rows =~= s);
    }
}

/// A replay ends inside a batch only where the batch goes on for more changes than a page may
/// take, and then it is not up to date.
pub proof fn law_batches_stay_whole(log: Seq<LogRowView>, offset: i64, limit: i64)
    requires
        ascending(log),
        batches_together(log),
        answered(log, offset, limit).len() > 0,
    ensures
        ({
            let rows = answered(log, offset, limit);
            let rest = later(log, rows.last().seq);
            rest.len() > 0 && rest[0].batch_id == rows.last().batch_id ==> {
                &&& extension(log, page(log, offset, limit), limit).len() == extra_size(limit)
                &&& has_later(log, latest(rows, offset))
            }
        }),
        answered(log, offset, limit).len() <= page_size(limit) + extra_size(limit),
{
    lemma_answered_is_prefix(log, offset, limit);
    let rows = answered(log, offset, limit);
    let s = later(log, offset);
    let n = rows.len() as int;
    lemma_later_of_later(log, offset, n);
    assert(rows.last() == s[n - 1]);
    assert(extension(log, page(log, offset, limit), limit).len() <= extra_size(limit));
    if n < s.len() {
        assert(s.skip(n)[0] == s[n]);
    }
}

/// Columns are an allowlist: the value of every message of a replay has no column that the shape
/// lacks.
pub proof fn law_replays_stay_within_columns(
    d: DescribedView,
    offset: i64,
    rows: Seq<LogRowView>,
    newer: bool,
    log_id: Seq<char>,
    i: int,
    column: Seq<char>,
)
    requires
        0 <= i < replayed(d, offset, rows, newer, log_id).messages.len(),
    ensures
        ({
            let m = replayed(d, offset, rows, newer, log_id).messages[i];
            json::field(m, "value"@) matches Some(value) ==> {
                json::field(value, column) is Some ==> d.columns.contains(column)
            }
        }),
    decreases rows.len(),
{
    let front = rows.drop_last();
    let before = log::all_message_jsons(d.predicate, d.columns, front);
    if i < before.len() {
        law_replays_stay_within_columns(d, offset, front, newer, log_id, i, column);
    } else {
        let t = log::transitions(d.predicate, d.columns, rows.last());
        let k = i - before.len();
        log::law_messages_read_back(rows.last(), t[k]);
        log::law_messages_stay_within_columns(d.predicate, d.columns, rows.last(), k, column);
    }
}

/// A replay of a reader: how many changes the log held at the time, and how many the page asks for.
pub struct Visit {
    pub held: nat,
    pub limit: i64,
}

/// The position of a reader after some replays of a log that grows, each from where the last one
/// led.
pub open spec fn position_after(log: Seq<LogRowView>, offset: i64, visits: Seq<Visit>) -> i64
    decreases visits.len(),
{
    if visits.len() == 0 {
        offset
    } else {
        let from = position_after(log, offset, visits.drop_last());
        let v = visits.last();
        latest(answered(log.take(v.held as int), from, v.limit), from)
    }
}

/// The messages that a reader gets by some replays of a log that grows, each from where the last
/// one led.
pub open spec fn messages_after(
    d: DescribedView,
    log: Seq<LogRowView>,
    log_id: Seq<char>,
    offset: i64,
    visits: Seq<Visit>,
) -> Seq<JsonView>
    decreases visits.len(),
{
    if visits.len() == 0 {
        Seq::empty()
    } else {
        let from = position_after(log, offset, visits.drop_last());
        let v = visits.last();
        messages_after(d, log, log_id, offset, visits.drop_last()) + replay_of(
            d,
            log.take(v.held as int),
            from,
            v.limit,
            log_id,
        ).messages
    }
}

/// A replay takes the changes behind its position as they stand in the log, and leads behind them.
proof fn lemma_visit(log: Seq<LogRowView>, offset: i64, v: Visit)
    requires
        ascending(log),
        batches_together(log),
        v.held <= log.len(),
    ensures
        ({
            let k = passed(log, offset) as int;
            let rows = answered(log.take(v.held as int), offset, v.limit);
            &&& k + rows.len() <= log.len()
            &&& rows == log.subrange(k, k + rows.len())
            &&& passed(log, latest(rows, offset)) == k + rows.len()
            &&& !has_later(log.take(v.held as int), latest(rows, offset)) ==> k + rows.len() >= v.held
        }),
{
    let sub = log.take(v.held as int);
    assert forall|i: int, j: int| 0 <= i < j < sub.len() implies (#[trigger] sub[i]).seq < (
    #[trigger] sub[j]).seq by {
        assert(log[i].seq < log[j].seq);
    }
    assert forall|i: int, j: int, k: int|
        0 <= i < j < k < sub.len() && (#[trigger] sub[i]).batch_id == (#[trigger] sub[k]).batch_id implies (
    #[trigger] sub[j]).batch_id == sub[i].batch_id by {
        assert(log[i].batch_id == log[k].batch_id);
        assert(log[j].batch_id == log[i].batch_id);
    }
    lemma_passed(log, offset);
    lemma_passed(sub, offset);
    lemma_answered_is_prefix(sub, offset, v.limit);
    let k = passed(log, offset) as int;
    let j = passed(sub, offset) as int;
    let rows = answered(sub, offset, v.limit);
    let m = rows.len() as int;
    if v.held <= k {
        assert(j == v.held) by {
            if j < v.held {
                assert(sub[j] == log[j]);
            }
        }
        assert(rows =~= log.subrange(k, k + m));
    } else {
        assert(j == k) by {
            if j < k {
                assert(sub[j] == log[j]);
            } else if k < j {
                assert(sub[k] == log[k]);
            }
        }
        assert(rows =~= log.subrange(k, k + m));
        if m > 0 {
            let q = rows.last().seq;
            assert(rows.last() == log[k + m - 1]);
            lemma_passed(log, q);
            let n = passed(log, q) as int;
            assert(n == k + m) by {
                assert(k + m - 1 < n);
                if n > k + m {
                    assert(log[k + m].seq <= q);
                }
            }
        }
        let q = latest(rows, offset);
        lemma_passed(sub, q);
        if k + m < v.held {
            assert(sub[k + m] == log[k + m]);
            lemma_passed(log, q);
            assert(log[k + m].seq > q);
        }
    }
}

proof fn lemma_visits(
    d: DescribedView,
    log: Seq<LogRowView>,
    log_id: Seq<char>,
    offset: i64,
    visits: Seq<Visit>,
)
    requires
        ascending(log),
        batches_together(log),
        forall|i: int| 0 <= i < visits.len() ==> (#[trigger] visits[i]).held <= log.len(),
    ensures
        passed(log, offset) <= passed(log, position_after(log, offset, visits)) <= log.len(),
        messages_after(d, log, log_id, offset, visits) == log::all_message_jsons(
            d.predicate,
            d.columns,
            log.subrange(
                passed(log, offset) as int,
                passed(log, position_after(log, offset, visits)) as int,
            ),
        ),
    decreases visits.len(),
{
    let k = passed(log, offset) as int;
    lemma_passed(log, offset);
    if visits.len() == 0 {
        assert(log.subrange(k, k) =~= Seq::empty());
    } else {
        let front = visits.drop_last();
        assert forall|i: int| 0 <= i < front.len() implies (#[trigger] front[i]).held <= log.len() by {
            assert(front[i] == visits[i]);
        }
        lemma_visits(d, log, log_id, offset, front);
        let from = position_after(log, offset, front);
        let v = visits.last();
        assert(visits[visits.len() - 1].held <= log.len());
        lemma_visit(log, from, v);
        let rows = answered(log.take(v.held as int), from, v.limit);
        let m = passed(log, from) as int;
        assert(log.subrange(k, m) + rows =~= log.subrange(k, m + rows.len()));
        lemma_messages_concat(d.predicate, d.columns, log.subrange(k, m), rows);
    }
}

/// Snapshot and replays together: a reader who holds the rows of the shape as they were at its
/// position, and replays from there as often and with pages of any size while the log grows, holds
/// after each replay the rows of the shape as they were at the position that it has reached. Every
/// insertion meets no row of its key in the copy, every update and deletion meets one. Once a
/// replay of the whole log is up to date, the copy holds what a new snapshot holds.
pub proof fn law_readers_follow_the_table(
    d: DescribedView,
    log: Seq<LogRowView>,
    tables: Seq<Map<JsonView, JsonView>>,
    log_id: Seq<char>,
    offset: i64,
    visits: Seq<Visit>,
)
    requires
        ascending(log),
        batches_together(log),
        log::history(d.predicate, log, tables),
        forall|i: int| 0 <= i < visits.len() ==> (#[trigger] visits[i]).held <= log.len(),
    ensures
        ({
            let copy = log::shape_rows(d.predicate, d.columns, tables[passed(log, offset) as int]);
            let messages = log::all_read(messages_after(d, log, log_id, offset, visits));
            let reached = position_after(log, offset, visits);
            let from = position_after(log, offset, visits.drop_last());
            &&& passed(log, offset) <= passed(log, reached) <= log.len()
            &&& log::all_applied(copy, messages) == log::shape_rows(
                d.predicate,
                d.columns,
                tables[passed(log, reached) as int],
            )
            &&& log::all_fit(copy, messages)
            &&& visits.len() > 0 && visits.last().held == log.len() && replay_of(
                d,
                log,
                from,
                visits.last().limit,
                log_id,
            ).up_to_date ==> log::all_applied(copy, messages) == log::shape_rows(
                d.predicate,
                d.columns,
                tables.last(),
            )
        }),
{
    lemma_visits(d, log, log_id, offset, visits);
    let k = passed(log, offset) as int;
    let n = passed(log, position_after(log, offset, visits)) as int;
    let rows = log.subrange(k, n);
    let states = tables.subrange(k, n + 1);
    assert forall|i: int| 0 <= i < rows.len() implies log::records(states[i], #[trigger] rows[i], states[i + 1])
        && log::keys_told_apart(d.predicate, rows[i]) by {
        assert(rows[i] == log[k + i]);
    }
    log::law_replay_keeps_a_copy_up_to_date(d.predicate, d.columns, rows, states);
    log::law_all_messages_read_back(d.predicate, d.columns, rows);
    assert(states[0] == tables[k]);
    assert(states.last() == tables[n]);
    if visits.len() > 0 && visits.last().held == log.len() {
        let front = visits.drop_last();
        assert forall|i: int| 0 <= i < front.len() implies (#[trigger] front[i]).held <= log.len() by {
            assert(front[i] == visits[i]);
        }
        lemma_visit(log, position_after(log, offset, front), visits.last());
        assert(log.take(log.len() as int) =~= log);
    }
}

/// A reader who replays a log until it is up to date gets there: each replay takes a change more at
/// least, so no more replays are needed than there are changes behind its position.
pub proof fn law_readers_get_up_to_date(log: Seq<LogRowView>, offset: i64, visits: Seq<Visit>)
    requires
        ascending(log),
        batches_together(log),
        forall|i: int| 0 <= i < visits.len() ==> (#[trigger] visits[i]).held == log.len(),
    ensures
        passed(log, position_after(log, offset, visits)) <= log.len(),
        passed(log, position_after(log, offset, visits)) == log.len() || passed(
            log,
            position_after(log, offset, visits),
        ) >= passed(log, offset) + visits.len(),
        visits.len() >= later(log, offset).len() ==> !has_later(log, position_after(log, offset, visits)),
    decreases visits.len(),
{
    lemma_passed(log, offset);
    if visits.len() > 0 {
        let front = visits.drop_last();
        assert forall|i: int| 0 <= i < front.len() implies (#[trigger] front[i]).held == log.len() by {
            assert(front[i] == visits[i]);
        }
        law_readers_get_up_to_date(log, offset, front);
        let from = position_after(log, offset, front);
        assert(visits[visits.len() - 1].held == log.len());
        assert(log.take(log.len() as int) =~= log);
        lemma_visit(log, from, visits.last());
        lemma_answered_is_prefix(log, from, visits.last().limit);
    }
}

proof fn lemma_body_keys()
    ensures
        "type"@ != "log_id"@,
        "type"@ != "shape_handle"@,
        "type"@ != "messages"@,
        "type"@ != "offset"@,
        "type"@ != "up_to_date"@,
        "type"@ != "shutdown"@,
        "log_id"@ != "shape_handle"@,
        "log_id"@ != "messages"@,
        "log_id"@ != "offset"@,
        "log_id"@ != "up_to_date"@,
        "log_id"@ != "shutdown"@,
        "shape_handle"@ != "messages"@,
        "shape_handle"@ != "offset"@,
        "shape_handle"@ != "up_to_date"@,
        "shape_handle"@ != "shutdown"@,
        "messages"@ != "offset"@,
        "messages"@ != "up_to_date"@,
        "messages"@ != "shutdown"@,
        "offset"@ != "up_to_date"@,
        "offset"@ != "shutdown"@,
        "up_to_date"@ != "shutdown"@,
{
    reveal_strlit("type");
    reveal_strlit("log_id");
    reveal_strlit("shape_handle");
    reveal_strlit("messages");
    reveal_strlit("offset");
    reveal_strlit("up_to_date");
    reveal_strlit("shutdown");
    assert("type"@[0] == 't' && "log_id"@[0] == 'l' && "messages"@[0] == 'm' && "offset"@[0] == 'o');
    assert("up_to_date"@[0] == 'u' && "shape_handle"@.len() == 12 && "shutdown"@.len() == 8);
    assert("shape_handle"@[0] == 's' && "shutdown"@[0] == 's');
}

/// A client reads back from the body of a replay response what the replay holds.
pub proof fn law_replay_body_reads_back(r: ReplayView)
    ensures
        json::field(replay_body(r), "type"@) == Some(JsonView::Text("replay"@)),
        json::field(replay_body(r), "log_id"@) == Some(JsonView::Text(r.log_id)),
        json::field(replay_body(r), "shape_handle"@) == Some(JsonView::Text(r.shape_handle)),
        json::field(replay_body(r), "messages"@) == Some(JsonView::Array(r.messages)),
        json::field(replay_body(r), "offset"@) == Some(JsonView::Number(number::integer(r.offset))),
        json::field(replay_body(r), "up_to_date"@) == Some(JsonView::Bool(r.up_to_date)),
        json::field(replay_body(r), "shutdown"@) is None,
        json::keys_increasing(replay_entries(r)),
{
    lemma_body_keys();
    let e1 = json::put(shape::no_entries(), "type"@, JsonView::Text("replay"@));
    let e2 = json::put(e1, "log_id"@, JsonView::Text(r.log_id));
    let e3 = json::put(e2, "shape_handle"@, JsonView::Text(r.shape_handle));
    let e4 = json::put(e3, "messages"@, JsonView::Array(r.messages));
    let e5 = json::put(e4, "offset"@, JsonView::Number(number::integer(r.offset)));
    json::lemma_lookups_after_put(shape::no_entries(), "type"@, JsonView::Text("replay"@));
    json::lemma_lookups_after_put(e1, "log_id"@, JsonView::Text(r.log_id));
    json::lemma_lookups_after_put(e2, "shape_handle"@, JsonView::Text(r.shape_handle));
    json::lemma_lookups_after_put(e3, "messages"@, JsonView::Array(r.messages));
    json::lemma_lookups_after_put(e4, "offset"@, JsonView::Number(number::integer(r.offset)));
    json::lemma_lookups_after_put(e5, "up_to_date"@, JsonView::Bool(r.up_to_date));
    assert(json::lookup(shape::no_entries(), "shutdown"@) is None);
}

/// The body that ends a wait because the engine shuts down holds what the replay holds, and says
/// that the engine shuts down.
pub proof fn law_farewell_body_reads_back(r: ReplayView)
    ensures
        json::field(farewell_body(r), "type"@) == Some(JsonView::Text("replay"@)),
        json::field(farewell_body(r), "log_id"@) == Some(JsonView::Text(r.log_id)),
        json::field(farewell_body(r), "shape_handle"@) == Some(JsonView::Text(r.shape_handle)),
        json::field(farewell_body(r), "messages"@) == Some(JsonView::Array(r.messages)),
        json::field(farewell_body(r), "offset"@) == Some(JsonView::Number(number::integer(r.offset))),
        json::field(farewell_body(r), "up_to_date"@) == Some(JsonView::Bool(r.up_to_date)),
        json::field(farewell_body(r), "shutdown"@) == Some(JsonView::Bool(true)),
{
    lemma_body_keys();
    law_replay_body_reads_back(r);
    json::lemma_lookups_after_put(replay_entries(r), "shutdown"@, JsonView::Bool(true));
}

/// What the body of a replay of a log tells a client: its offset is not before the position that
/// the client asked from, its messages are those of the changes between the two positions, in the
/// order of the log, and `up_to_date` is true exactly where no change stands behind its offset.
pub proof fn law_replay_bodies_tell_the_truth(
    d: DescribedView,
    log: Seq<LogRowView>,
    offset: i64,
    limit: i64,
    log_id: Seq<char>,
)
    requires
        ascending(log),
        batches_together(log),
    ensures
        ({
            let r = replay_of(d, log, offset, limit, log_id);
            let body = replay_body(r);
            &&& json::field(body, "up_to_date"@) == Some(
                JsonView::Bool(forall|i: int| 0 <= i < log.len() ==> (#[trigger] log[i]).seq <= r.offset),
            )
            &&& json::field(body, "offset"@) == Some(JsonView::Number(number::integer(r.offset)))
            &&& r.offset >= offset
            &&& json::field(body, "shape_handle"@) == Some(JsonView::Text(d.shape_handle))
            &&& json::field(body, "log_id"@) == Some(JsonView::Text(log_id))
            &&& exists|from: int, to: int|
                {
                    &&& 0 <= from <= to <= log.len()
                    &&& forall|i: int| 0 <= i < log.len() ==> ((#[trigger] log[i]).seq <= offset <==> i < from)
                    &&& forall|i: int| 0 <= i < log.len() ==> ((#[trigger] log[i]).seq <= r.offset <==> i < to)
                    &&& #[trigger] log.subrange(from, to).len() == to - from
                    &&& json::field(body, "messages"@) == Some(
                        JsonView::Array(log::all_message_jsons(d.predicate, d.columns, log.subrange(from, to))),
                    )
                }
        }),
{
    let r = replay_of(d, log, offset, limit, log_id);
    law_replay_body_reads_back(r);
    let v = Visit { held: log.len(), limit };
    assert(log.take(log.len() as int) =~= log);
    lemma_visit(log, offset, v);
    lemma_passed(log, offset);
    lemma_passed(log, r.offset);
    let from = passed(log, offset) as int;
    let to = passed(log, r.offset) as int;
    assert(log.subrange(from, to).len() == to - from);
    law_replays_go_forward(log, offset, limit);
    let all = forall|i: int| 0 <= i < log.len() ==> (#[trigger] log[i]).seq <= r.offset;
    if to == log.len() {
        assert(all);
    } else {
        assert(log[to].seq > r.offset);
        assert(!all);
    }
}

/// A page has one change at least where there is one, and as many as are asked for where there are
/// so many; to finish a batch it takes ten times as many more at the most.
pub proof fn law_pages_have_the_size_asked_for(log: Seq<LogRowView>, offset: i64, limit: i64)
    requires
        ascending(log),
        batches_together(log),
        1 <= limit <= 0x0CCC_CCCC_CCCC_CCCC,
    ensures
        ({
            let n = answered(log, offset, limit).len();
            let left = later(log, offset).len();
            &&& left <= limit ==> n == left
            &&& left > limit ==> limit <= n <= 11 * limit
        }),
{
    lemma_answered_is_prefix(log, offset, limit);
    let p = page(log, offset, limit);
    if later(log, offset).len() <= limit && p.len() > 0 {
        lemma_later_of_later(log, offset, p.len() as int);
        assert(p.last() == later(log, offset)[p.len() - 1]);
    }
}

/// The position that a compaction stores for a table is read again, and tables do not share it.
pub proof fn law_retained_positions_read_back(n: i64, table: Seq<char>, other: Seq<char>)
    ensures
        retained(Some(text::decimal(n as int))) == n,
        retained(None) == 0,
        forall|s: Seq<char>| text::parsed_i64(s) is None ==> #[trigger] retained(Some(s)) == 0,
        retained_key_text(table) == retained_key_text(other) ==> table == other,
        text::starts_with(retained_key_text(table), "retained_offset:"@),
{
    text::law_decimal_reads_back(n);
    assert(retained_key_text(table).take("retained_offset:"@.len() as int) =~= "retained_offset:"@);
    if retained_key_text(table) == retained_key_text(other) {
        let k = "retained_offset:"@.len() as int;
        assert(retained_key_text(table).skip(k) =~= table);
        assert(retained_key_text(other).skip(k) =~= other);
    }
}

/// A page of less than one change is one of one change.
pub proof fn law_pages_have_a_change_at_least(log: Seq<LogRowView>, offset: i64, limit: i64)
    requires
        limit < 1,
    ensures
        answered(log, offset, limit) == answered(log, offset, 1),
        page_size(limit) == 1,
{
}

/// A replay ends inside a batch only where it has taken ten times as many changes of the batch behind
/// the page as a page has: a batch with fewer is never cut.
pub proof fn law_short_batches_are_never_cut(log: Seq<LogRowView>, offset: i64, limit: i64)
    requires
        ascending(log),
        batches_together(log),
        1 <= limit <= 0x0CCC_CCCC_CCCC_CCCC,
    ensures
        ({
            let rows = answered(log, offset, limit);
            let rest = later(log, latest(rows, offset));
            rows.len() > 0 && rest.len() > 0 && rest[0].batch_id == rows.last().batch_id ==> rows.len() == 11 * limit
        }),
{
    let rows = answered(log, offset, limit);
    lemma_answered_is_prefix(log, offset, limit);
    if rows.len() > 0 {
        let n = rows.len() as int;
        let s = later(log, offset);
        lemma_later_of_later(log, offset, n);
        assert(rows.last() == s[n - 1]);
        let rest = later(log, rows.last().seq);
        if rest.len() > 0 && rest[0].batch_id == rows.last().batch_id {
            law_batches_stay_whole(log, offset, limit);
            assert(page(log, offset, limit).len() == limit);
        }
    }
}

/// A replay names the log and the shape that it is of.
pub proof fn law_replays_name_their_log_and_shape(
    d: DescribedView,
    log: Seq<LogRowView>,
    offset: i64,
    limit: i64,
    log_id: Seq<char>,
)
    ensures
        ({
            let body = replay_body(replay_of(d, log, offset, limit, log_id));
            &&& json::field(body, "log_id"@) == Some(JsonView::Text(log_id))
            &&& json::field(body, "shape_handle"@) == Some(JsonView::Text(d.shape_handle))
            &&& json::field(body, "type"@) == Some(JsonView::Text("replay"@))
        }),
{
    law_replay_body_reads_back(replay_of(d, log, offset, limit, log_id));
}

} // verus!

//! The reads that a replay is made of, one after the other.
//!
//! A replay checks that its position is still retained, reads a page of changes, reads the rest of
//! the last batch of the page, asks whether there are newer changes, and reads the identity of the
//! log. The application performs each read and hands what it gave back as an event.
use vstd::prelude::*;
use crate::engine::error::{Error, ErrorView};
use crate::engine::log;
use crate::engine::log::{LogRow, LogRowView};
use crate::engine::replay;
use crate::engine::replay::{Replay, ReplayView};
use crate::engine::route;
use crate::engine::snapshot::{Described, DescribedView};

verus! {

/// Where a replay is.
pub enum ReplayPhase {
    /// Waits for the retained position of the table.
    Checking { described: Described, table: String, offset: i64, limit: i64 },
    /// Waits for the page.
    Paging { described: Described, table: String, offset: i64, limit: i64 },
    /// Waits for the rest of the last batch of the page.
    Extending { described: Described, table: String, offset: i64, page: Vec<LogRow> },
    /// Waits for whether there are newer changes.
    Probing { described: Described, table: String, offset: i64, rows: Vec<LogRow> },
    /// Waits for the identity of the log.
    Closing { described: Described, offset: i64, rows: Vec<LogRow>, newer: bool },
    /// Is read.
    Done,
}

/// The model of where a replay is.
pub enum ReplayPhaseView {
    Checking { described: DescribedView, table: Seq<char>, offset: i64, limit: i64 },
    Paging { described: DescribedView, table: Seq<char>, offset: i64, limit: i64 },
    Extending { described: DescribedView, table: Seq<char>, offset: i64, page: Seq<LogRowView> },
    Probing { described: DescribedView, table: Seq<char>, offset: i64, rows: Seq<LogRowView> },
    Closing { described: DescribedView, offset: i64, rows: Seq<LogRowView>, newer: bool },
    Done,
}

impl View for ReplayPhase {
    type V = ReplayPhaseView;

    open spec fn view(&self) -> ReplayPhaseView {
        match self {
            ReplayPhase::Checking { described, table, offset, limit } => ReplayPhaseView::Checking {
                described: described@,
                table: table@,
                offset: *offset,
                limit: *limit,
            },
            ReplayPhase::Paging { described, table, offset, limit } => ReplayPhaseView::Paging {
                described: described@,
                table: table@,
                offset: *offset,
                limit: *limit,
            },
            ReplayPhase::Extending { described, table, offset, page } => ReplayPhaseView::Extending {
                described: described@,
                table: table@,
                offset: *offset,
                page: log::log_views(page@),
            },
            ReplayPhase::Probing { described, table, offset, rows } => ReplayPhaseView::Probing {
                described: described@,
                table: table@,
                offset: *offset,
                rows: log::log_views(rows@),
            },
            ReplayPhase::Closing { described, offset, rows, newer } => ReplayPhaseView::Closing {
                described: described@,
                offset: *offset,
                rows: log::log_views(rows@),
                newer: *newer,
            },
            ReplayPhase::Done => ReplayPhaseView::Done,
        }
    }
}

/// What a read gave.
pub enum ReplayEvent {
    Stored(Option<String>),
    Rows(Vec<LogRow>),
    Newer(bool),
    LogId(String),
    Failed(String),
}

/// The model of what a read gave.
pub enum ReplayEventView {
    Stored(Option<Seq<char>>),
    Rows(Seq<LogRowView>),
    Newer(bool),
    LogId(Seq<char>),
    Failed(Seq<char>),
}

impl View for ReplayEvent {
    type V = ReplayEventView;

    open spec fn view(&self) -> ReplayEventView {
        match self {
            ReplayEvent::Stored(s) => ReplayEventView::Stored(route::option_string(*s)),
            ReplayEvent::Rows(rows) => ReplayEventView::Rows(log::log_views(rows@)),
            ReplayEvent::Newer(b) => ReplayEventView::Newer(*b),
            ReplayEvent::LogId(s) => ReplayEventView::LogId(s@),
            ReplayEvent::Failed(s) => ReplayEventView::Failed(s@),
        }
    }
}

/// What is read next for a replay.
#[derive(Debug)]
pub enum ReplayAction {
    /// The value stored under a key.
    ReadMeta { key: String },
    /// The first changes of a table behind a position.
    ReadPage { table: String, offset: i64, limit: i64 },
    /// The first changes of a table behind a position that belong to a batch.
    ReadBatch { table: String, after: i64, batch_id: String, limit: i64 },
    /// Whether a table has changes behind a position.
    HasNewer { table: String, after: i64 },
    /// The identity of the log.
    ReadLogId,
    /// Nothing: the replay is there, or an error.
    Finish(Result<Replay, Error>),
}

/// The model of what is read next.
pub enum ReplayActionView {
    ReadMeta { key: Seq<char> },
    ReadPage { table: Seq<char>, offset: i64, limit: i64 },
    ReadBatch { table: Seq<char>, after: i64, batch_id: Seq<char>, limit: i64 },
    HasNewer { table: Seq<char>, after: i64 },
    ReadLogId,
    Finish(Result<ReplayView, ErrorView>),
}

impl View for ReplayAction {
    type V = ReplayActionView;

    open spec fn view(&self) -> ReplayActionView {
        match self {
            ReplayAction::ReadMeta { key } => ReplayActionView::ReadMeta { key: key@ },
            ReplayAction::ReadPage { table, offset, limit } => ReplayActionView::ReadPage {
                table: table@,
                offset: *offset,
                limit: *limit,
            },
            ReplayAction::ReadBatch { table, after, batch_id, limit } => ReplayActionView::ReadBatch {
                table: table@,
                after: *after,
                batch_id: batch_id@,
                limit: *limit,
            },
            ReplayAction::HasNewer { table, after } => ReplayActionView::HasNewer {
                table: table@,
                after: *after,
            },
            ReplayAction::ReadLogId => ReplayActionView::ReadLogId,
            ReplayAction::Finish(r) => ReplayActionView::Finish(
                match r {
                    Ok(r) => Ok(r@),
                    Err(e) => Err(e@),
                },
            ),
        }
    }
}

/// The model of a phase and an action.
pub open spec fn replay_step_view(r: (ReplayPhase, ReplayAction)) -> (ReplayPhaseView, ReplayActionView) {
    (r.0@, r.1@)
}

/// The start of a replay.
pub open spec fn started(
    d: DescribedView,
    table: Seq<char>,
    offset: i64,
    limit: i64,
) -> (ReplayPhaseView, ReplayActionView) {
    (
        ReplayPhaseView::Checking { described: d, table, offset, limit },
        ReplayActionView::ReadMeta { key: replay::retained_key_text(table) },
    )
}

/// The end of a replay.
pub open spec fn finished(r: Result<ReplayView, ErrorView>) -> (ReplayPhaseView, ReplayActionView) {
    (ReplayPhaseView::Done, ReplayActionView::Finish(r))
}

/// The question whether there are changes behind those that were read.
pub open spec fn probing(
    d: DescribedView,
    table: Seq<char>,
    offset: i64,
    rows: Seq<LogRowView>,
) -> (ReplayPhaseView, ReplayActionView) {
    (
        ReplayPhaseView::Probing { described: d, table, offset, rows },
        ReplayActionView::HasNewer { table, after: replay::latest(rows, offset) },
    )
}

/// The next phase and read of a replay. A position that is not retained ends it, and so does a
/// read that fails.
pub open spec fn next_read(
    phase: ReplayPhaseView,
    event: ReplayEventView,
) -> (ReplayPhaseView, ReplayActionView) {
    match (phase, event) {
        (_, ReplayEventView::Failed(e)) => finished(Err(ErrorView::Sqlite(e))),
        (ReplayPhaseView::Checking { described, table, offset, limit }, ReplayEventView::Stored(s)) => {
            if offset < replay::retained(s) {
                finished(Err(ErrorView::ResyncRequired))
            } else {
                (
                    ReplayPhaseView::Paging { described, table, offset, limit },
                    ReplayActionView::ReadPage { table, offset, limit: replay::page_size(limit) },
                )
            }
        },
        (ReplayPhaseView::Paging { described, table, offset, limit }, ReplayEventView::Rows(page)) => {
            if page.len() == 0 {
                probing(described, table, offset, page)
            } else {
                (
                    ReplayPhaseView::Extending { described, table, offset, page },
                    ReplayActionView::ReadBatch {
                        table,
                        after: page.last().seq,
                        batch_id: page.last().batch_id,
                        limit: replay::extra_size(limit),
                    },
                )
            }
        },
        (ReplayPhaseView::Extending { described, table, offset, page }, ReplayEventView::Rows(extra)) => probing(
            described,
            table,
            offset,
            page + extra,
        ),
        (ReplayPhaseView::Probing { described, table, offset, rows }, ReplayEventView::Newer(newer)) => (
            ReplayPhaseView::Closing { described, offset, rows, newer },
            ReplayActionView::ReadLogId,
        ),
        (ReplayPhaseView::Closing { described, offset, rows, newer }, ReplayEventView::LogId(log_id)) => finished(
            Ok(replay::replayed(described, offset, rows, newer, log_id)),
        ),
        _ => finished(Err(ErrorView::Bad("replay is out of step"@))),
    }
}

/// The start of a replay.
pub fn start_replay(described: Described, table: &str, offset: i64, limit: i64) -> (r: (
    ReplayPhase,
    ReplayAction,
))
    ensures
        replay_step_view(r) == started(described@, table@, offset, limit),
{
    let key = replay::retained_key(table);
    (
        ReplayPhase::Checking { described, table: table.to_string(), offset, limit },
        ReplayAction::ReadMeta { key },
    )
}

fn finish(r: Result<Replay, Error>) -> (s: (ReplayPhase, ReplayAction))
    ensures
        replay_step_view(s) == finished(
            match r {
                Ok(r) => Ok(r@),
                Err(e) => Err(e@),
            },
        ),
{
    (ReplayPhase::Done, ReplayAction::Finish(r))
}

fn probe(described: Described, table: String, offset: i64, rows: Vec<LogRow>) -> (r: (ReplayPhase, ReplayAction))
    ensures
        replay_step_view(r) == probing(described@, table@, offset, log::log_views(rows@)),
{
    let after: i64 = replay::latest_offset(&rows, offset);
    let action = ReplayAction::HasNewer { table: table.clone(), after };
    (ReplayPhase::Probing { described, table, offset, rows }, action)
}

fn check(described: Described, table: String, offset: i64, limit: i64, stored: Option<String>) -> (r: (
    ReplayPhase,
    ReplayAction,
))
    ensures
        replay_step_view(r) == next_read(
            ReplayPhaseView::Checking { described: described@, table: table@, offset, limit },
            ReplayEventView::Stored(route::option_string(stored)),
        ),
{
    let retained: i64 = match &stored {
        Some(s) => replay::retained_offset(Some(s.as_str())),
        None => replay::retained_offset(None),
    };
    match replay::begin_replay(offset, retained) {
        Err(e) => finish(Err(e)),
        Ok(()) => {
            let action = ReplayAction::ReadPage {
                table: table.clone(),
                offset,
                limit: replay::page_limit(limit),
            };
            (ReplayPhase::Paging { described, table, offset, limit }, action)
        },
    }
}

fn extend(described: Described, table: String, offset: i64, limit: i64, page: Vec<LogRow>) -> (r: (
    ReplayPhase,
    ReplayAction,
))
    ensures
        replay_step_view(r) == next_read(
            ReplayPhaseView::Paging { described: described@, table: table@, offset, limit },
            ReplayEventView::Rows(log::log_views(page@)),
        ),
{
    let batch = match replay::open_batch(&page) {
        Some((after, batch_id)) => Some((after, batch_id.clone())),
        None => None,
    };
    match batch {
        None => probe(described, table, offset, page),
        Some((after, batch_id)) => {
            let action = ReplayAction::ReadBatch {
                table: table.clone(),
                after,
                batch_id,
                limit: replay::batch_cap(limit),
            };
            (ReplayPhase::Extending { described, table, offset, page }, action)
        },
    }
}

/// The next phase and read of a replay.
pub fn step_replay(phase: ReplayPhase, event: ReplayEvent) -> (r: (ReplayPhase, ReplayAction))
    ensures
        replay_step_view(r) == next_read(phase@, event@),
{
    match (phase, event) {
        (_, ReplayEvent::Failed(e)) => finish(Err(Error::Sqlite(e))),
        (ReplayPhase::Checking { described, table, offset, limit }, ReplayEvent::Stored(stored)) => check(
            described,
            table,
            offset,
            limit,
            stored,
        ),
        (ReplayPhase::Paging { described, table, offset, limit }, ReplayEvent::Rows(page)) => extend(
            described,
            table,
            offset,
            limit,
            page,
        ),
        (ReplayPhase::Extending { described, table, offset, page }, ReplayEvent::Rows(extra)) => {
            let mut rows = page;
            let mut extra = extra;
            let ghost (a, b) = (rows@, extra@);
            rows.append(&mut extra);
            assert(log::log_views(rows@) =~= log::log_views(a) + log::log_views(b));
            probe(described, table, offset, rows)
        },
        (ReplayPhase::Probing { described, offset, rows, .. }, ReplayEvent::Newer(newer)) => (
            ReplayPhase::Closing { described, offset, rows, newer },
            ReplayAction::ReadLogId,
        ),
        (ReplayPhase::Closing { described, offset, rows, newer }, ReplayEvent::LogId(log_id)) => {
            let r = replay::replay(&described, offset, &rows, newer, log_id);
            finish(Ok(r))
        },
        _ => finish(Err(Error::Bad("replay is out of step".to_string()))),
    }
}

/// What a database whose log holds these changes of the table gives for a read.
pub open spec fn given(
    action: ReplayActionView,
    log: Seq<LogRowView>,
    stored: Option<Seq<char>>,
    log_id: Seq<char>,
) -> ReplayEventView {
    match action {
        ReplayActionView::ReadMeta { .. } => ReplayEventView::Stored(stored),
        ReplayActionView::ReadPage { offset, limit, .. } => ReplayEventView::Rows(
            replay::first(replay::later(log, offset), limit),
        ),
        ReplayActionView::ReadBatch { after, batch_id, limit, .. } => ReplayEventView::Rows(
            replay::first(replay::of_batch(replay::later(log, after), batch_id), limit),
        ),
        ReplayActionView::HasNewer { after, .. } => ReplayEventView::Newer(replay::has_later(log, after)),
        ReplayActionView::ReadLogId => ReplayEventView::LogId(log_id),
        ReplayActionView::Finish(_) => ReplayEventView::LogId(log_id),
    }
}

/// A replay after some reads of such a database.
pub open spec fn after_reads(
    start: (ReplayPhaseView, ReplayActionView),
    log: Seq<LogRowView>,
    stored: Option<Seq<char>>,
    log_id: Seq<char>,
    reads: nat,
) -> (ReplayPhaseView, ReplayActionView)
    decreases reads,
{
    if reads == 0 {
        start
    } else {
        let s = after_reads(start, log, stored, log_id, (reads - 1) as nat);
        if s.0 is Done {
            s
        } else {
            next_read(s.0, given(s.1, log, stored, log_id))
        }
    }
}

/// A replay of a log takes at most five reads. It is refused where its position is before the
/// retained one, and else it replays the next changes of the log: a page and the rest of its last
/// batch.
pub proof fn law_replay_reads_the_next_changes(
    d: DescribedView,
    table: Seq<char>,
    offset: i64,
    limit: i64,
    log: Seq<LogRowView>,
    stored: Option<Seq<char>>,
    log_id: Seq<char>,
)
    ensures
        after_reads(started(d, table, offset, limit), log, stored, log_id, 5) == finished(
            if offset < replay::retained(stored) {
                Err(ErrorView::ResyncRequired)
            } else {
                Ok(replay::replay_of(d, log, offset, limit, log_id))
            },
        ),
{
    reveal_with_fuel(after_reads, 6);
    let p = replay::page(log, offset, limit);
    if p.len() == 0 {
        assert(replay::answered(log, offset, limit) =~= p);
    }
}

/// The table that a replay is of, until it has read all of it.
pub open spec fn table_of(phase: ReplayPhaseView) -> Option<Seq<char>> {
    match phase {
        ReplayPhaseView::Checking { table, .. } => Some(table),
        ReplayPhaseView::Paging { table, .. } => Some(table),
        ReplayPhaseView::Extending { table, .. } => Some(table),
        ReplayPhaseView::Probing { table, .. } => Some(table),
        _ => None,
    }
}

/// A replay reads the changes of its own table: it asks for the retained position of the table, and
/// every change that it asks for is one of the table.
pub proof fn law_replays_read_their_table(
    d: DescribedView,
    table: Seq<char>,
    offset: i64,
    limit: i64,
    phase: ReplayPhaseView,
    event: ReplayEventView,
)
    ensures
        started(d, table, offset, limit).1 == (ReplayActionView::ReadMeta { key: replay::retained_key_text(table) }),
        table_of(started(d, table, offset, limit).0) == Some(table),
        table_of(next_read(phase, event).0) matches Some(t) ==> Some(t) == table_of(phase),
        match next_read(phase, event).1 {
            ReplayActionView::ReadPage { table: t, .. } => Some(t) == table_of(phase),
            ReplayActionView::ReadBatch { table: t, .. } => Some(t) == table_of(phase),
            ReplayActionView::HasNewer { table: t, .. } => Some(t) == table_of(phase),
            _ => true,
        },
{
}

/// A read that fails ends a replay with what SQLite reported, and so does a read that was not asked
/// for, as an error of the database.
pub proof fn law_failed_reads_end_replays(phase: ReplayPhaseView, e: Seq<char>, event: ReplayEventView)
    ensures
        next_read(phase, ReplayEventView::Failed(e)).0 is Done,
        next_read(phase, ReplayEventView::Failed(e)).1 == ReplayActionView::Finish(Err(ErrorView::Sqlite(e))),
        phase is Done ==> next_read(phase, event).0 is Done,
        next_read(phase, event).0 is Done <==> next_read(phase, event).1 is Finish,
{
}

} // verus!

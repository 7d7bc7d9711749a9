//! Compaction: dropping old changes of a table from the log.
use vstd::prelude::*;
use crate::engine::log::LogRowView;
use crate::engine::replay;
use crate::engine::snapshot;

verus! {

/// What a compaction did: the position that the table is retained from, and how many changes
/// were dropped.
#[derive(Debug)]
pub struct CompactStats {
    pub retained_offset: i64,
    pub deleted_rows: usize,
}

/// The position that a table is retained from after a compaction: that of the newest change to
/// drop, and never before an earlier one. Nothing to drop counts as position zero.
pub open spec fn watermark(candidate: Option<i64>, retained: i64) -> i64 {
    let c: i64 = match candidate {
        Some(seq) => seq,
        None => 0,
    };
    if c > retained {
        c
    } else {
        retained
    }
}

/// How many of the newest changes of a table are skipped to find the newest change to drop: as
/// many as can be written, where more are to be kept.
pub fn kept_rows(keep_last: usize) -> (r: i64)
    ensures
        r == (if keep_last > i64::MAX {
            i64::MAX as int
        } else {
            keep_last as int
        }),
{
    if keep_last as u64 > i64::MAX as u64 {
        i64::MAX
    } else {
        keep_last as i64
    }
}

/// The position that a table is retained from after a compaction.
pub fn compact_watermark(candidate: Option<i64>, retained: i64) -> (r: i64)
    ensures
        r == watermark(candidate, retained),
{
    let c: i64 = match candidate {
        Some(seq) => seq,
        None => 0,
    };
    if c > retained {
        c
    } else {
        retained
    }
}

/// What a compaction did.
pub fn compact_stats(retained_offset: i64, deleted_rows: usize) -> (r: CompactStats)
    ensures
        r.retained_offset == retained_offset,
        r.deleted_rows == deleted_rows,
{
    CompactStats { retained_offset, deleted_rows }
}

/// The newest change to drop where the newest `keep_last` changes of a log are kept.
pub open spec fn newest_to_drop(log: Seq<LogRowView>, keep_last: nat) -> Option<i64> {
    if keep_last < log.len() {
        Some(log[log.len() - 1 - keep_last].seq)
    } else {
        None
    }
}

/// A log after a compaction: the changes behind the position that it is retained from.
pub open spec fn compacted(log: Seq<LogRowView>, retained: i64) -> Seq<LogRowView> {
    replay::later(log, retained)
}

/// The position that a table is retained from never moves back.
pub proof fn law_retained_offset_is_monotonic(candidate: Option<i64>, retained: i64)
    ensures
        watermark(candidate, retained) >= retained,
{
}

/// A table with no more changes than are to be kept stays as it is, whatever other tables hold.
pub proof fn law_quiet_table_keeps_its_log(log: Seq<LogRowView>, keep_last: nat, retained: i64)
    requires
        log.len() <= keep_last,
        retained >= 0,
    ensures
        watermark(newest_to_drop(log, keep_last), retained) == retained,
{
}

/// A compaction drops none of the newest changes that are to be kept, unless they were before the
/// retained position already.
pub proof fn law_newest_changes_are_kept(log: Seq<LogRowView>, keep_last: nat, retained: i64, i: int)
    requires
        replay::ascending(log),
        0 <= i < log.len(),
        log.len() - keep_last <= i,
        log[i].seq > retained,
        log[i].seq > 0,
    ensures
        log[i].seq > watermark(newest_to_drop(log, keep_last), retained),
{
    if keep_last < log.len() {
        assert(log[log.len() - 1 - keep_last].seq < log[i].seq);
    }
}

/// After a compaction a position is either refused or replayed in full: where it is not before the
/// retained position, no change behind it is gone.
pub proof fn law_accepted_positions_lose_nothing(log: Seq<LogRowView>, retained: i64, offset: i64)
    requires
        replay::ascending(log),
        offset >= retained,
    ensures
        replay::later(compacted(log, retained), offset) == replay::later(log, offset),
{
    replay::lemma_passed(log, retained);
    replay::lemma_passed(log, offset);
    let s = compacted(log, retained);
    let k = replay::passed(log, retained) as int;
    assert forall|i: int, j: int| 0 <= i < j < s.len() implies (#[trigger] s[i]).seq < (#[trigger] s[j]).seq by {
        assert(log[k + i].seq < log[k + j].seq);
    }
    replay::lemma_passed(s, offset);
    let m = replay::passed(log, offset) as int;
    let n = replay::passed(s, offset) as int;
    assert(k <= m) by {
        if k > m {
            assert(log[m].seq <= retained);
        }
    }
    assert(k + n == m) by {
        if k + n < m {
            assert(s[n] == log[k + n]);
            assert(log[k + n].seq <= offset);
        }
        if k + n > m {
            assert(s[m - k] == log[m]);
            assert(s[m - k].seq <= offset);
        }
    }
    assert(replay::later(s, offset) =~= replay::later(log, offset));
}

/// The position of a snapshot stands behind every change of its table, those that a compaction has
/// dropped among them, and is not before the retained position: a replay behind it is not refused.
pub proof fn law_snapshots_stand_behind_every_change(log: Seq<LogRowView>, retained: i64, high_water: i64)
    requires
        replay::ascending(log),
        forall|i: int|
            0 <= i < compacted(log, retained).len() ==> (#[trigger] compacted(log, retained)[i]).seq <= high_water,
    ensures
        replay::passed(log, snapshot::pinned(high_water, retained)) == log.len(),
        !replay::has_later(log, snapshot::pinned(high_water, retained)),
        snapshot::pinned(high_water, retained) >= retained,
{
    let at = snapshot::pinned(high_water, retained);
    replay::lemma_passed(log, retained);
    replay::lemma_passed(log, at);
    let k = replay::passed(log, retained) as int;
    let n = replay::passed(log, at) as int;
    if n < log.len() {
        assert(log[n].seq > at);
        assert(k <= n);
        assert(compacted(log, retained)[n - k] == log[n]);
    }
}

/// The position that a table is retained from is that of the newest change to drop or the earlier
/// one, whichever is later: nothing else is dropped.
pub proof fn law_watermark_is_the_later_position(candidate: Option<i64>, retained: i64)
    ensures
        candidate matches Some(seq) ==> {
            &&& watermark(candidate, retained) >= seq
            &&& watermark(candidate, retained) == seq || watermark(candidate, retained) == retained
        },
        candidate is None && retained >= 0 ==> watermark(candidate, retained) == retained,
{
}

/// A compaction leaves no more changes than are to be kept.
pub proof fn law_older_changes_are_dropped(log: Seq<LogRowView>, keep_last: nat, retained: i64)
    requires
        replay::ascending(log),
    ensures
        compacted(log, watermark(newest_to_drop(log, keep_last), retained)).len() <= keep_last,
{
    let w = watermark(newest_to_drop(log, keep_last), retained);
    replay::lemma_passed(log, w);
    if keep_last < log.len() {
        let i = log.len() - 1 - keep_last;
        assert(log[i].seq <= w);
        let n = replay::passed(log, w) as int;
        if n <= i {
            assert(log[n].seq > w);
            if n < i {
                assert(log[n].seq < log[i].seq);
            }
        }
    }
}

} // verus!

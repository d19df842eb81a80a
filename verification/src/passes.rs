//! What a pass of maintenance can be relied on for: the log stays short, what
//! nobody needs goes and what somebody needs stays, a limit costs the oldest
//! transaction only, and no reader notices any of it.
use vstd::prelude::*;

use crate::checkpoint;
use crate::db;
use crate::db::Db;
use crate::degraded;
use crate::engine;
use crate::error;
use crate::error::Fault;
use crate::framing;
use crate::maintenance;
use crate::maintenance::MaintenanceStats;
use crate::mvcc;
use crate::mvcc::{Core, Grave, Pending, Place, Viewer};
use crate::operation::Entry;
use crate::page::Sheet;
use crate::steps;
use crate::txn::TransactionId;
use crate::upkeep;
use crate::upkeep::Trouble;
use crate::version;
use crate::wal;
use crate::writes;

verus! {

/// The states that a pass goes through: the failed aborts are tried again, and
/// what nobody needs is dropped.
proof fn pass_parts(before: Db, after: Db, now: u128, r: Result<(), Fault>) -> (t: (Db, Db))
    requires
        upkeep::passed(before, after, now, r),
    ensures
        upkeep::retried(before, t.0),
        upkeep::swept(t.0, t.1),
        t.0.wf(),
        t.1.wf(),
        upkeep::trimmed(t.1, after, now, r),
{
    choose|a: Db, b: Db|
        {
            &&& #[trigger] upkeep::retried(before, a)
            &&& #[trigger] upkeep::swept(a, b)
            &&& a.wf()
            &&& b.wf()
            &&& upkeep::trimmed(b, after, now, r)
        }
}

/// The checkpoint of a pass, and what the pass counts it as.
proof fn trim_parts(before: Db, after: Db, now: u128) -> (mid: Db)
    requires
        upkeep::trimmed(before, after, now, Ok::<(), Fault>(())),
        before.wal.segment_bytes > 16777216,
    ensures
        checkpoint::checkpointed(before, mid, now),
        mid.wf(),
        upkeep::enforced(
            Db {
                maintenance: MaintenanceStats {
                    checkpoints: mid.maintenance.checkpoints.wrapping_add(1),
                    ..mid.maintenance
                },
                ..mid
            },
            after,
            now,
            Ok::<(), Fault>(()),
        ),
{
    choose|mid: Db|
        {
            &&& #[trigger] checkpoint::checkpointed(before, mid, now)
            &&& mid.wf()
            &&& upkeep::enforced(
                Db {
                    maintenance: MaintenanceStats {
                        checkpoints: mid.maintenance.checkpoints.wrapping_add(1),
                        ..mid.maintenance
                    },
                    ..mid
                },
                after,
                now,
                Ok::<(), Fault>(()),
            )
        }
}

// ---------------------------------------------------------------------------
// The log
// ---------------------------------------------------------------------------

/// After a checkpoint the newest segment holds nothing but its header, nothing
/// waits to be logged, and the time of the checkpoint is that of the call.
pub proof fn checkpoint_leaves_an_empty_segment(before: Db, after: Db, now: u128)
    requires
        before.wf(),
        before.wal.current.n < u64::MAX,
        before.wal@.header.len() == framing::log_header_len(),
        checkpoint::checkpointed(before, after, now),
    ensures
        after.wal.segment_bytes == framing::log_header_len(),
        after.wal@.header == before.wal@.header,
        after.wal.current.n == before.wal.current.n + 1,
        after.last_checkpoint == now,
        after.queued().len() == 0,
        after.data.rows@ == before.engine@.rows,
{
    let mid = wal::ran(before.log(), wal::record_msgs(before.queued()), 0);
    wal::records_in_batches(before.log(), before.queued(), 0);
    assert(mid.wal.header == before.wal@.header);
    assert(after.log().wal == after.wal@);
    assert(after.log().wal.segment_bytes == mid.wal.header.len() as u64);
}

/// Trying aborts again counts no checkpoint.
proof fn retries_count_no_checkpoint(t: Trouble, ids: Seq<u64>)
    ensures
        t.all_finished(ids).counts.checkpoints == t.counts.checkpoints,
        t.all_failed(ids).counts.checkpoints == t.counts.checkpoints,
    decreases ids.len(),
{
    if ids.len() > 0 {
        retries_count_no_checkpoint(t, ids.drop_last());
    }
}

/// Enforcing the limits leaves the segment that there is, or an empty one, and
/// counts no checkpoint.
proof fn limits_keep_the_log_short(before: Db, after: Db, now: u128)
    requires
        before.wf(),
        before.wal.current.n < u64::MAX,
        before.wal@.header.len() == framing::log_header_len(),
        upkeep::enforced(before, after, now, Ok::<(), Fault>(())),
    ensures
        after.wal.segment_bytes == before.wal.segment_bytes || after.wal.segment_bytes
            == framing::log_header_len(),
        after.wal.current.n >= before.wal.current.n,
        after.last_checkpoint == before.last_checkpoint || after.last_checkpoint == now,
        after.maintenance == before.maintenance,
{
    match (upkeep::over_limit(before), before.engine@.txns.oldest_active()) {
        (Some(why), Some(x)) => {
            let (noted, undone) = choose|noted: Db, undone: Db|
                {
                    &&& noted == Db { forced_aborts: noted.forced_aborts, ..before }
                    &&& noted.forced() == before.forced().insert(x, upkeep::too_old_text(x, why))
                    &&& #[trigger] db::rolled_back(noted, undone, x, db::abort_fault(before, x))
                    &&& noted.wf()
                    &&& undone.wf()
                    &&& match db::abort_fault(before, x) {
                        Some(f) => after == undone && Ok::<(), Fault>(()) == Err::<(), Fault>(f),
                        None => {
                            let counted = Db {
                                snapshot_too_old_aborts:
                                    before.snapshot_too_old_aborts.wrapping_add(1),
                                ..undone
                            };
                            checkpoint::checkpointed(counted, after, now)
                        },
                    }
                };
            let counted = Db {
                snapshot_too_old_aborts: before.snapshot_too_old_aborts.wrapping_add(1),
                ..undone
            };
            assert(counted.wf());
            checkpoint_leaves_an_empty_segment(counted, after, now);
        },
        _ => {},
    }
}

/// After a pass that succeeds the newest segment of the log is not longer than
/// sixteen mebibytes. Where the pass found it longer, it took a checkpoint at
/// the time of the call, went on to a new segment and counted that; where it
/// did not, it counted none.
pub proof fn pass_keeps_the_log_short(before: Db, after: Db, now: u128)
    requires
        before.wf(),
        before.wal.current.n < u64::MAX - 1,
        before.wal@.header.len() == framing::log_header_len(),
        upkeep::passed(before, after, now, Ok::<(), Fault>(())),
    ensures
        after.wal.segment_bytes <= 16777216,
        if before.wal.segment_bytes > 16777216 {
            &&& after.last_checkpoint == now
            &&& after.wal.current.n > before.wal.current.n
            &&& after.wal.segment_bytes == framing::log_header_len()
            &&& after.maintenance.checkpoints == before.maintenance.checkpoints.wrapping_add(1)
        } else {
            after.maintenance.checkpoints == before.maintenance.checkpoints
        },
{
    let (a, b) = pass_parts(before, after, now, Ok::<(), Fault>(()));
    retries_count_no_checkpoint(before.trouble(), before.engine.txns.aborting@);
    assert(a.trouble().counts.checkpoints == before.trouble().counts.checkpoints);
    assert(a.maintenance.checkpoints == before.maintenance.checkpoints);
    assert(b.maintenance@.checkpoints == a.maintenance@.checkpoints);
    assert(b.maintenance.checkpoints == before.maintenance.checkpoints);
    assert(b.wal == before.wal);
    if before.wal.segment_bytes > 16777216 {
        let mid = trim_parts(b, after, now);
        checkpoint_leaves_an_empty_segment(b, mid, now);
        let counted = Db {
            maintenance: MaintenanceStats {
                checkpoints: mid.maintenance.checkpoints.wrapping_add(1),
                ..mid.maintenance
            },
            ..mid
        };
        assert(counted.wf());
        limits_keep_the_log_short(counted, after, now);
    } else {
        limits_keep_the_log_short(b, after, now);
    }
}

// ---------------------------------------------------------------------------
// What nobody needs
// ---------------------------------------------------------------------------

/// Of any numbers one is the least.
proof fn some_least(ids: Set<u64>, m: u64)
    requires
        ids.contains(m),
    ensures
        mvcc::least(ids) matches Some(h) && mvcc::is_least(ids, h),
    decreases m,
{
    if mvcc::is_least(ids, m) {
        mvcc::least_is(ids, m);
    } else {
        let x = choose|x: u64| #[trigger] ids.contains(x) && x < m;
        some_least(ids, x);
    }
}

/// The oldest active transaction is the least of the active ones, and there is
/// one wherever any is active.
proof fn oldest_is_least(c: Core)
    ensures
        match c.txns.oldest_active() {
            Some(h) => mvcc::is_least(c.txns.active.dom(), h),
            None => forall|x: u64| !(#[trigger] c.txns.active.dom().contains(x)),
        },
        steps::horizon_ok(c.txns, c.txns.oldest_active()),
{
    let ids = c.txns.active.dom();
    if exists|x: u64| #[trigger] ids.contains(x) {
        let x = choose|x: u64| #[trigger] ids.contains(x);
        some_least(ids, x);
    } else {
        mvcc::least_of_none(ids);
    }
}

/// Is there an active transaction that began before this number, and so may
/// need what was there until then?
pub open spec fn needed(c: Core, ts: u64) -> bool {
    exists|y: u64| #[trigger] c.txns.active.dom().contains(y) && y <= ts
}

/// What is released is what nobody needs.
proof fn released_is_not_needed(c: Core, ts: u64)
    ensures
        steps::released(c.txns.oldest_active(), ts) <==> !needed(c, ts),
{
    oldest_is_least(c);
    if let Some(h) = c.txns.oldest_active() {
        assert(c.txns.active.dom().contains(h));
    }
}

/// Purging removes rows and does nothing else to them.
proof fn purges_only_remove(c: Core, gs: Seq<Grave>, p: Place)
    ensures
        upkeep::purged_all(c, gs).rows.dom().contains(p) ==> c.rows.dom().contains(p)
            && upkeep::purged_all(c, gs).rows[p] == c.rows[p],
    decreases gs.len(),
{
    if gs.len() > 0 {
        purges_only_remove(c, gs.drop_last(), p);
    }
}

/// A row that is still the deletion mark of one of these is gone once they are
/// purged.
proof fn purges_take_the_marks(c: Core, gs: Seq<Grave>, i: int)
    requires
        0 <= i < gs.len(),
        c.live.contains(gs[i].table_id),
    ensures
        ({
            let p = Place { table: gs[i].table_id, key: gs[i].key };
            let d = upkeep::purged_all(c, gs);
            d.rows.dom().contains(p) ==> !(d.rows[p].tombstone && d.rows[p].txn_id == Some(
                gs[i].txn,
            ))
        }),
    decreases gs.len(),
{
    let front = gs.drop_last();
    let p = Place { table: gs[i].table_id, key: gs[i].key };
    upkeep::purged_all_facts(c, front);
    if i < front.len() {
        assert(front[i] == gs[i]);
        purges_take_the_marks(c, front, i);
    }
    purges_only_remove(c, front, p);
}

/// What a filter keeps, and what it does not.
proof fn filter_members<T>(s: Seq<T>, keep: spec_fn(T) -> bool, x: T)
    ensures
        s.filter(keep).contains(x) <==> s.contains(x) && keep(x),
{
    if s.contains(x) && keep(x) {
        s.lemma_filter_contains(keep, s.index_of(x));
        assert(s.filter(keep).contains(s[s.index_of(x)]));
    }
    if s.filter(keep).contains(x) {
        s.lemma_filter_contains_rev(keep, x);
        s.lemma_filter_pred(keep, s.filter(keep).index_of(x));
    }
}

/// Records of others stay when those of some transactions are left out.
proof fn without_keeps(records: Seq<Entry>, gone: Set<u64>, i: int)
    requires
        0 <= i < records.len(),
        !gone.contains(mvcc::op_txn(records[i].op)),
    ensures
        mvcc::without(records, gone).contains(records[i]),
    decreases records.len(),
{
    let front = records.drop_last();
    let rest = mvcc::without(front, gone);
    if i < front.len() {
        assert(front[i] == records[i]);
        without_keeps(front, gone, i);
        let k = rest.index_of(records[i]);
        assert(mvcc::without(records, gone)[k] == records[i]);
    } else {
        assert(mvcc::without(records, gone).last() == records[i]);
        assert(mvcc::without(records, gone)[rest.len() as int] == records[i]);
    }
}

/// A sweep drops everything that no active reader can need, and nothing else.
/// A commit, its records and its deletion marks wait exactly as long as a
/// reader is active that began before the commit.
pub proof fn sweep_drops_what_nobody_needs(before: Db, after: Db, w: Pending, g: Grave, e: Entry)
    requires
        before.wf(),
        upkeep::swept(before, after),
    ensures
        after.engine@.pending.contains(w) <==> before.engine@.pending.contains(w) && needed(
            before.engine@,
            w.ts,
        ),
        before.engine@.pending.contains(w) && !needed(before.engine@, w.ts)
            && after.engine@.records.contains(e) ==> mvcc::op_txn(e.op) != w.txn,
        before.engine@.records.contains(e) && !after.engine@.records.contains(e) ==> exists|q: Pending|
            #[trigger] before.engine@.pending.contains(q) && !needed(before.engine@, q.ts) && q.txn
                == mvcc::op_txn(e.op),
        after.graves().contains(g) <==> before.graves().contains(g) && needed(
            before.engine@,
            g.ts,
        ),
        before.graves().contains(g) && !needed(before.engine@, g.ts)
            && before.engine@.live.contains(g.table_id) ==> {
            let p = Place { table: g.table_id, key: g.key };
            after.engine@.rows.dom().contains(p) ==> !(after.engine@.rows[p].tombstone
                && after.engine@.rows[p].txn_id == Some(g.txn))
        },
        forall|x: u64| #[trigger]
            after.engine@.txns.committed.dom().contains(x)
                <==> before.engine@.txns.committed.dom().contains(x) && needed(
                before.engine@,
                before.engine@.txns.committed[x],
            ),
{
    let c = before.engine@;
    let h = c.txns.oldest_active();
    let d = c.pruned(h).vacuumed(h);
    let gs = version::released_graves(before.graves(), h);
    let gone = steps::released_txns(c.pending, h);
    upkeep::purged_all_facts(d, gs);
    purges_keep(d, gs);
    released_is_not_needed(c, w.ts);
    filter_members(c.pending, |p: Pending| !steps::released(h, p.ts), w);
    mvcc::by_lsn_without(c.records, gone);
    if c.pending.contains(w) && !needed(c, w.ts) && after.engine@.records.contains(e) {
        let i = c.pending.index_of(w);
        assert(gone.contains(c.pending[i].txn));
        let k = d.records.index_of(e);
        assert(!gone.contains(mvcc::op_txn(d.records[k].op)));
    }
    if c.records.contains(e) && !after.engine@.records.contains(e) {
        if !gone.contains(mvcc::op_txn(e.op)) {
            without_keeps(c.records, gone, c.records.index_of(e));
        }
        let i = choose|i: int|
            0 <= i < c.pending.len() && (#[trigger] c.pending[i]).txn == mvcc::op_txn(e.op)
                && steps::released(h, c.pending[i].ts);
        released_is_not_needed(c, c.pending[i].ts);
        assert(c.pending.contains(c.pending[i]));
    }
    released_is_not_needed(c, g.ts);
    filter_members(before.graves(), |x: Grave| !steps::released(h, x.ts), g);
    filter_members(before.graves(), |x: Grave| steps::released(h, x.ts), g);
    if before.graves().contains(g) && !needed(c, g.ts) && c.live.contains(g.table_id) {
        let i = gs.index_of(g);
        purges_take_the_marks(d, gs, i);
    }
    assert forall|x: u64| #[trigger]
        after.engine@.txns.committed.dom().contains(x) <==> c.txns.committed.dom().contains(x)
            && needed(c, c.txns.committed[x]) by {
        released_is_not_needed(c, c.txns.committed[x]);
    }
}

/// Purging leaves records and waiting commits as they are.
proof fn purges_keep(c: Core, gs: Seq<Grave>)
    ensures
        upkeep::purged_all(c, gs).records == c.records,
        upkeep::purged_all(c, gs).pending == c.pending,
    decreases gs.len(),
{
    if gs.len() > 0 {
        purges_keep(c, gs.drop_last());
    }
}

// ---------------------------------------------------------------------------
// Failed aborts
// ---------------------------------------------------------------------------

/// What is left of a transaction once all of these aborts are finished, its own
/// among them.
proof fn aborts_are_finished(c: Core, ids: Seq<u64>)
    requires
        c.wf(),
        ids.no_duplicates(),
        forall|i: int| 0 <= i < ids.len() ==> c.txns.aborting.contains(#[trigger] ids[i]),
    ensures
        upkeep::aborted_all(c, ids).wf(),
        forall|v: Viewer, p: Place|
            mvcc::may_look(c.txns, v) ==> #[trigger] upkeep::aborted_all(c, ids).look(v, p)
                == c.look(v, p),
        forall|i: int|
            0 <= i < ids.len() ==> mvcc::none_by(
                upkeep::aborted_all(c, ids).rows,
                #[trigger] ids[i],
            ),
        upkeep::aborted_all(c, ids).records.len() <= c.records.len(),
        forall|i: int|
            0 <= i < upkeep::aborted_all(c, ids).records.len() ==> c.records.contains(
                #[trigger] upkeep::aborted_all(c, ids).records[i],
            ),
    decreases ids.len(),
{
    if ids.len() > 0 {
        let front = ids.drop_last();
        let x = ids.last();
        assert forall|i: int| 0 <= i < front.len() implies c.txns.aborting.contains(
            #[trigger] front[i],
        ) by {
            assert(front[i] == ids[i]);
        }
        aborts_are_finished(c, front);
        upkeep::aborted_all_txns(c, front);
        let d = upkeep::aborted_all(c, front);
        assert(c.txns.aborting.contains(ids[ids.len() - 1]));
        if front.contains(x) {
            let i = front.index_of(x);
            assert(ids[i] == ids[ids.len() - 1]);
        }
        steps::aborted_keeps(d, x);
        degraded::without_is_shorter(d.records, set![x]);
        mvcc::by_lsn_without(d.records, set![x]);
        assert forall|i: int| 0 <= i < d.aborted(x).records.len() implies c.records.contains(
            #[trigger] d.aborted(x).records[i],
        ) by {
            assert(d.records.contains(d.aborted(x).records[i]));
            let k = d.records.index_of(d.aborted(x).records[i]);
            assert(c.records.contains(d.records[k]));
        }
        assert forall|v: Viewer, p: Place| mvcc::may_look(c.txns, v) implies #[trigger] d.aborted(
            x,
        ).look(v, p) == c.look(v, p) by {
            assert(mvcc::may_look(d.txns, v));
            assert(d.look(v, p) == c.look(v, p));
        }
        assert forall|i: int| 0 <= i < ids.len() implies mvcc::none_by(
            d.aborted(x).rows,
            #[trigger] ids[i],
        ) by {
            if i < front.len() {
                assert(front[i] == ids[i]);
                let y = ids[i];
                assert(mvcc::none_by(d.rows, y));
                undoing_brings_back_none(c, d, x, y);
            }
        }
    }
}

/// Undoing one transaction brings back no row of another that was aborting when
/// it wrote.
proof fn undoing_brings_back_none(c: Core, d: Core, x: u64, y: u64)
    requires
        c.wf(),
        d.wf(),
        c.txns.aborting.contains(y),
        x != y,
        mvcc::none_by(d.rows, y),
        forall|i: int| 0 <= i < d.records.len() ==> c.records.contains(#[trigger] d.records[i]),
    ensures
        mvcc::none_by(d.aborted(x).rows, y),
{
    let ops = mvcc::ops_of(d.records, x);
    assert forall|p: Place| #[trigger] d.aborted(x).rows.dom().contains(p) implies d.aborted(
        x,
    ).rows[p].txn_id != Some(TransactionId(y)) by {
        steps::revert_all_rows(d.rows, d.live, ops, x, p);
        let now = d.aborted(x).rows[p];
        if now != d.rows[p] {
            let i = choose|i: int|
                0 <= i < ops.len() && mvcc::op_place((#[trigger] ops[i]).op) == p && !(
                ops[i].op is Add) && mvcc::data_op(ops[i].op) && now == mvcc::pre_image(
                    ops[i].op,
                )->0;
            mvcc::ops_of_members(d.records, x);
            assert(d.records.contains(ops[i]));
            let j = d.records.index_of(ops[i]);
            assert(c.records.contains(d.records[j]));
            let k = c.records.index_of(ops[i]);
            assert(mvcc::record_ok(c, c.records[k]));
            assert(c.txns.unfinished(y));
        }
    }
}

/// Where nothing keeps writes from being taken back, trying the failed aborts
/// again finishes every one: nothing of those transactions is left, what was
/// counted against them is forgotten, writes are refused as little or as much
/// as before, and no reader notices.
pub proof fn retry_finishes_every_abort(before: Db, after: Db, x: u64, v: Viewer, p: Place)
    requires
        before.wf(),
        !before.fail_reverts,
        upkeep::retried(before, after),
    ensures
        !after.engine@.txns.aborting.contains(x),
        after.engine@.txns.active == before.engine@.txns.active,
        before.engine@.txns.aborting.contains(x) ==> mvcc::none_by(after.engine@.rows, x)
            && !after.attempts().dom().contains(x),
        after.trouble().degraded == before.trouble().degraded,
        before.maintenance.abort_retries + before.engine.txns.aborting@.len() <= u64::MAX
            ==> after.maintenance.abort_retries == before.maintenance.abort_retries
            + before.engine.txns.aborting@.len(),
        mvcc::may_look(before.engine@.txns, v) ==> after.engine@.read(v, p)
            == before.engine@.read(v, p),
{
    let c = before.engine@;
    let ids = before.engine.txns.aborting@;
    assert forall|i: int| 0 <= i < ids.len() implies c.txns.aborting.contains(
        #[trigger] ids[i],
    ) by {}
    aborts_are_finished(c, ids);
    upkeep::aborted_all_txns(c, ids);
    finishing_counts(before.trouble(), ids);
    assert(after.attempts() == before.trouble().all_finished(ids).attempts);
    if c.txns.aborting.contains(x) {
        let i = ids.index_of(x);
        assert(mvcc::none_by(after.engine@.rows, ids[i]));
    }
    assert(after.trouble().counts.abort_retries == after.maintenance.abort_retries);
    if mvcc::may_look(c.txns, v) {
        assert(upkeep::aborted_all(c, ids).look(v, p) == c.look(v, p));
    }
}

/// What finished aborts add up to.
proof fn finishing_counts(t: Trouble, ids: Seq<u64>)
    ensures
        t.all_finished(ids).degraded == t.degraded,
        forall|x: u64| #[trigger]
            t.all_finished(ids).attempts.dom().contains(x) ==> t.attempts.dom().contains(x)
                && !ids.contains(x),
        t.counts.abort_retries + ids.len() <= u64::MAX ==> t.all_finished(ids).counts.abort_retries
            == t.counts.abort_retries + ids.len(),
    decreases ids.len(),
{
    if ids.len() > 0 {
        let front = ids.drop_last();
        finishing_counts(t, front);
        assert forall|x: u64| #[trigger]
            t.all_finished(ids).attempts.dom().contains(x) implies t.attempts.dom().contains(x)
            && !ids.contains(x) by {
            assert(t.all_finished(front).attempts.dom().contains(x));
            if ids.contains(x) {
                let i = ids.index_of(x);
                if i < front.len() {
                    assert(front[i] == x);
                }
            }
        }
    }
}

/// While writes cannot be taken back, trying the failed aborts again counts one
/// more failure against each of them and changes no row and no transaction.
/// Writes are refused once three tries of one have failed, and not before.
pub proof fn failed_retries_are_counted(before: Db, after: Db, x: u64)
    requires
        before.wf(),
        before.fail_reverts,
        upkeep::retried(before, after),
        forall|y: u64| #[trigger] before.attempts().dom().contains(y) ==> before.attempts()[y]
            < u32::MAX,
    ensures
        after.engine == before.engine,
        before.engine@.txns.aborting.contains(x) ==> after.attempts().dom().contains(x)
            && after.attempts()[x] == 1 + if before.attempts().dom().contains(x) {
            before.attempts()[x] as int
        } else {
            0
        },
        !before.engine@.txns.aborting.contains(x) ==> (after.attempts().dom().contains(x)
            <==> before.attempts().dom().contains(x)),
        before.degraded is Some ==> after.trouble().degraded == before.trouble().degraded,
        before.degraded is None ==> (after.degraded is Some <==> exists|y: u64| #[trigger]
            before.engine@.txns.aborting.contains(y) && after.attempts()[y] >= 3),
        before.maintenance.errors + before.engine.txns.aborting@.len() <= u64::MAX
            ==> after.maintenance.errors == before.maintenance.errors
            + before.engine.txns.aborting@.len(),
{
    let ids = before.engine.txns.aborting@;
    failing_counts(before.trouble(), ids);
    assert(after.attempts() == before.trouble().all_failed(ids).attempts);
    assert(after.trouble().counts.errors == after.maintenance.errors);
    if before.degraded is None {
        if after.degraded is Some {
            let y = choose|y: u64| #[trigger] ids.contains(y) && after.attempts()[y] >= 3;
            assert(before.engine@.txns.aborting.contains(y));
        }
        if exists|y: u64| #[trigger]
            before.engine@.txns.aborting.contains(y) && after.attempts()[y] >= 3 {
            let y = choose|y: u64| #[trigger]
                before.engine@.txns.aborting.contains(y) && after.attempts()[y] >= 3;
            assert(ids.contains(y));
        }
    }
}

/// What failed aborts add up to.
proof fn failing_counts(t: Trouble, ids: Seq<u64>)
    requires
        ids.no_duplicates(),
        forall|y: u64| #[trigger] t.attempts.dom().contains(y) ==> t.attempts[y] < u32::MAX,
    ensures
        forall|x: u64| #[trigger]
            ids.contains(x) ==> t.all_failed(ids).attempts.dom().contains(x) && t.all_failed(
                ids,
            ).attempts[x] == 1 + if t.attempts.dom().contains(x) {
                t.attempts[x] as int
            } else {
                0
            },
        forall|x: u64|
            !ids.contains(x) ==> (#[trigger] t.all_failed(ids).attempts.dom().contains(x)
                <==> t.attempts.dom().contains(x)) && t.all_failed(ids).attempts[x]
                == t.attempts[x],
        t.degraded is Some ==> t.all_failed(ids).degraded == t.degraded,
        t.degraded is None ==> (t.all_failed(ids).degraded is Some <==> exists|y: u64| #[trigger]
            ids.contains(y) && t.all_failed(ids).attempts[y] >= 3),
        t.counts.errors + ids.len() <= u64::MAX ==> t.all_failed(ids).counts.errors
            == t.counts.errors + ids.len(),
    decreases ids.len(),
{
    if ids.len() > 0 {
        let front = ids.drop_last();
        let last = ids.last();
        failing_counts(t, front);
        if front.contains(last) {
            let i = front.index_of(last);
            assert(ids[i] == ids[ids.len() - 1]);
        }
        assert forall|x: u64| #[trigger] ids.contains(x) <==> front.contains(x) || x == last by {
            if ids.contains(x) {
                let i = ids.index_of(x);
                if i < front.len() {
                    assert(front[i] == x);
                }
            }
            if front.contains(x) {
                assert(ids[front.index_of(x)] == x);
            }
            if x == last {
                assert(ids[ids.len() - 1] == x);
            }
        }
        assert(!t.all_failed(front).attempts.dom().contains(last) <==> !t.attempts.dom().contains(
            last,
        ));
        assert(ids.contains(last));
        assert forall|x: u64| #[trigger] ids.contains(x) implies t.all_failed(
            ids,
        ).attempts.dom().contains(x) && t.all_failed(ids).attempts[x] == 1
            + if t.attempts.dom().contains(x) {
            t.attempts[x] as int
        } else {
            0
        } by {
            if x != last {
                assert(front.contains(x));
            }
        }
        if t.degraded is None {
            if t.all_failed(ids).degraded is Some && t.all_failed(front).degraded is Some {
                let y = choose|y: u64| #[trigger]
                    front.contains(y) && t.all_failed(front).attempts[y] >= 3;
                assert(ids.contains(y));
                assert(t.all_failed(ids).attempts[y] >= 3);
            }
            if exists|y: u64| #[trigger] ids.contains(y) && t.all_failed(ids).attempts[y] >= 3 {
                let y = choose|y: u64| #[trigger]
                    ids.contains(y) && t.all_failed(ids).attempts[y] >= 3;
                if y != last {
                    assert(front.contains(y));
                    assert(t.all_failed(front).attempts[y] == t.all_failed(ids).attempts[y]);
                }
            }
        }
    }
}

// ---------------------------------------------------------------------------
// Limits, and what readers notice
// ---------------------------------------------------------------------------

/// What enforcing the limits does to who is active: nothing, or it takes the
/// oldest down, whose owner will be told.
proof fn limits_take_the_oldest(before: Db, after: Db, now: u128, r: Result<(), Fault>)
    requires
        before.wf(),
        before.room(1),
        before.wal.current.n < u64::MAX,
        upkeep::enforced(before, after, now, r),
    ensures
        upkeep::over_limit(before) is None || before.engine@.txns.oldest_active() is None
            ==> after == before && r == Ok::<(), Fault>(()),
        upkeep::over_limit(before) is Some ==> (before.engine@.txns.oldest_active() matches Some(
            x,
        ) ==> {
            &&& !after.engine@.txns.active.dom().contains(x)
            &&& forall|y: u64|
                y != x ==> (#[trigger] after.engine@.txns.active.dom().contains(y)
                    <==> before.engine@.txns.active.dom().contains(y))
            &&& after.forced().dom() == before.forced().dom().insert(x)
            &&& !before.fail_reverts ==> after.snapshot_too_old_aborts
                == before.snapshot_too_old_aborts.wrapping_add(1)
            &&& r == Ok::<(), Fault>(()) ==> after.last_checkpoint == now
        }),
        forall|v: Viewer, p: Place|
            mvcc::may_look(after.engine@.txns, v) ==> #[trigger] after.engine@.read(v, p)
                == before.engine@.read(v, p),
{
    match (upkeep::over_limit(before), before.engine@.txns.oldest_active()) {
        (Some(why), Some(x)) => {
            let (noted, undone) = choose|noted: Db, undone: Db|
                {
                    &&& noted == Db { forced_aborts: noted.forced_aborts, ..before }
                    &&& noted.forced() == before.forced().insert(x, upkeep::too_old_text(x, why))
                    &&& #[trigger] db::rolled_back(noted, undone, x, db::abort_fault(before, x))
                    &&& noted.wf()
                    &&& undone.wf()
                    &&& match db::abort_fault(before, x) {
                        Some(f) => after == undone && r == Err::<(), Fault>(f),
                        None => {
                            let counted = Db {
                                snapshot_too_old_aborts:
                                    before.snapshot_too_old_aborts.wrapping_add(1),
                                ..undone
                            };
                            match r {
                                Ok(()) => checkpoint::checkpointed(counted, after, now),
                                Err(f) => checkpoint::catalog_of(counted) == Err::<Sheet, Fault>(f)
                                    && after == counted,
                            }
                        },
                    }
                };
            oldest_is_least(before.engine@);
            writes::rollback_is_unseen(noted, undone, x, db::abort_fault(before, x));
            assert(noted.engine@ == before.engine@);
            let d = undone.engine@;
            assert(after.engine@.txns == d.txns);
            assert(after.engine@.rows == d.rows);
            assert(after.engine@.records == d.records);
            assert(after.forced() == undone.forced());
            assert(undone.forced() == noted.forced());
            assert forall|v: Viewer, p: Place|
                mvcc::may_look(after.engine@.txns, v) implies #[trigger] after.engine@.read(v, p)
                == before.engine@.read(v, p) by {
                assert(after.engine@.read(v, p) == d.read(v, p));
                assert(v != Viewer::Reader(x));
                assert(mvcc::may_look(before.engine@.txns, v));
                assert(d.read(v, p) == noted.engine@.read(v, p));
            }
        },
        _ => {},
    }
}

/// The states that a pass goes through before it enforces the limits, which is
/// all that is left to do, unless the tables no longer fit the catalog.
#[verifier::rlimit(60)]
proof fn pass_steps(before: Db, after: Db, now: u128, r: Result<(), Fault>) -> (t: (Db, Db, Db))
    requires
        before.wf(),
        before.room(upkeep::pass_numbers(before)),
        before.wal.current.n < u64::MAX - 1,
        upkeep::passed(before, after, now, r),
    ensures
        upkeep::retried(before, t.0),
        upkeep::swept(t.0, t.1),
        t.0.wf(),
        t.1.wf(),
        t.1.wal == before.wal,
        t.2.wf(),
        t.2.room(1),
        t.2.wal.current.n < u64::MAX,
        t.2.engine@ == t.1.engine@,
        t.2.forced_aborts == before.forced_aborts,
        t.2.snapshot_limits == before.snapshot_limits,
        t.2.fail_reverts == before.fail_reverts,
        t.2.snapshot_too_old_aborts == before.snapshot_too_old_aborts,
        before.wal.segment_bytes <= 16777216 ==> t.2 == t.1,
        upkeep::enforced(t.2, after, now, r) || (before.wal.segment_bytes > 16777216 && after == t.2
            && r is Err),
{
    let (a, b) = pass_parts(before, after, now, r);
    assert(b.wal == before.wal);
    assert(b.room(1)) by {
        upkeep::aborted_all_txns(before.engine@, before.engine.txns.aborting@);
        let h = a.engine@.txns.oldest_active();
        let c = a.engine@.pruned(h).vacuumed(h);
        upkeep::purged_all_facts(c, version::released_graves(a.graves(), h));
        upkeep::filtered_ok(a.engine@, a.graves(), |g: Grave| steps::released(h, g.ts));
    }
    if before.wal.segment_bytes <= 16777216 || checkpoint::catalog_of(b) is Err {
        (a, b, b)
    } else {
        let mid = choose|mid: Db|
            {
                &&& #[trigger] checkpoint::checkpointed(b, mid, now)
                &&& mid.wf()
                &&& upkeep::enforced(
                    Db {
                        maintenance: MaintenanceStats {
                            checkpoints: mid.maintenance.checkpoints.wrapping_add(1),
                            ..mid.maintenance
                        },
                        ..mid
                    },
                    after,
                    now,
                    r,
                )
            };
        let m = Db {
            maintenance: MaintenanceStats {
                checkpoints: mid.maintenance.checkpoints.wrapping_add(1),
                ..mid.maintenance
            },
            ..mid
        };
        let log = wal::ran(b.log(), wal::record_msgs(b.queued()), 0);
        wal::records_in_batches(b.log(), b.queued(), 0);
        assert(log.wal.current.n == b.wal.current.n);
        assert(mid.log().wal.current.n == log.wal.current.n + 1);
        (a, b, m)
    }
}

/// What the end of a pass does to who is active and what is read.
proof fn limits_take_the_oldest_or_none(before: Db, after: Db, now: u128, r: Result<(), Fault>)
    requires
        before.wf(),
        before.room(1),
        before.wal.current.n < u64::MAX,
        upkeep::enforced(before, after, now, r) || (after == before && r is Err),
    ensures
        upkeep::enforced(before, after, now, r) && (upkeep::over_limit(before) is None
            || before.engine@.txns.oldest_active() is None) ==> after == before && r == Ok::<
            (),
            Fault,
        >(()),
        upkeep::enforced(before, after, now, r) && upkeep::over_limit(before) is Some ==> (
        before.engine@.txns.oldest_active() matches Some(x) ==> {
            &&& !after.engine@.txns.active.dom().contains(x)
            &&& forall|y: u64|
                y != x ==> (#[trigger] after.engine@.txns.active.dom().contains(y)
                    <==> before.engine@.txns.active.dom().contains(y))
            &&& after.forced().dom() == before.forced().dom().insert(x)
            &&& !before.fail_reverts ==> after.snapshot_too_old_aborts
                == before.snapshot_too_old_aborts.wrapping_add(1)
            &&& r == Ok::<(), Fault>(()) ==> after.last_checkpoint == now
        }),
        !upkeep::enforced(before, after, now, r) ==> after == before,
        forall|v: Viewer, p: Place|
            mvcc::may_look(after.engine@.txns, v) ==> #[trigger] after.engine@.read(v, p)
                == before.engine@.read(v, p),
{
    if upkeep::enforced(before, after, now, r) {
        limits_take_the_oldest(before, after, now, r);
    }
}

/// Purging marks that everybody sees changes no read.
proof fn purges_change_no_read(c: Core, gs: Seq<Grave>, horizon: Option<u64>)
    requires
        c.wf(),
        steps::graves_ok(c, gs),
        steps::horizon_ok(c.txns, horizon),
        forall|i: int| 0 <= i < gs.len() ==> steps::released(horizon, (#[trigger] gs[i]).ts),
    ensures
        upkeep::purged_all(c, gs).wf(),
        forall|v: Viewer, p: Place|
            mvcc::may_look(c.txns, v) ==> #[trigger] upkeep::purged_all(c, gs).read(v, p)
                == c.read(v, p),
    decreases gs.len(),
{
    if gs.len() > 0 {
        let front = gs.drop_last();
        let g = gs.last();
        let at = Place { table: g.table_id, key: g.key };
        assert(steps::grave_ok(c, gs[gs.len() - 1]));
        assert(steps::released(horizon, gs[gs.len() - 1].ts));
        assert forall|i: int| 0 <= i < front.len() implies steps::grave_ok(
            c,
            #[trigger] front[i],
        ) by {
            assert(steps::grave_ok(c, gs[i]));
        }
        assert forall|i: int| 0 <= i < front.len() implies steps::released(
            horizon,
            (#[trigger] front[i]).ts,
        ) by {
            assert(front[i] == gs[i]);
        }
        purges_change_no_read(c, front, horizon);
        upkeep::purged_all_facts(c, front);
        let d = upkeep::purged_all(c, front);
        steps::tick_keeps(d);
        steps::tick_keeps(d.tick());
        let e = d.tick().tick();
        if d.live.contains(g.table_id) && engine::purge_applies(d.rows, g) {
            if d.rows.dom().contains(at) {
                assert forall|v: Viewer| #[trigger] mvcc::may_look(e.txns, v) implies mvcc::sees(
                    e.txns,
                    v,
                    (e.rows[at].txn_id->0).0,
                ) by {
                    steps::released_is_seen(c, g, horizon, v);
                }
                steps::purged_keeps(e, at);
            } else {
                assert(e.rows.remove(at) =~= e.rows);
            }
        }
        let f = upkeep::purged_all(c, gs);
        assert forall|v: Viewer, p: Place| mvcc::may_look(c.txns, v) implies #[trigger] f.read(
            v,
            p,
        ) == c.read(v, p) by {
            assert(d.read(v, p) == c.read(v, p));
            assert(d.tick().look(v, p) == d.look(v, p));
            assert(e.look(v, p) == d.tick().look(v, p));
            assert(mvcc::may_look(e.txns, v));
            if f == e.purged(at) && d.rows.dom().contains(at) && engine::purge_applies(d.rows, g) {
                assert(e.purged(at).read(v, p) == e.read(v, p));
            }
        }
    }
}

/// A sweep changes no read.
proof fn sweep_changes_no_read(before: Db, after: Db)
    requires
        before.wf(),
        upkeep::swept(before, after),
    ensures
        forall|v: Viewer, p: Place|
            mvcc::may_look(before.engine@.txns, v) ==> #[trigger] after.engine@.read(v, p)
                == before.engine@.read(v, p),
{
    let c = before.engine@;
    let h = c.txns.oldest_active();
    oldest_is_least(c);
    steps::pruned_keeps(c, h);
    let d = c.pruned(h);
    steps::vacuumed_keeps(d, h);
    let e = d.vacuumed(h);
    steps::graves_stay(c, e, before.graves());
    upkeep::filtered_ok(e, before.graves(), |g: Grave| steps::released(h, g.ts));
    purges_change_no_read(e, version::released_graves(before.graves(), h), h);
    assert forall|v: Viewer, p: Place| mvcc::may_look(c.txns, v) implies #[trigger] after.engine@.read(
        v,
        p,
    ) == c.read(v, p) by {
        assert(d.look(v, p) == c.look(v, p));
        assert(mvcc::may_look(d.txns, v));
        assert(e.look(v, p) == d.look(v, p));
        assert(mvcc::may_look(e.txns, v));
    }
}

/// No reader that is still there after a pass notices it, and neither does who
/// looks for what has committed: at every place they read what they read
/// before, whatever the pass dropped, undid, saved or failed on.
#[verifier::rlimit(60)]
pub proof fn pass_changes_no_read(
    before: Db,
    after: Db,
    now: u128,
    r: Result<(), Fault>,
    v: Viewer,
    p: Place,
)
    requires
        before.wf(),
        before.room(upkeep::pass_numbers(before)),
        before.wal.current.n < u64::MAX - 1,
        upkeep::passed(before, after, now, r),
        mvcc::may_look(after.engine@.txns, v),
    ensures
        mvcc::may_look(before.engine@.txns, v),
        after.engine@.read(v, p) == before.engine@.read(v, p),
{
    let (a, b, m) = pass_steps(before, after, now, r);
    limits_take_the_oldest_or_none(m, after, now, r);
    assert(mvcc::may_look(m.engine@.txns, v));
    assert(m.engine@.read(v, p) == b.engine@.read(v, p));
    sweep_changes_no_read(a, b);
    degraded::sweeping_frees(a, b);
    assert(mvcc::may_look(a.engine@.txns, v));
    assert(b.engine@.read(v, p) == a.engine@.read(v, p));
    if before.fail_reverts {
        assert(a.engine == before.engine);
    } else {
        retry_finishes_every_abort(before, a, 0, v, p);
    }
}

/// A pass takes down the oldest active transaction at most. While the log and
/// the version records are within their limits, and the log is not so long that
/// a checkpoint is due, it takes down none.
#[verifier::rlimit(60)]
pub proof fn pass_ends_the_oldest_at_most(
    before: Db,
    after: Db,
    now: u128,
    r: Result<(), Fault>,
    y: u64,
)
    requires
        before.wf(),
        before.room(upkeep::pass_numbers(before)),
        before.wal.current.n < u64::MAX - 1,
        upkeep::passed(before, after, now, r),
    ensures
        after.engine@.txns.active.dom().contains(y) ==> before.engine@.txns.active.dom().contains(y),
        before.engine@.txns.active.dom().contains(y) && !after.engine@.txns.active.dom().contains(y)
            ==> mvcc::is_least(before.engine@.txns.active.dom(), y) && after.forced().dom().contains(
            y,
        ),
        before.wal.segment_bytes <= 16777216 && upkeep::retained(before)
            <= before.snapshot_limits.max_retained_wal_bytes && before.engine@.records.len()
            <= before.snapshot_limits.max_version_records
            ==> after.engine@.txns.active == before.engine@.txns.active && after.forced()
            == before.forced() && r == Ok::<(), Fault>(()),
{
    let (a, b, m) = pass_steps(before, after, now, r);
    limits_take_the_oldest_or_none(m, after, now, r);
    degraded::sweeping_frees(a, b);
    oldest_is_least(before.engine@);
    oldest_is_least(m.engine@);
    records_do_not_grow(before, a);
    assert(a.engine@.txns.active == before.engine@.txns.active);
    assert(b.wal == before.wal);
    assert(upkeep::retained(b) == upkeep::retained(before));
}

/// Where the log takes more than it may, and somebody is active, a pass takes
/// the oldest transaction down, notes it for its owner, counts it and takes a
/// checkpoint, and leaves the others.
#[verifier::rlimit(60)]
pub proof fn too_long_a_log_ends_the_oldest(
    before: Db,
    after: Db,
    now: u128,
    x: u64,
    y: u64,
)
    requires
        before.wf(),
        before.room(upkeep::pass_numbers(before)),
        before.wal.current.n < u64::MAX - 1,
        before.wal.segment_bytes <= 16777216,
        upkeep::retained(before) > before.snapshot_limits.max_retained_wal_bytes,
        mvcc::is_least(before.engine@.txns.active.dom(), x),
        upkeep::passed(before, after, now, Ok::<(), Fault>(())),
    ensures
        !after.engine@.txns.active.dom().contains(x),
        after.forced().dom().contains(x),
        y != x ==> (after.engine@.txns.active.dom().contains(y)
            <==> before.engine@.txns.active.dom().contains(y)),
        !before.fail_reverts ==> after.snapshot_too_old_aborts
            == before.snapshot_too_old_aborts.wrapping_add(1),
        after.last_checkpoint == now,
{
    let r = Ok::<(), Fault>(());
    let (a, b, m) = pass_steps(before, after, now, r);
    limits_take_the_oldest_or_none(m, after, now, r);
    degraded::sweeping_frees(a, b);
    records_do_not_grow(before, a);
    mvcc::least_is(before.engine@.txns.active.dom(), x);
    assert(b.wal == before.wal);
    assert(upkeep::retained(b) == upkeep::retained(before));
}

/// Where a pass succeeds and takes nobody down although somebody is active, the
/// log and the version records are within their limits when it returns.
#[verifier::rlimit(60)]
pub proof fn pass_enforces_limits(before: Db, after: Db, now: u128, x: u64)
    requires
        before.wf(),
        before.room(upkeep::pass_numbers(before)),
        before.wal.current.n < u64::MAX - 1,
        before.engine@.txns.active.dom().contains(x),
        after.engine@.txns.active == before.engine@.txns.active,
        upkeep::passed(before, after, now, Ok::<(), Fault>(())),
    ensures
        upkeep::retained(after) <= after.snapshot_limits.max_retained_wal_bytes,
        after.engine@.records.len() <= after.snapshot_limits.max_version_records,
        after.snapshot_limits == before.snapshot_limits,
{
    let r = Ok::<(), Fault>(());
    let (a, b, m) = pass_steps(before, after, now, r);
    limits_take_the_oldest_or_none(m, after, now, r);
    degraded::sweeping_frees(a, b);
    records_do_not_grow(before, a);
    oldest_is_least(m.engine@);
    assert(m.engine@.txns.active.dom().contains(x));
}

/// Trying aborts again adds no record and leaves who is active.
proof fn records_do_not_grow(before: Db, after: Db)
    requires
        before.wf(),
        upkeep::retried(before, after),
    ensures
        after.engine@.records.len() <= before.engine@.records.len(),
        after.engine@.txns.active == before.engine@.txns.active,
{
    if !before.fail_reverts {
        let ids = before.engine.txns.aborting@;
        assert forall|i: int| 0 <= i < ids.len() implies before.engine@.txns.aborting.contains(
            #[trigger] ids[i],
        ) by {}
        aborts_are_finished(before.engine@, ids);
        upkeep::aborted_all_txns(before.engine@, ids);
    }
}

/// A sweep counts what it did: the commits that it forgot, the records that it
/// dropped and the deletion marks that it purged, and itself if there were any.
pub proof fn sweep_counts_what_it_did(before: Db, after: Db)
    requires
        before.wf(),
        upkeep::swept(before, after),
    ensures
        ({
            let forgotten = before.engine@.pending.len() - after.engine@.pending.len();
            let discarded = before.engine@.records.len() - after.engine@.records.len();
            let purged = before.graves().len() - after.graves().len();
            let m = before.maintenance;
            let n = after.maintenance;
            &&& forgotten >= 0 && discarded >= 0 && purged >= 0
            &&& n.transactions_forgotten == m.transactions_forgotten.wrapping_add(forgotten as u64)
            &&& n.records_discarded == m.records_discarded.wrapping_add(discarded as u64)
            &&& n.tombstones_purged == m.tombstones_purged.wrapping_add(purged as u64)
            &&& n.vacuums_with_work == if forgotten > 0 || purged > 0 {
                m.vacuums_with_work.wrapping_add(1)
            } else {
                m.vacuums_with_work
            }
            &&& n.passes == m.passes && n.errors == m.errors && n.abort_retries == m.abort_retries
                && n.checkpoints == m.checkpoints
        }),
{
    let c = before.engine@;
    let h = c.txns.oldest_active();
    let d = c.pruned(h).vacuumed(h);
    let gs = version::released_graves(before.graves(), h);
    let gone = steps::released_txns(c.pending, h);
    let m = before.maintenance@;
    let n = after.maintenance@;
    purges_keep(d, gs);
    degraded::without_is_shorter(c.records, gone);
    let released = c.pending.filter(|p: Pending| steps::released(h, p.ts));
    two_halves(
        c.pending,
        |p: Pending| steps::released(h, p.ts),
        |p: Pending| !steps::released(h, p.ts),
    );
    two_halves(
        before.graves(),
        |g: Grave| steps::released(h, g.ts),
        |g: Grave| !steps::released(h, g.ts),
    );
    assert(c.pending.len() == released.len() + d.pending.len());
    assert(before.graves().len() == gs.len() + after.graves().len());
    if c.pending.len() == d.pending.len() {
        assert forall|x: u64| !gone.contains(x) by {
            if gone.contains(x) {
                let i = choose|i: int|
                    0 <= i < c.pending.len() && (#[trigger] c.pending[i]).txn == x
                        && steps::released(h, c.pending[i].ts);
                filter_members(
                    c.pending,
                    |p: Pending| steps::released(h, p.ts),
                    c.pending[i],
                );
                assert(released.contains(c.pending[i]));
                assert(released.len() > 0);
            }
        }
        without_nothing(c.records, gone);
    }
    assert(n.transactions_forgotten == after.maintenance.transactions_forgotten);
    assert(m.transactions_forgotten == before.maintenance.transactions_forgotten);
    assert(m.records_discarded.wrapping_add(0) == m.records_discarded);
    assert(m.transactions_forgotten.wrapping_add(0) == m.transactions_forgotten);
}

/// What is kept and what is not make up the whole.
proof fn two_halves<T>(s: Seq<T>, one: spec_fn(T) -> bool, other: spec_fn(T) -> bool)
    requires
        forall|x: T| #[trigger] one(x) <==> !other(x),
    ensures
        s.filter(one).len() + s.filter(other).len() == s.len(),
    decreases s.len(),
{
    reveal(Seq::filter);
    if s.len() > 0 {
        two_halves(s.drop_last(), one, other);
        assert(one(s.last()) <==> !other(s.last()));
    }
}

/// Leaving out nobody leaves everything.
proof fn without_nothing(records: Seq<Entry>, gone: Set<u64>)
    requires
        forall|x: u64| !gone.contains(x),
    ensures
        mvcc::without(records, gone) == records,
    decreases records.len(),
{
    if records.len() > 0 {
        without_nothing(records.drop_last(), gone);
        assert(records.drop_last().push(records.last()) =~= records);
    } else {
        assert(mvcc::without(records, gone) =~= records);
    }
}

/// Trying aborts again counts no pass.
proof fn retries_count_no_pass(t: Trouble, ids: Seq<u64>)
    ensures
        t.all_finished(ids).counts.passes == t.counts.passes,
        t.all_failed(ids).counts.passes == t.counts.passes,
        t.all_finished(ids).counts.errors == t.counts.errors,
        t.all_finished(ids).counts.last_error == t.counts.last_error,
    decreases ids.len(),
{
    if ids.len() > 0 {
        retries_count_no_pass(t, ids.drop_last());
    }
}

/// Every run of maintenance is counted once. One whose pass fails counts one
/// error more and keeps its message; one whose pass succeeds, with no abort
/// that fails, leaves errors as they were.
pub proof fn every_run_is_counted(
    before: Db,
    mid: Db,
    after: Db,
    now: u128,
    r: Result<(), Fault>,
)
    requires
        upkeep::passed(before, mid, now, r),
        upkeep::noted(mid, after, r),
    ensures
        after.maintenance.passes == before.maintenance.passes.wrapping_add(1),
        r is Ok ==> after.maintenance.errors == mid.maintenance.errors
            && maintenance::opt_text(after.maintenance.last_error) == maintenance::opt_text(
            mid.maintenance.last_error,
        ),
        r matches Err(f) ==> after.maintenance.errors == mid.maintenance.errors.wrapping_add(1)
            && maintenance::opt_text(after.maintenance.last_error) == Some(error::fault_text(f)),
        !before.fail_reverts ==> mid.maintenance.errors == before.maintenance.errors,
        after.engine == mid.engine,
{
    let (a, b) = pass_parts(before, mid, now, r);
    retries_count_no_pass(before.trouble(), before.engine.txns.aborting@);
    assert(a.trouble().counts == a.maintenance@);
    assert(a.maintenance@.passes == before.maintenance@.passes);
    assert(b.maintenance@.passes == a.maintenance@.passes);
    assert(b.maintenance@.errors == a.maintenance@.errors);
    assert(mid.maintenance@.passes == b.maintenance@.passes && mid.maintenance@.errors
        == b.maintenance@.errors);
    assert(after.maintenance@.passes == after.maintenance.passes);
    assert(after.maintenance@.errors == after.maintenance.errors);
    assert(after.maintenance@.last_error == maintenance::opt_text(after.maintenance.last_error));
}

} // verus!

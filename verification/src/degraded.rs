//! What failed aborts come to over several passes of maintenance.

use vstd::prelude::*;

use crate::checkpoint;
use crate::db;
use crate::db::{Db, Durability};
use crate::error::Fault;
use crate::maintenance;
use crate::mvcc;
use crate::mvcc::{Core, Grave};
use crate::operation::{Entry, Op};
use crate::steps;
use crate::table::TableIdType;
use crate::tuple::Row;
use crate::txn;
use crate::upkeep;
use crate::version;

verus! {

/// Is there nothing that a pass could fail on, but for aborts? No checkpoint is
/// due and no limit is exceeded; or else no transaction is active that could be
/// rolled back for it, and the catalog fits its page if it has to be saved.
pub open spec fn calm(db: Db) -> bool {
    let due = db.wal.segment_bytes > upkeep::CHECKPOINT_LOG_BYTES;
    ||| !due && upkeep::over_limit(db) is None
    ||| db.engine@.txns.oldest_active() is None && (due ==> checkpoint::catalog_of(db) is Ok)
}

/// A transaction's abort failed, it is the only one of its kind, and it cannot
/// succeed for now.
pub open spec fn stuck(db: Db, x: u64) -> bool {
    db.fail_reverts && db.engine.txns.aborting@ == seq![x]
}

/// Leaving records out leaves no more of them.
pub proof fn without_is_shorter(records: Seq<Entry>, gone: Set<u64>)
    ensures
        mvcc::without(records, gone).len() <= records.len(),
    decreases records.len(),
{
    if records.len() > 0 {
        without_is_shorter(records.drop_last(), gone);
    }
}

/// Purging leaves the records as they are.
proof fn purges_keep_records(c: Core, gs: Seq<Grave>)
    ensures
        upkeep::purged_all(c, gs).records == c.records,
    decreases gs.len(),
{
    if gs.len() > 0 {
        purges_keep_records(c, gs.drop_last());
    }
}

/// Dropping what nobody needs adds no record and changes no transaction.
pub proof fn sweeping_frees(before: Db, after: Db)
    requires
        upkeep::swept(before, after),
    ensures
        after.engine@.records.len() <= before.engine@.records.len(),
        after.engine@.txns.active == before.engine@.txns.active,
        after.engine@.txns.aborting == before.engine@.txns.aborting,
{
    let horizon = before.engine@.txns.oldest_active();
    let p = before.engine@.pruned(horizon);
    let c = p.vacuumed(horizon);
    let gs = version::released_graves(before.graves(), horizon);
    without_is_shorter(p.records, steps::released_txns(p.pending, horizon));
    purges_keep_records(c, gs);
    upkeep::purged_all_facts(c, gs);
}

/// A list without repetition that holds only one number is that number.
proof fn only_one(s: Seq<u64>, x: u64)
    requires
        s.no_duplicates(),
        forall|y: u64| #[trigger] s.contains(y) <==> y == x,
    ensures
        s == seq![x],
{
    assert(s.contains(x));
    assert forall|i: int| 0 <= i < s.len() implies #[trigger] s[i] == x by {
        assert(s.contains(s[i]));
    }
    if s.len() >= 2 {
        assert(s[0] == s[1]);
    }
    assert(s =~= seq![x]);
}

/// A finished abort leaves the refusal of writes as it is.
proof fn finishing_keeps_refusal(t: upkeep::Trouble, ids: Seq<u64>)
    ensures
        t.all_finished(ids).degraded == t.degraded,
    decreases ids.len(),
{
    if ids.len() > 0 {
        finishing_keeps_refusal(t, ids.drop_last());
    }
}

/// Another failed abort leaves the reason why writes are refused as it is.
proof fn failing_keeps_refusal(t: upkeep::Trouble, ids: Seq<u64>)
    ensures
        t.degraded is Some ==> t.all_failed(ids).degraded == t.degraded,
    decreases ids.len(),
{
    if ids.len() > 0 {
        failing_keeps_refusal(t, ids.drop_last());
    }
}

/// Once writes are refused they stay refused, for the same reason: no pass
/// lifts that, not even one in which every failed abort is finished.
pub proof fn degraded_is_for_good(before: Db, after: Db, now: u128, r: Result<(), Fault>)
    requires
        before.degraded is Some,
        upkeep::passed(before, after, now, r),
    ensures
        maintenance::opt_text(after.degraded) == maintenance::opt_text(before.degraded),
{
    let (a, b) = choose|a: Db, b: Db|
        {
            &&& #[trigger] upkeep::retried(before, a)
            &&& #[trigger] upkeep::swept(a, b)
            &&& a.wf()
            &&& b.wf()
            &&& upkeep::trimmed(b, after, now, r)
        };
    failing_keeps_refusal(before.trouble(), before.engine.txns.aborting@);
    finishing_keeps_refusal(before.trouble(), before.engine.txns.aborting@);
    assert(a.trouble().degraded == before.trouble().degraded);
    assert(after.degraded == b.degraded);
}

/// What the end of a pass leaves as it was, unless it fails.
proof fn trimming_keeps(before: Db, after: Db, now: u128, r: Result<(), Fault>)
    requires
        upkeep::trimmed(before, after, now, r),
        before.fail_reverts,
    ensures
        after.fail_reverts,
        after.degraded == before.degraded,
        after.abort_attempts == before.abort_attempts,
        r == Ok::<(), Fault>(()) ==> after.engine@.txns.aborting == before.engine@.txns.aborting,
        calm(before) ==> r == Ok::<(), Fault>(()) && calm(after),
{
}

/// A pass in which the one failed abort fails again counts the failure. With
/// the last one that is allowed it refuses writes from then on, for a reason
/// that names the transaction, how often its abort failed and what the last
/// error was; before that it refuses none. The pass itself succeeds, unless
/// there is something else that it fails on.
pub proof fn failed_retry_is_counted(before: Db, after: Db, now: u128, r: Result<(), Fault>, x: u64)
    requires
        before.wf(),
        after.wf(),
        stuck(before, x),
        upkeep::passed(before, after, now, r),
    ensures
        after.attempts() == before.attempts().insert(
            x,
            upkeep::next_attempt(before.attempts(), x),
        ),
        before.degraded is None ==> maintenance::opt_text(after.degraded) == if upkeep::next_attempt(
            before.attempts(),
            x,
        ) >= upkeep::ABORT_RETRY_BUDGET {
            Some(upkeep::degraded_text(x, upkeep::next_attempt(before.attempts(), x)))
        } else {
            None::<Seq<char>>
        },
        calm(before) ==> r == Ok::<(), Fault>(()) && calm(after),
        r == Ok::<(), Fault>(()) ==> stuck(after, x),
{
    let (a, b) = choose|a: Db, b: Db|
        {
            &&& #[trigger] upkeep::retried(before, a)
            &&& #[trigger] upkeep::swept(a, b)
            &&& a.wf()
            &&& b.wf()
            &&& upkeep::trimmed(b, after, now, r)
        };
    let ids = before.engine.txns.aborting@;
    let t = before.trouble();
    assert(ids.drop_last() =~= seq![]);
    assert(t.all_failed(ids.drop_last()) == t);
    assert(t.all_failed(ids) == t.failed(x));
    sweeping_frees(a, b);
    trimming_keeps(b, after, now, r);
    assert(calm(before) ==> calm(b));
    if r == Ok::<(), Fault>(()) {
        let left = after.engine.txns.aborting@;
        assert forall|y: u64| #[trigger] left.contains(y) <==> y == x by {
            assert(ids[0] == x);
            assert(ids.contains(y) <==> y == x);
            assert(txn::members(left).contains(y) == txn::members(ids).contains(y));
        }
        only_one(left, x);
    }
}

/// An abort that keeps failing is tried again by each pass, and the passes go
/// on as ever: after the first and the second writes are still accepted, and
/// from the third on they are refused. The passes succeed, unless there is
/// something else that they fail on.
pub proof fn third_failed_retry_degrades(
    d0: Db,
    d1: Db,
    d2: Db,
    d3: Db,
    now: Seq<u128>,
    r: Seq<Result<(), Fault>>,
    x: u64,
)
    requires
        d0.wf(),
        d1.wf(),
        d2.wf(),
        d3.wf(),
        stuck(d0, x),
        d0.degraded is None,
        !d0.attempts().dom().contains(x),
        upkeep::passed(d0, d1, now[0], r[0]),
        upkeep::passed(d1, d2, now[1], r[1]),
        upkeep::passed(d2, d3, now[2], r[2]),
        calm(d0) || (r[0] == Ok::<(), Fault>(()) && r[1] == Ok::<(), Fault>(())),
    ensures
        d1.degraded is None,
        d2.degraded is None,
        maintenance::opt_text(d3.degraded) == Some(upkeep::degraded_text(x, 3)),
        calm(d0) ==> r[0] == Ok::<(), Fault>(()) && r[1] == Ok::<(), Fault>(()) && r[2] == Ok::<
            (),
            Fault,
        >(()),
{
    failed_retry_is_counted(d0, d1, now[0], r[0], x);
    failed_retry_is_counted(d1, d2, now[1], r[1], x);
    failed_retry_is_counted(d2, d3, now[2], r[2], x);
}

/// While writes are refused, a transaction that is active cannot write to a
/// table that exists, and no transaction can commit: both are told the reason,
/// and no row changes and no record is logged. Reads are answered as ever:
/// neither who may read nor what is read depends on it.
pub proof fn degraded_refuses_writes_only(
    before: Db,
    wrote: Db,
    done: Db,
    table: TableIdType,
    x: u64,
    plan: Result<(Op, Row), Fault>,
    durability: Durability,
    write: Option<Fault>,
    commit: Option<Fault>,
    why: String,
)
    requires
        before.degraded == Some(why),
        db::wrote_row(before, wrote, table, x, plan, write),
        db::committed(before, done, x, durability, commit),
    ensures
        db::may_read(before, table, x) ==> {
            &&& write == Some(Fault::EngineDegraded(why@))
            &&& wrote.engine@.rows == before.engine@.rows
            &&& wrote.queued() == before.queued()
        },
        commit == Some(Fault::EngineDegraded(why@)),
        done == before,
        db::may_read(before, table, x) == db::may_read(Db { degraded: None, ..before }, table, x),
        (Db { degraded: None, ..before }).engine@ == before.engine@,
{
}

} // verus!

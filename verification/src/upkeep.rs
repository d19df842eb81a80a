//! The work that goes on behind the transactions: aborts that failed are tried
//! again, what nobody needs is dropped, and the log is kept short.
use vstd::prelude::*;
use vstd::string::*;

use crate::assoc;
use crate::checkpoint;
use crate::clock::LsnId;
use crate::db;
use crate::db::{Attempts, Db, ForcedAbort, SnapshotLimits};
use crate::engine;
use crate::error;
use crate::error::{Fault, StoreError};
use crate::framing;
use crate::maintenance;
use crate::maintenance::{Counts, MaintenanceStats};
use crate::mvcc;
use crate::mvcc::{Core, Grave, Viewer};
use crate::operation::{Entry, Op};
use crate::page::Sheet;
use crate::passes;
use crate::schema;
use crate::steps;
use crate::text;
use crate::text::push_decimal;
use crate::txn::TransactionId;
use crate::version;
use crate::wal;

verus! {

/// A checkpoint is due once the newest segment of the log is larger.
pub const CHECKPOINT_LOG_BYTES: u64 = 16777216;

/// So often may an abort fail before writes are refused.
pub const ABORT_RETRY_BUDGET: u32 = 3;

// ---------------------------------------------------------------------------
// Aborts that failed
// ---------------------------------------------------------------------------

/// What the database knows of aborts that failed.
#[verifier::ext_equal]
pub struct Trouble {
    pub counts: Counts,
    pub attempts: Map<u64, u32>,
    pub degraded: Option<Seq<char>>,
}

/// The error of a write that cannot be taken back, as it is printed.
pub open spec fn cause_text() -> Seq<char> {
    error::fault_text(Fault::Unknown(db::revert_text()))
}

/// The message for an abort that failed once more.
pub open spec fn retry_text(x: u64) -> Seq<char> {
    "retrying abort of "@ + text::decimal(x as nat) + ": "@ + cause_text()
}

/// Why writes are refused.
pub open spec fn degraded_text(x: u64, n: u32) -> Seq<char> {
    "abort of "@ + text::decimal(x as nat) + " failed "@ + text::decimal(n as nat)
        + " times (last: "@ + cause_text()
        + "); its rows stay invisible and writes are refused until restart"@
}

/// How often the abort of `x` has failed, once it failed again.
pub open spec fn next_attempt(m: Map<u64, u32>, x: u64) -> u32 {
    if !m.dom().contains(x) {
        1
    } else if m[x] < u32::MAX {
        (m[x] + 1) as u32
    } else {
        u32::MAX
    }
}

impl Trouble {
    /// Once the abort of `x` was finished after all.
    pub open spec fn finished(self, x: u64) -> Trouble {
        Trouble {
            counts: Counts {
                abort_retries: self.counts.abort_retries.wrapping_add(1),
                ..self.counts
            },
            attempts: self.attempts.remove(x),
            ..self
        }
    }

    /// Once the abort of `x` failed again: too often, and writes are refused.
    pub open spec fn failed(self, x: u64) -> Trouble {
        let n = next_attempt(self.attempts, x);
        Trouble {
            counts: self.counts.failed(retry_text(x)),
            attempts: self.attempts.insert(x, n),
            degraded: if n >= ABORT_RETRY_BUDGET && self.degraded is None {
                Some(degraded_text(x, n))
            } else {
                self.degraded
            },
        }
    }

    /// Once the aborts of all of these were finished.
    pub open spec fn all_finished(self, ids: Seq<u64>) -> Trouble
        decreases ids.len(),
    {
        if ids.len() == 0 {
            self
        } else {
            self.all_finished(ids.drop_last()).finished(ids.last())
        }
    }

    /// Once the aborts of all of these failed again.
    pub open spec fn all_failed(self, ids: Seq<u64>) -> Trouble
        decreases ids.len(),
    {
        if ids.len() == 0 {
            self
        } else {
            self.all_failed(ids.drop_last()).failed(ids.last())
        }
    }
}

/// The state after the aborts of all of these were finished.
pub open spec fn aborted_all(c: Core, ids: Seq<u64>) -> Core
    decreases ids.len(),
{
    if ids.len() == 0 {
        c
    } else {
        aborted_all(c, ids.drop_last()).aborted(ids.last())
    }
}

/// The records of aborts.
pub open spec fn rollback_ops(ids: Seq<u64>) -> Seq<Op> {
    ids.map_values(|x: u64| Op::Rollback(TransactionId(x)))
}

/// What trying all failed aborts again comes to: all of them are finished and
/// logged, or all of them fail again.
pub open spec fn retried(before: Db, after: Db) -> bool {
    let ids = before.engine.txns.aborting@;
    &&& after == Db {
        engine: after.engine,
        maintenance: after.maintenance,
        abort_attempts: after.abort_attempts,
        degraded: after.degraded,
        ..before
    }
    &&& if before.fail_reverts {
        after.engine == before.engine && after.trouble() == before.trouble().all_failed(ids)
    } else {
        &&& after.trouble() == before.trouble().all_finished(ids)
        &&& finished_all(before, after, ids)
    }
}

/// Are the aborts of these finished and logged, in this order?
pub open spec fn finished_all(before: Db, after: Db, ids: Seq<u64>) -> bool {
    &&& after.engine@ == aborted_all(before.engine@, ids)
    &&& after.queued() == before.queued() + schema::stamped(
        rollback_ops(ids),
        before.engine.clock.counter,
    )
    &&& after.graves() == before.graves()
    &&& after.engine.clock.last_written == before.engine.clock.last_written
}

/// One more abort is finished.
proof fn finished_step(before: Db, mid: Db, after: Db, ids: Seq<u64>, x: u64)
    requires
        finished_all(before, mid, ids),
        after.engine@ == mid.engine@.aborted(x),
        after.queued() == mid.queued().push(
            Entry { lsn: LsnId(mid.engine.clock.counter), op: Op::Rollback(TransactionId(x)) },
        ),
        after.graves() == mid.graves(),
        after.engine.clock.last_written == mid.engine.clock.last_written,
        mid.engine.clock.counter == before.engine.clock.counter + ids.len(),
    ensures
        finished_all(before, after, ids.push(x)),
{
    let more = ids.push(x);
    assert(more.drop_last() =~= ids);
    let from = before.engine.clock.counter;
    assert(schema::stamped(rollback_ops(more), from) =~= schema::stamped(
        rollback_ops(ids),
        from,
    ).push(Entry { lsn: LsnId(mid.engine.clock.counter), op: Op::Rollback(TransactionId(x)) }));
    assert(after.queued() =~= before.queued() + schema::stamped(rollback_ops(more), from));
}

/// Finishing aborts takes one number each, and leaves the other transactions
/// as they are.
pub proof fn aborted_all_txns(c: Core, ids: Seq<u64>)
    ensures
        aborted_all(c, ids).counter == c.counter + ids.len(),
        aborted_all(c, ids).live == c.live,
        aborted_all(c, ids).next_table == c.next_table,
        forall|x: u64| #[trigger]
            aborted_all(c, ids).txns.aborting.contains(x) <==> c.txns.aborting.contains(x)
                && !ids.contains(x),
        aborted_all(c, ids).txns.active == c.txns.active,
    decreases ids.len(),
{
    if ids.len() > 0 {
        aborted_all_txns(c, ids.drop_last());
        assert forall|x: u64| #[trigger] ids.contains(x) <==> ids.drop_last().contains(x) || x
            == ids.last() by {
            if ids.contains(x) {
                let i = choose|i: int| 0 <= i < ids.len() && ids[i] == x;
                if i < ids.len() - 1 {
                    assert(ids.drop_last()[i] == x);
                }
            }
            if ids.drop_last().contains(x) {
                let i = choose|i: int| 0 <= i < ids.drop_last().len() && ids.drop_last()[i] == x;
                assert(ids[i] == x);
            }
            if x == ids.last() {
                assert(ids[ids.len() - 1] == x);
            }
        }
    }
}

impl Db {
    /// What the database knows of aborts that failed.
    pub open spec fn trouble(&self) -> Trouble {
        Trouble {
            counts: self.maintenance@,
            attempts: self.attempts(),
            degraded: maintenance::opt_text(self.degraded),
        }
    }

    /// Where it is kept how often the abort of a transaction has failed.
    fn attempt_slot(&self, x: u64) -> (r: Option<usize>)
        requires
            assoc::unique(db::attempt_pairs(self.abort_attempts@)),
        ensures
            match r {
                Some(i) => i < self.abort_attempts@.len() && self.abort_attempts@[i as int].txn == x
                    && self.attempts().dom().contains(x) && self.attempts()[x]
                    == self.abort_attempts@[i as int].count,
                None => !self.attempts().dom().contains(x),
            },
    {
        let ghost pairs = db::attempt_pairs(self.abort_attempts@);
        for i in 0..self.abort_attempts.len()
            invariant
                pairs == db::attempt_pairs(self.abort_attempts@),
                assoc::unique(pairs),
                forall|j: int| 0 <= j < i ==> (#[trigger] self.abort_attempts@[j]).txn != x,
        {
            if self.abort_attempts[i].txn == x {
                proof {
                    assoc::assoc_at(pairs, i as int);
                }
                return Some(i);
            }
        }
        proof {
            assert forall|j: int| 0 <= j < pairs.len() implies (#[trigger] pairs[j]).0 != x by {
                assert(self.abort_attempts@[j].txn != x);
            }
            assoc::assoc_absent(pairs, x);
        }
        None
    }

    /// Forgets how often the abort of a transaction has failed.
    fn forget_attempts(&mut self, x: u64)
        requires
            old(self).wf(),
        ensures
            final(self).wf(),
            *final(self) == (Db { abort_attempts: final(self).abort_attempts, ..*old(self) }),
            final(self).attempts() == old(self).attempts().remove(x),
    {
        let ghost pairs = db::attempt_pairs(self.abort_attempts@);
        match self.attempt_slot(x) {
            Some(i) => {
                let _gone = self.abort_attempts.remove(i);
                proof {
                    assoc::assoc_remove(pairs, i as int);
                    assert(db::attempt_pairs(self.abort_attempts@) =~= pairs.remove(i as int));
                    assert(pairs[i as int].0 == x);
                }
            },
            None => {
                assert(self.attempts() =~= old(self).attempts().remove(x));
            },
        }
    }

    /// Counts one more failed abort of a transaction.
    fn count_attempt(&mut self, x: u64) -> (n: u32)
        requires
            old(self).wf(),
        ensures
            final(self).wf(),
            *final(self) == (Db { abort_attempts: final(self).abort_attempts, ..*old(self) }),
            n == next_attempt(old(self).attempts(), x),
            final(self).attempts() == old(self).attempts().insert(x, n),
    {
        let ghost pairs = db::attempt_pairs(self.abort_attempts@);
        match self.attempt_slot(x) {
            Some(i) => {
                let was: u32 = self.abort_attempts[i].count;
                let n: u32 = if was < u32::MAX {
                    was + 1
                } else {
                    was
                };
                self.abort_attempts.set(i, Attempts { txn: x, count: n });
                proof {
                    assoc::assoc_update(pairs, i as int, n);
                    assert(db::attempt_pairs(self.abort_attempts@) =~= pairs.update(
                        i as int,
                        (x, n),
                    ));
                }
                n
            },
            None => {
                self.abort_attempts.push(Attempts { txn: x, count: 1 });
                proof {
                    assoc::assoc_push(pairs, x, 1u32);
                    assert(db::attempt_pairs(self.abort_attempts@) =~= pairs.push((x, 1u32)));
                }
                1
            },
        }
    }

    /// Notes that an abort failed again, and refuses writes if that was once
    /// too often.
    fn note_failure(&mut self, x: u64, e: &StoreError)
        requires
            old(self).wf(),
            e@ == Fault::Unknown(db::revert_text()),
        ensures
            final(self).wf(),
            *final(self) == (Db {
                maintenance: final(self).maintenance,
                abort_attempts: final(self).abort_attempts,
                degraded: final(self).degraded,
                ..*old(self)
            }),
            final(self).trouble() == old(self).trouble().failed(x),
    {
        let mut t = "retrying abort of ".to_owned();
        push_decimal(&mut t, x);
        t.append(": ");
        t.append(e.message().as_str());
        self.maintenance.record_error(t);
        let n: u32 = self.count_attempt(x);
        if n >= ABORT_RETRY_BUDGET {
            let mut why = "abort of ".to_owned();
            push_decimal(&mut why, x);
            why.append(" failed ");
            push_decimal(&mut why, n as u64);
            why.append(" times (last: ");
            why.append(e.message().as_str());
            why.append("); its rows stay invisible and writes are refused until restart");
            self.enter_degraded(why);
        }
    }

    /// Tries again to finish every abort that failed.
    fn retry_aborts(&mut self)
        requires
            old(self).wf(),
            old(self).room(old(self).engine.txns.aborting@.len()),
        ensures
            final(self).wf(),
            retried(*old(self), *final(self)),
    {
        let ids = self.engine.txns.aborting_ids();
        let ghost c = old(self).engine@;
        assert(schema::stamped(rollback_ops(ids@.take(0)), old(self).engine.clock.counter)
            =~= seq![]);
        assert(old(self).queued() + Seq::<Entry>::empty() =~= old(self).queued());
        for i in 0..ids.len()
            invariant
                ids@ == old(self).engine.txns.aborting@,
                ids@.no_duplicates(),
                c == old(self).engine@,
                old(self).room(ids@.len()),
                forall|j: int| 0 <= j < ids@.len() ==> c.txns.aborting.contains(#[trigger] ids@[j]),
                self.wf(),
                *self == (Db {
                    engine: self.engine,
                    maintenance: self.maintenance,
                    abort_attempts: self.abort_attempts,
                    degraded: self.degraded,
                    ..*old(self)
                }),
                self.fail_reverts ==> self.engine == old(self).engine && self.trouble() == old(
                    self,
                ).trouble().all_failed(ids@.take(i as int)),
                !self.fail_reverts ==> self.trouble() == old(self).trouble().all_finished(
                    ids@.take(i as int),
                ) && finished_all(*old(self), *self, ids@.take(i as int)),
        {
            let id: u64 = ids[i];
            let ghost mid = *self;
            proof {
                assert(ids@.take(i + 1).drop_last() =~= ids@.take(i as int));
                assert(ids@.take(i + 1) =~= ids@.take(i as int).push(id));
                aborted_all_txns(c, ids@.take(i as int));
                assert(c.txns.aborting.contains(ids@[i as int]));
                assert(!ids@.take(i as int).contains(id));
            }
            match self.finish_abort(TransactionId(id)) {
                Ok(()) => {
                    self.maintenance.abort_retries =
                    self.maintenance.abort_retries.wrapping_add(1);
                    self.forget_attempts(id);
                    proof {
                        finished_step(*old(self), mid, *self, ids@.take(i as int), id);
                    }
                },
                Err(e) => {
                    self.note_failure(id, &e);
                },
            }
        }
        assert(ids@.take(ids@.len() as int) =~= ids@);
    }
}

impl Db {
    /// Finishes every abort, or fails with the first that cannot be finished.
    pub(crate) fn finish_aborts(&mut self) -> (r: Result<(), StoreError>)
        requires
            old(self).wf(),
            old(self).room(old(self).engine.txns.aborting@.len()),
        ensures
            final(self).wf(),
            match r {
                Ok(()) => !(old(self).fail_reverts && old(self).engine.txns.aborting@.len() > 0)
                    && *final(self) == (Db { engine: final(self).engine, ..*old(self) })
                    && finished_all(*old(self), *final(self), old(self).engine.txns.aborting@),
                Err(e) => old(self).fail_reverts && old(self).engine.txns.aborting@.len() > 0 && e@
                    == Fault::Unknown(db::revert_text()),
            },
    {
        let ids = self.engine.txns.aborting_ids();
        let ghost c = old(self).engine@;
        assert(schema::stamped(rollback_ops(ids@.take(0)), old(self).engine.clock.counter)
            =~= seq![]);
        assert(old(self).queued() + Seq::<Entry>::empty() =~= old(self).queued());
        for i in 0..ids.len()
            invariant
                ids@ == old(self).engine.txns.aborting@,
                ids@.no_duplicates(),
                c == old(self).engine@,
                old(self).room(ids@.len()),
                forall|j: int| 0 <= j < ids@.len() ==> c.txns.aborting.contains(#[trigger] ids@[j]),
                self.wf(),
                *self == (Db { engine: self.engine, ..*old(self) }),
                i > 0 ==> !old(self).fail_reverts,
                finished_all(*old(self), *self, ids@.take(i as int)),
        {
            let id: u64 = ids[i];
            let ghost mid = *self;
            proof {
                assert(ids@.take(i + 1) =~= ids@.take(i as int).push(id));
                aborted_all_txns(c, ids@.take(i as int));
                assert(c.txns.aborting.contains(ids@[i as int]));
                assert(!ids@.take(i as int).contains(id));
            }
            if let Err(e) = self.finish_abort(TransactionId(id)) {
                return Err(e);
            }
            proof {
                finished_step(*old(self), mid, *self, ids@.take(i as int), id);
            }
        }
        assert(ids@.take(ids@.len() as int) =~= ids@);
        Ok(())
    }
}

// ---------------------------------------------------------------------------
// What nobody needs
// ---------------------------------------------------------------------------

/// The state after the deletion marks are purged, in order.
pub open spec fn purged_all(c: Core, gs: Seq<Grave>) -> Core
    decreases gs.len(),
{
    if gs.len() == 0 {
        c
    } else {
        engine::purge_core(purged_all(c, gs.drop_last()), gs.last())
    }
}

/// The records of the purges that had something to do.
pub open spec fn purge_log(c: Core, gs: Seq<Grave>) -> Seq<Entry>
    decreases gs.len(),
{
    if gs.len() == 0 {
        seq![]
    } else {
        let d = purged_all(c, gs.drop_last());
        let g = gs.last();
        let front = purge_log(c, gs.drop_last());
        if d.live.contains(g.table_id) && engine::purge_applies(d.rows, g) {
            front.push(
                Entry {
                    lsn: LsnId((d.counter + 1) as u64),
                    op: Op::Purge { txn: g.txn, table_id: g.table_id, key: g.key },
                },
            )
        } else {
            front
        }
    }
}

/// What is left once everything is dropped that no reader can need: the
/// records behind commits that all of them see, and the deletion marks, whose
/// rows are purged.
pub open spec fn swept(before: Db, after: Db) -> bool {
    let horizon = before.engine@.txns.oldest_active();
    let c = before.engine@.pruned(horizon).vacuumed(horizon);
    let gs = version::released_graves(before.graves(), horizon);
    let forgotten = before.engine@.pending.len() - c.pending.len();
    let discarded = before.engine@.records.len() - c.records.len();
    let m = before.maintenance@;
    &&& after == Db { engine: after.engine, maintenance: after.maintenance, ..before }
    &&& after.engine@ == purged_all(c, gs)
    &&& after.queued() == before.queued() + purge_log(c, gs)
    &&& after.graves() == version::waiting_graves(before.graves(), horizon)
    &&& after.engine.clock.last_written == before.engine.clock.last_written
    &&& after.maintenance@ == counted(m, forgotten, discarded, gs.len())
}

/// The counters after a vacuum and the purges that followed.
pub open spec fn counted(m: Counts, forgotten: int, discarded: int, purged: nat) -> Counts {
    let worked = if forgotten > 0 || purged > 0 {
        Counts {
            vacuums_with_work: m.vacuums_with_work.wrapping_add(1),
            transactions_forgotten: m.transactions_forgotten.wrapping_add(forgotten as u64),
            records_discarded: m.records_discarded.wrapping_add(discarded as u64),
            ..m
        }
    } else {
        m
    };
    Counts { tombstones_purged: worked.tombstones_purged.wrapping_add(purged as u64), ..worked }
}

/// Purging takes two numbers at most for each mark, and leaves transactions as
/// they are.
pub proof fn purged_all_facts(c: Core, gs: Seq<Grave>)
    ensures
        c.counter <= purged_all(c, gs).counter <= c.counter + 2 * gs.len(),
        purged_all(c, gs).txns == c.txns,
        purged_all(c, gs).live == c.live,
        purged_all(c, gs).next_table == c.next_table,
    decreases gs.len(),
{
    if gs.len() > 0 {
        purged_all_facts(c, gs.drop_last());
    }
}

/// Filtering takes nothing in.
pub proof fn filtered_ok(c: Core, gs: Seq<Grave>, keep: spec_fn(Grave) -> bool)
    requires
        steps::graves_ok(c, gs),
    ensures
        steps::graves_ok(c, gs.filter(keep)),
        gs.filter(keep).len() <= gs.len(),
        forall|i: int| 0 <= i < gs.filter(keep).len() ==> keep(#[trigger] gs.filter(keep)[i]),
    decreases gs.len(),
{
    reveal(Seq::filter);
    if gs.len() > 0 {
        let front = gs.drop_last();
        assert forall|i: int| 0 <= i < front.len() implies steps::grave_ok(c, #[trigger] front[i]) by {
            assert(steps::grave_ok(c, gs[i]));
        }
        filtered_ok(c, front, keep);
        assert(steps::grave_ok(c, gs[gs.len() - 1]));
    }
}

impl Db {
    /// Drops what no reader can need any more.
    fn sweep(&mut self)
        requires
            old(self).wf(),
            old(self).room(2 * old(self).graves().len()),
        ensures
            final(self).wf(),
            swept(*old(self), *final(self)),
    {
        let ghost horizon = old(self).engine@.txns.oldest_active();
        let ghost c = old(self).engine@.pruned(horizon).vacuumed(horizon);
        let ghost gs = version::released_graves(old(self).graves(), horizon);
        let ghost bound = 2 * old(self).graves().len();
        let ghost from = old(self).engine.clock.counter;
        let _oldest = self.engine.txns.oldest_active();
        let v = self.engine.vacuum();
        proof {
            steps::graves_stay(old(self).engine@, c, old(self).graves());
            filtered_ok(c, old(self).graves(), |g: Grave| steps::released(horizon, g.ts));
            filtered_ok(c, old(self).graves(), |g: Grave| !steps::released(horizon, g.ts));
            assert(v.tombstones@.len() == version::graves(v.tombstones@).len());
        }
        let marks = v.tombstones;
        if v.transactions_forgotten > 0 || marks.len() > 0 {
            self.maintenance.vacuums_with_work = self.maintenance.vacuums_with_work.wrapping_add(1);
            self.maintenance.transactions_forgotten =
            self.maintenance.transactions_forgotten.wrapping_add(v.transactions_forgotten as u64);
            self.maintenance.records_discarded =
            self.maintenance.records_discarded.wrapping_add(v.records_discarded as u64);
        }
        let ghost m = self.maintenance;
        let purged: usize = marks.len();
        assert(gs.take(0) =~= seq![]);
        assert(old(self).queued() + purge_log(c, gs.take(0)) =~= old(self).queued());
        for i in 0..marks.len()
            invariant
                gs == version::graves(marks@),
                gs.len() == marks@.len(),
                2 * gs.len() <= bound,
                from + bound <= u64::MAX,
                c.counter == from,
                steps::graves_ok(c, gs),
                steps::horizon_ok(c.txns, horizon),
                forall|j: int|
                    0 <= j < gs.len() ==> steps::released(horizon, (#[trigger] gs[j]).ts),
                self.wf(),
                *self == (Db { engine: self.engine, maintenance: m, ..*old(self) }),
                self.engine@ == purged_all(c, gs.take(i as int)),
                self.queued() == old(self).queued() + purge_log(c, gs.take(i as int)),
                self.graves() == version::waiting_graves(old(self).graves(), horizon),
                self.engine.clock.last_written == old(self).engine.clock.last_written,
        {
            let ghost before = *self;
            proof {
                purged_all_facts(c, gs.take(i as int));
                assert(gs[i as int] == marks@[i as int]@);
                assert(steps::grave_ok(c, gs[i as int]));
                assert forall|w: Viewer| #[trigger] mvcc::may_look(self.engine@.txns, w) implies
                    mvcc::sees(self.engine@.txns, w, marks@[i as int].txn.0) by {
                    steps::released_is_seen(c, gs[i as int], horizon, w);
                }
                assert(gs.take(i + 1).drop_last() =~= gs.take(i as int));
                assert(gs.take(i + 1).last() == gs[i as int]);
            }
            self.engine.purge(&marks[i]);
            proof {
                steps::graves_stay(before.engine@, self.engine@, self.graves());
                assert(self.queued() =~= old(self).queued() + purge_log(c, gs.take(i + 1)));
            }
        }
        assert(gs.take(gs.len() as int) =~= gs);
        self.maintenance.tombstones_purged =
        self.maintenance.tombstones_purged.wrapping_add(purged as u64);
    }
}

// ---------------------------------------------------------------------------
// Transactions that hold too much back
// ---------------------------------------------------------------------------

/// The bytes of all segments of the log.
pub open spec fn retained(db: Db) -> u64 {
    wal::at_most_max(wal::total_bytes(db.wal@.older) + db.wal@.segment_bytes as nat)
}

/// Which limit is exceeded, if one is.
pub open spec fn over_limit(db: Db) -> Option<Seq<char>> {
    let limits = db.snapshot_limits;
    let records = db.engine@.records.len();
    if retained(db) > limits.max_retained_wal_bytes {
        Some(
            "retained WAL "@ + text::decimal(retained(db) as nat)
                + " bytes exceeds the cap of "@ + text::decimal(
                limits.max_retained_wal_bytes as nat,
            ) + " bytes"@,
        )
    } else if records > limits.max_version_records {
        Some(
            text::decimal(records) + " retained version records exceed the cap of "@
                + text::decimal(limits.max_version_records as nat),
        )
    } else {
        None
    }
}

/// What the owner of a transaction is told that held too much back.
pub open spec fn too_old_text(x: u64, why: Seq<char>) -> Seq<char> {
    "transaction "@ + text::decimal(x as nat) + " aborted by the engine: "@ + why
}

/// What enforcing the limits comes to: where one is exceeded, the oldest
/// active transaction is rolled back, its owner is told why with the next
/// call, and a checkpoint gives back what it held.
pub open spec fn enforced(before: Db, after: Db, now: u128, r: Result<(), Fault>) -> bool {
    match (over_limit(before), before.engine@.txns.oldest_active()) {
        (Some(why), Some(x)) => exists|noted: Db, undone: Db|
            {
                &&& noted == Db { forced_aborts: noted.forced_aborts, ..before }
                &&& noted.forced() == before.forced().insert(x, too_old_text(x, why))
                &&& #[trigger] db::rolled_back(noted, undone, x, db::abort_fault(before, x))
                &&& noted.wf()
                &&& undone.wf()
                &&& match db::abort_fault(before, x) {
                    Some(f) => after == undone && r == Err::<(), Fault>(f),
                    None => {
                        let counted = Db {
                            snapshot_too_old_aborts: before.snapshot_too_old_aborts.wrapping_add(1),
                            ..undone
                        };
                        match r {
                            Ok(()) => checkpoint::checkpointed(counted, after, now),
                            Err(f) => checkpoint::catalog_of(counted) == Err::<Sheet, Fault>(f)
                                && after == counted,
                        }
                    },
                }
            },
        _ => r == Ok::<(), Fault>(()) && after == before,
    }
}

impl Db {
    /// Which limit is exceeded, if one is.
    fn limit_exceeded(&self) -> (r: Option<String>)
        ensures
            maintenance::opt_text(r) == over_limit(*self),
    {
        let limits = self.snapshot_limits;
        let wal: u64 = self.wal.retained_wal_bytes();
        let records: usize = self.engine.versions.records_len();
        if wal > limits.max_retained_wal_bytes {
            let mut t = "retained WAL ".to_owned();
            push_decimal(&mut t, wal);
            t.append(" bytes exceeds the cap of ");
            push_decimal(&mut t, limits.max_retained_wal_bytes);
            t.append(" bytes");
            Some(t)
        } else if records > limits.max_version_records {
            let mut t = String::new();
            push_decimal(&mut t, records as u64);
            assert(t@ =~= text::decimal(records as nat));
            t.append(" retained version records exceed the cap of ");
            push_decimal(&mut t, limits.max_version_records as u64);
            Some(t)
        } else {
            None
        }
    }

    /// Notes what the owner of a transaction is to be told.
    fn note_forced(&mut self, x: u64, reason: String)
        requires
            old(self).wf(),
        ensures
            final(self).wf(),
            *final(self) == (Db { forced_aborts: final(self).forced_aborts, ..*old(self) }),
            final(self).forced() == old(self).forced().insert(x, reason@),
    {
        let _earlier = self.take_forced(x);
        let ghost pairs = db::forced_pairs(self.forced_aborts@);
        self.forced_aborts.push(ForcedAbort { txn: x, reason });
        proof {
            assoc::assoc_push(pairs, x, reason@);
            assert(db::forced_pairs(self.forced_aborts@) =~= pairs.push((x, reason@)));
            assert(self.forced() =~= old(self).forced().insert(x, reason@));
        }
    }

    /// Rolls the oldest active transaction back if what long-lived ones hold
    /// back exceeds a limit.
    fn enforce_snapshot_limits(&mut self, now: u128) -> (r: Result<(), StoreError>)
        requires
            old(self).wf(),
            old(self).room(1),
            old(self).wal.current.n < u64::MAX,
        ensures
            final(self).wf(),
            enforced(*old(self), *final(self), now, schema::outcome(r)),
    {
        let why = match self.limit_exceeded() {
            Some(t) => t,
            None => {
                return Ok(());
            },
        };
        let x: u64 = match self.engine.txns.oldest_active() {
            Some(x) => x,
            None => {
                return Ok(());
            },
        };
        proof {
            self.engine.txns.oldest_is_active();
        }
        let mut reason = "transaction ".to_owned();
        push_decimal(&mut reason, x);
        reason.append(" aborted by the engine: ");
        reason.append(why.as_str());
        self.note_forced(x, reason);
        let ghost noted = *self;
        let undone = self.abort(TransactionId(x));
        assert(db::rolled_back(noted, *self, x, db::abort_fault(*old(self), x)));
        if let Err(e) = undone {
            return Err(e);
        }
        self.snapshot_too_old_aborts = self.snapshot_too_old_aborts.wrapping_add(1);
        self.checkpoint(now)
    }
}

// ---------------------------------------------------------------------------
// A pass
// ---------------------------------------------------------------------------

/// What the end of a pass comes to: a checkpoint if the log has grown enough,
/// and then the limits.
pub open spec fn trimmed(before: Db, after: Db, now: u128, r: Result<(), Fault>) -> bool {
    if before.wal.segment_bytes > CHECKPOINT_LOG_BYTES {
        match checkpoint::catalog_of(before) {
            Err(f) => r == Err::<(), Fault>(f) && after == before,
            Ok(_) => exists|mid: Db|
                {
                    &&& #[trigger] checkpoint::checkpointed(before, mid, now)
                    &&& mid.wf()
                    &&& enforced(
                        Db {
                            maintenance: MaintenanceStats {
                                checkpoints: mid.maintenance.checkpoints.wrapping_add(1),
                                ..mid.maintenance
                            },
                            ..mid
                        },
                        after,
                        now,
                        r,
                    )
                },
        }
    } else {
        enforced(before, after, now, r)
    }
}

/// What a pass comes to: failed aborts are tried again, what nobody needs is
/// dropped, and the log is kept short.
pub open spec fn passed(before: Db, after: Db, now: u128, r: Result<(), Fault>) -> bool {
    exists|a: Db, b: Db|
        {
            &&& #[trigger] retried(before, a)
            &&& #[trigger] swept(a, b)
            &&& a.wf()
            &&& b.wf()
            &&& trimmed(b, after, now, r)
        }
}

/// What is noted of a pass: that it was, and its error, if it failed.
pub open spec fn noted(before: Db, after: Db, r: Result<(), Fault>) -> bool {
    &&& after == (Db { maintenance: after.maintenance, ..before })
    &&& after.maintenance@ == ({
        let m = match r {
            Ok(()) => before.maintenance@,
            Err(f) => before.maintenance@.failed(error::fault_text(f)),
        };
        Counts { passes: m.passes.wrapping_add(1), ..m }
    })
}

/// The numbers that a pass may take: one for each abort that is finished, two
/// for each deletion mark that is purged, and one for a transaction that is
/// rolled back.
pub open spec fn pass_numbers(db: Db) -> nat {
    db.engine.txns.aborting@.len() + 2 * db.graves().len() + 1
}

impl Db {
    /// One pass of the work that goes on behind the transactions.
    pub fn maintenance_pass(&mut self, now: u128) -> (r: Result<(), StoreError>)
        requires
            old(self).wf(),
            old(self).room(pass_numbers(*old(self))),
            old(self).wal.current.n < u64::MAX - 1,
        ensures
            final(self).wf(),
            passed(*old(self), *final(self), now, schema::outcome(r)),
            r is Ok && old(self).wal@.header.len() == framing::log_header_len()
                ==> final(self).wal.segment_bytes <= CHECKPOINT_LOG_BYTES,
    {
        self.retry_aborts();
        let ghost a = *self;
        proof {
            aborted_all_txns(old(self).engine@, old(self).engine.txns.aborting@);
        }
        self.sweep();
        let ghost b = *self;
        proof {
            let horizon = a.engine@.txns.oldest_active();
            let c = a.engine@.pruned(horizon).vacuumed(horizon);
            let gs = version::released_graves(a.graves(), horizon);
            purged_all_facts(c, gs);
            filtered_ok(a.engine@, a.graves(), |g: Grave| steps::released(horizon, g.ts));
            assert(retried(*old(self), a) && swept(a, b));
        }
        if self.wal.segment_bytes > CHECKPOINT_LOG_BYTES {
            if let Err(e) = self.checkpoint(now) {
                return Err(e);
            }
            proof {
                wal::records_in_batches(b.log(), b.queued(), 0);
                assert(checkpoint::checkpointed(b, *self, now));
                assert(self.log().wal.current.n == b.wal.current.n + 1);
            }
            self.maintenance.checkpoints = self.maintenance.checkpoints.wrapping_add(1);
        }
        let r = self.enforce_snapshot_limits(now);
        proof {
            assert(passed(*old(self), *self, now, schema::outcome(r)));
            if r is Ok && old(self).wal@.header.len() == framing::log_header_len() {
                passes::pass_keeps_the_log_short(*old(self), *self, now);
            }
        }
        r
    }

    /// A pass that is counted, and whose error is kept.
    pub fn run_maintenance(&mut self, now: u128)
        requires
            old(self).wf(),
            old(self).room(pass_numbers(*old(self))),
            old(self).wal.current.n < u64::MAX - 1,
        ensures
            final(self).wf(),
            exists|mid: Db, r: Result<(), Fault>| #[trigger]
                passed(*old(self), mid, now, r) && noted(mid, *final(self), r),
    {
        let r = self.maintenance_pass(now);
        let ghost mid = *self;
        let ghost out = schema::outcome(r);
        assert(passed(*old(self), mid, now, out));
        if let Err(e) = r {
            self.maintenance.record_error(e.message());
        }
        self.maintenance.passes = self.maintenance.passes.wrapping_add(1);
        assert(noted(mid, *self, out));
    }
}

// ---------------------------------------------------------------------------
// What can be asked
// ---------------------------------------------------------------------------

/// What a database is doing and what it holds on to, at one instant.
#[derive(Debug, Clone, Default, PartialEq, Eq)]
pub struct DbStats {
    /// Transactions that have begun and not finished.
    pub active_transactions: usize,
    /// Transactions whose writes are still to be taken back.
    pub aborting_transactions: usize,
    /// The oldest active transaction: the reader that holds the most back.
    pub oldest_active: Option<u64>,
    /// Commits that are remembered because a reader began before them.
    pub committed_retained: usize,
    /// Version records that are kept.
    pub version_records: usize,
    /// Commits whose records cannot be dropped yet.
    pub committed_awaiting_vacuum: usize,
    /// Deletion marks that are still to be purged.
    pub tombstones_awaiting_purge: usize,
    pub maintenance_passes: u64,
    pub tombstones_purged: u64,
    pub abort_retries: u64,
    pub maintenance_errors: u64,
    pub maintenance_last_error: Option<String>,
    /// The size of the newest segment of the log.
    pub wal_segment_bytes: u64,
    /// The segments of the log, the newest among them.
    pub wal_segments: usize,
    /// Locks that were not granted in time.
    pub lock_timeouts: u64,
    /// Why writes are refused, if they are.
    pub degraded: Option<String>,
    /// The size of all segments.
    pub wal_retained_bytes: u64,
    /// Transactions that were rolled back because they held too much back.
    pub snapshot_too_old_aborts: u64,
    /// Records that were replayed when the database was opened.
    pub recovered_records: usize,
    /// The size of the file of the newest segment.
    pub log_bytes: u64,
    pub page_count: u64,
    pub tables: usize,
}

/// The same text once more.
fn copy_text(t: &Option<String>) -> (out: Option<String>)
    ensures
        maintenance::opt_text(out) == maintenance::opt_text(*t),
{
    match t {
        Some(t) => Some(t.as_str().to_owned()),
        None => None,
    }
}

impl Db {
    /// What the database is doing and what it holds on to.
    pub fn stats(&self) -> (s: DbStats)
        requires
            self.wf(),
        ensures
            s.active_transactions == self.engine.txns.active@.len(),
            s.aborting_transactions == self.engine.txns.aborting@.len(),
            s.oldest_active == self.engine@.txns.oldest_active(),
            s.committed_retained == self.engine.txns.committed@.len(),
            s.version_records == self.engine@.records.len(),
            s.committed_awaiting_vacuum == self.engine@.pending.len(),
            s.tombstones_awaiting_purge == self.graves().len(),
            s.maintenance_passes == self.maintenance.passes,
            s.tombstones_purged == self.maintenance.tombstones_purged,
            s.abort_retries == self.maintenance.abort_retries,
            s.maintenance_errors == self.maintenance.errors,
            maintenance::opt_text(s.maintenance_last_error) == self.maintenance@.last_error,
            s.wal_segment_bytes == self.wal.segment_bytes,
            s.wal_segments == if self.wal.older@.len() < usize::MAX {
                self.wal.older@.len() + 1
            } else {
                usize::MAX as nat
            },
            s.lock_timeouts == self.lock_timeouts,
            maintenance::opt_text(s.degraded) == maintenance::opt_text(self.degraded),
            s.wal_retained_bytes == retained(*self),
            s.snapshot_too_old_aborts == self.snapshot_too_old_aborts,
            s.recovered_records == self.recovered_records,
            s.log_bytes == self.ns@.files[self.wal@.at as int].data.len(),
            s.page_count == self.page_count,
            s.tables == self.tables@.len(),
    {
        DbStats {
            active_transactions: self.engine.txns.active_count(),
            aborting_transactions: self.engine.txns.aborting_count(),
            oldest_active: self.engine.txns.oldest_active(),
            committed_retained: self.engine.txns.committed_retained(),
            version_records: self.engine.versions.records_len(),
            committed_awaiting_vacuum: self.engine.versions.committed_pending(),
            tombstones_awaiting_purge: self.engine.versions.tombstones_pending(),
            maintenance_passes: self.maintenance.passes,
            tombstones_purged: self.maintenance.tombstones_purged,
            abort_retries: self.maintenance.abort_retries,
            maintenance_errors: self.maintenance.errors,
            maintenance_last_error: copy_text(&self.maintenance.last_error),
            wal_segment_bytes: self.wal.segment_bytes,
            wal_segments: self.wal.segments(),
            lock_timeouts: self.lock_timeouts,
            degraded: copy_text(&self.degraded),
            wal_retained_bytes: self.wal.retained_wal_bytes(),
            snapshot_too_old_aborts: self.snapshot_too_old_aborts,
            recovered_records: self.recovered_records,
            log_bytes: self.wal.file.get_metadata(&self.ns).len,
            page_count: self.page_count,
            tables: self.tables.len(),
        }
    }

    /// The name of the database.
    pub fn name(&self) -> (n: &str)
        ensures
            n@ == self.name@,
    {
        self.name.as_str()
    }

    /// How many pages the file has.
    pub fn page_count(&self) -> (n: u64)
        ensures
            n == self.page_count,
    {
        self.page_count
    }

    /// When the last checkpoint was.
    pub fn get_last_checkpoint(&self) -> (at: u128)
        ensures
            at == self.last_checkpoint,
    {
        self.last_checkpoint
    }

    /// How much a long-lived transaction may hold back.
    pub fn snapshot_limits(&self) -> (limits: SnapshotLimits)
        ensures
            limits == self.snapshot_limits,
    {
        self.snapshot_limits
    }

    /// Sets how much a long-lived transaction may hold back.
    pub fn set_snapshot_limits(&mut self, limits: SnapshotLimits)
        requires
            old(self).wf(),
        ensures
            final(self).wf(),
            *final(self) == (Db { snapshot_limits: limits, ..*old(self) }),
    {
        self.snapshot_limits = limits;
    }
}

/// What the owner of a transaction is told that held too much back names the
/// transaction and the limit: two such texts that are equal are about the same
/// transaction and say the same of it.
pub proof fn too_old_texts_tell_transactions_apart(x: u64, y: u64, s: Seq<char>, t: Seq<char>)
    requires
        too_old_text(x, s) == too_old_text(y, t),
    ensures
        x == y,
        s == t,
{
    reveal_strlit(" aborted by the engine: ");
    let p = "transaction "@;
    let q = " aborted by the engine: "@;
    let a = text::decimal(x as nat);
    let b = text::decimal(y as nat);
    assert(too_old_text(x, s) =~= p + (a + (q + s)));
    assert(too_old_text(y, t) =~= p + (b + (q + t)));
    assert((p + (a + (q + s))).skip(p.len() as int) =~= a + (q + s));
    assert((p + (b + (q + t))).skip(p.len() as int) =~= b + (q + t));
    text::decimal_ends_at_no_digit(x as nat, y as nat, q + s, q + t);
    assert((q + s).skip(q.len() as int) =~= s);
    assert((q + t).skip(q.len() as int) =~= t);
}

/// A limit is exceeded where the log takes more bytes than it may, or there are
/// more version records than there may be; the reason that is given for it says
/// which, how much there is, and how much there may be.
pub proof fn limits_are_named(db: Db)
    ensures
        ({
            let limits = db.snapshot_limits;
            let bytes = retained(db);
            let records = db.engine@.records.len();
            let all = wal::total_bytes(db.wal@.older) + db.wal.segment_bytes as nat;
            &&& all <= u64::MAX ==> bytes == all
            &&& all > u64::MAX ==> bytes == u64::MAX
            &&& over_limit(db) is None <==> bytes <= limits.max_retained_wal_bytes && records
                <= limits.max_version_records
            &&& bytes > limits.max_retained_wal_bytes ==> over_limit(db) == Some(
                "retained WAL "@ + (text::decimal(bytes as nat) + (" bytes exceeds the cap of "@ + (
                text::decimal(limits.max_retained_wal_bytes as nat) + " bytes"@))),
            )
            &&& bytes <= limits.max_retained_wal_bytes && records > limits.max_version_records
                ==> over_limit(db) == Some(
                text::decimal(records) + (" retained version records exceed the cap of "@
                    + text::decimal(limits.max_version_records as nat)),
            )
        }),
{
    if let Some(t) = over_limit(db) {
        let limits = db.snapshot_limits;
        let bytes = retained(db);
        let records = db.engine@.records.len();
        assert(bytes > limits.max_retained_wal_bytes ==> t =~= "retained WAL "@ + (text::decimal(
            bytes as nat,
        ) + (" bytes exceeds the cap of "@ + (text::decimal(
            limits.max_retained_wal_bytes as nat,
        ) + " bytes"@))));
        assert(bytes <= limits.max_retained_wal_bytes ==> t =~= text::decimal(records) + (
        " retained version records exceed the cap of "@ + text::decimal(
            limits.max_version_records as nat,
        )));
    }
}

/// Why writes are refused names the transaction and how often its abort failed:
/// two such texts that are equal are about the same transaction and count.
pub proof fn degraded_texts_tell_transactions_apart(x: u64, y: u64, m: u32, n: u32)
    requires
        degraded_text(x, m) == degraded_text(y, n),
    ensures
        x == y,
        m == n,
{
    reveal_strlit(" failed ");
    reveal_strlit(" times (last: ");
    let p = "abort of "@;
    let q = " failed "@;
    let r = " times (last: "@ + (cause_text()
        + "); its rows stay invisible and writes are refused until restart"@);
    let a = text::decimal(x as nat);
    let b = text::decimal(y as nat);
    let c = text::decimal(m as nat);
    let d = text::decimal(n as nat);
    assert(degraded_text(x, m) =~= p + (a + (q + (c + r))));
    assert(degraded_text(y, n) =~= p + (b + (q + (d + r))));
    assert((p + (a + (q + (c + r)))).skip(p.len() as int) =~= a + (q + (c + r)));
    assert((p + (b + (q + (d + r)))).skip(p.len() as int) =~= b + (q + (d + r)));
    text::decimal_ends_at_no_digit(x as nat, y as nat, q + (c + r), q + (d + r));
    assert((q + (c + r)).skip(q.len() as int) =~= c + r);
    assert((q + (d + r)).skip(q.len() as int) =~= d + r);
    text::decimal_ends_at_no_digit(m as nat, n as nat, r, r);
}

} // verus!

//! The versions that a reader or a rollback can still need.
use vstd::prelude::*;

use crate::clock::LsnId;
use crate::mvcc;
use crate::mvcc::{Grave, Pending};
use crate::operation;
use crate::operation::{Entry, LogRecord, Op, Operation};
use crate::steps;
use crate::table::TableIdType;
use crate::tuple::DBIdType;
use crate::txn::TransactionId;

verus! {

/// A committed deletion whose row is still there.
#[derive(Debug)]
pub struct Tombstone {
    pub table_id: TableIdType,
    pub key: DBIdType,
    pub txn: TransactionId,
    pub ts: u64,
}

impl View for Tombstone {
    type V = Grave;

    open spec fn view(&self) -> Grave {
        Grave { table_id: self.table_id, key: self.key@, txn: self.txn, ts: self.ts }
    }
}

/// A committed transaction whose records are still kept.
pub struct CommittedTxn {
    pub txn: u64,
    pub ts: u64,
}

/// Every version record that may still be needed, and what waits for the
/// oldest reader to move on.
pub struct VersionStore {
    pub records: Vec<LogRecord>,
    pub pending: Vec<CommittedTxn>,
    pub tombstones: Vec<Tombstone>,
}

/// The version store, as contracts speak of it.
#[verifier::ext_equal]
pub struct Versions {
    pub records: Seq<Entry>,
    pub pending: Seq<Pending>,
    pub tombstones: Seq<Grave>,
}

/// The commits that wait, as contracts speak of them.
pub open spec fn pending_view(s: Seq<CommittedTxn>) -> Seq<Pending> {
    s.map_values(|c: CommittedTxn| Pending { txn: c.txn, ts: c.ts })
}

/// The deletion marks, as contracts speak of them.
pub open spec fn graves(s: Seq<Tombstone>) -> Seq<Grave> {
    s.map_values(|t: Tombstone| t@)
}

impl View for VersionStore {
    type V = Versions;

    open spec fn view(&self) -> Versions {
        Versions {
            records: operation::entries(self.records@),
            pending: pending_view(self.pending@),
            tombstones: graves(self.tombstones@),
        }
    }
}

/// The deletion marks that a transaction's records leave, when it commits at
/// `ts`.
pub open spec fn graves_of(ops: Seq<Entry>, ts: u64) -> Seq<Grave>
    decreases ops.len(),
{
    if ops.len() == 0 {
        seq![]
    } else {
        match ops.last().op {
            Op::Del { txn, pre } => graves_of(ops.drop_last(), ts).push(
                Grave { table_id: pre.table_id, key: pre.tuple.id, txn, ts },
            ),
            _ => graves_of(ops.drop_last(), ts),
        }
    }
}

/// Every deletion mark of a transaction's records is the transaction's, and has
/// the time of its commit.
pub proof fn graves_of_one(ops: Seq<Entry>, x: u64, ts: u64)
    requires
        forall|i: int| 0 <= i < ops.len() ==> mvcc::op_txn((#[trigger] ops[i]).op) == x,
    ensures
        forall|i: int|
            0 <= i < graves_of(ops, ts).len() ==> (#[trigger] graves_of(ops, ts)[i]).txn.0 == x
                && graves_of(ops, ts)[i].ts == ts,
    decreases ops.len(),
{
    if ops.len() > 0 {
        assert(mvcc::op_txn(ops.last().op) == x);
        assert forall|i: int| 0 <= i < ops.drop_last().len() implies mvcc::op_txn(
            (#[trigger] ops.drop_last()[i]).op,
        ) == x by {
            assert(mvcc::op_txn(ops[i].op) == x);
        }
        graves_of_one(ops.drop_last(), x, ts);
    }
}

/// The deletion marks that nobody can see past any more.
pub open spec fn released_graves(s: Seq<Grave>, horizon: Option<u64>) -> Seq<Grave> {
    s.filter(|g: Grave| steps::released(horizon, g.ts))
}

/// The deletion marks that have to wait on.
pub open spec fn waiting_graves(s: Seq<Grave>, horizon: Option<u64>) -> Seq<Grave> {
    s.filter(|g: Grave| !steps::released(horizon, g.ts))
}

/// What a vacuum did.
pub struct Vacuumed {
    pub transactions_forgotten: usize,
    pub records_discarded: usize,
    /// The deletion marks to be purged now.
    pub tombstones: Vec<Tombstone>,
}

/// The transaction that an operation belongs to.
fn txn_of(op: &Operation) -> (x: u64)
    ensures
        x == mvcc::op_txn(op@),
{
    match op {
        Operation::Add { txn, .. } => txn.0,
        Operation::Mod { txn, .. } => txn.0,
        Operation::Del { txn, .. } => txn.0,
        Operation::Commit(txn) => txn.0,
        Operation::Rollback(txn) => txn.0,
        Operation::Sequence { .. } => 0,
        Operation::Purge { txn, .. } => txn.0,
    }
}

/// Is the time before the horizon?
fn is_released(horizon: Option<u64>, ts: u64) -> (r: bool)
    ensures
        r == steps::released(horizon, ts),
{
    match horizon {
        Some(h) => ts < h,
        None => true,
    }
}

/// Growing a prefix by one grows the filtered prefix by that item or not.
proof fn filter_step<T>(s: Seq<T>, i: int, keep: spec_fn(T) -> bool)
    requires
        0 <= i < s.len(),
    ensures
        s.take(i + 1).filter(keep) == if keep(s[i]) {
            s.take(i).filter(keep).push(s[i])
        } else {
            s.take(i).filter(keep)
        },
{
    reveal(Seq::filter);
    assert(s.take(i + 1).drop_last() =~= s.take(i));
    assert(s.take(i + 1).last() == s[i]);
}

impl VersionStore {
    /// Are the records in order?
    pub open spec fn wf(&self) -> bool {
        mvcc::ascending(self@.records)
    }

    /// Nothing is kept.
    pub fn new() -> (s: VersionStore)
        ensures
            s.wf(),
            s@ == (Versions { records: seq![], pending: seq![], tombstones: seq![] }),
    {
        let s = VersionStore { records: Vec::new(), pending: Vec::new(), tombstones: Vec::new() };
        assert(s@.records =~= seq![]);
        assert(s@.pending =~= seq![]);
        assert(s@.tombstones =~= seq![]);
        s
    }

    /// Keeps a record; it is newer than all the others.
    pub fn insert(&mut self, lsn: LsnId, op: Operation)
        requires
            old(self).wf(),
            forall|i: int|
                0 <= i < old(self)@.records.len() ==> (#[trigger] old(self)@.records[i]).lsn.0
                    < lsn.0,
        ensures
            final(self).wf(),
            final(self)@ == (Versions {
                records: old(self)@.records.push(Entry { lsn, op: op@ }),
                ..old(self)@
            }),
    {
        let ghost was = self.records@;
        self.records.push(LogRecord { lsn, operation: op });
        assert(operation::entries(self.records@) =~= operation::entries(was).push(
            Entry { lsn, op: op@ },
        ));
    }

    /// The record under a number, if it is still kept.
    pub fn find(&self, lsn: LsnId) -> (r: Option<&Operation>)
        requires
            self.wf(),
        ensures
            match r {
                Some(op) => mvcc::by_lsn(self@.records).dom().contains(lsn.0) && op@
                    == mvcc::by_lsn(self@.records)[lsn.0],
                None => !mvcc::by_lsn(self@.records).dom().contains(lsn.0),
            },
    {
        let ghost es = self@.records;
        let mut lo: usize = 0;
        let mut hi: usize = self.records.len();
        while lo < hi
            invariant
                self.wf(),
                es == self@.records,
                lo <= hi <= self.records@.len(),
                forall|i: int| 0 <= i < lo ==> (#[trigger] es[i]).lsn.0 < lsn.0,
                forall|i: int| hi <= i < es.len() ==> lsn.0 < (#[trigger] es[i]).lsn.0,
            decreases hi - lo,
        {
            let mid: usize = lo + (hi - lo) / 2;
            let at: u64 = self.records[mid].lsn.0;
            assert(es[mid as int].lsn.0 == at);
            if at == lsn.0 {
                proof {
                    mvcc::by_lsn_at(es, mid as int);
                }
                return Some(&self.records[mid].operation);
            }
            if at < lsn.0 {
                lo = mid + 1;
            } else {
                hi = mid;
            }
        }
        proof {
            if mvcc::by_lsn(es).dom().contains(lsn.0) {
                let i = mvcc::by_lsn_find(es, lsn.0);
            }
        }
        None
    }

    /// The records of a transaction, in order.
    pub fn ops_of(&self, id: &TransactionId) -> (ops: Vec<LogRecord>)
        ensures
            operation::entries(ops@) == mvcc::ops_of(self@.records, id.0),
    {
        let mut ops: Vec<LogRecord> = Vec::new();
        let ghost es = self@.records;
        assert(operation::entries(ops@) =~= mvcc::ops_of(es.take(0), id.0));
        for i in 0..self.records.len()
            invariant
                es == self@.records,
                operation::entries(ops@) == mvcc::ops_of(es.take(i as int), id.0),
        {
            let ghost was = ops@;
            assert(es.take(i + 1).drop_last() =~= es.take(i as int));
            assert(es.take(i + 1).last() == es[i as int]);
            if txn_of(&self.records[i].operation) == id.0 {
                ops.push(self.records[i].clone());
                assert(operation::entries(ops@) =~= operation::entries(was).push(es[i as int]));
            }
        }
        assert(es.take(es.len() as int) =~= es);
        ops
    }

    /// Drops the records of a transaction.
    pub fn discard(&mut self, id: &TransactionId)
        requires
            old(self).wf(),
        ensures
            final(self).wf(),
            final(self)@ == (Versions {
                records: mvcc::without(old(self)@.records, set![id.0]),
                ..old(self)@
            }),
    {
        let mut kept: Vec<LogRecord> = Vec::new();
        let ghost es = self@.records;
        let ghost gone = set![id.0];
        assert(operation::entries(kept@) =~= mvcc::without(es.take(0), gone));
        for i in 0..self.records.len()
            invariant
                es == self@.records,
                gone == set![id.0],
                operation::entries(kept@) == mvcc::without(es.take(i as int), gone),
        {
            let ghost was = kept@;
            assert(es.take(i + 1).drop_last() =~= es.take(i as int));
            assert(es.take(i + 1).last() == es[i as int]);
            if txn_of(&self.records[i].operation) != id.0 {
                kept.push(self.records[i].clone());
                assert(operation::entries(kept@) =~= operation::entries(was).push(es[i as int]));
            }
        }
        assert(es.take(es.len() as int) =~= es);
        self.records = kept;
        proof {
            mvcc::by_lsn_without(es, gone);
        }
    }

    /// Notes that a transaction committed at `ts`: its records wait for the
    /// oldest reader, and so do the deletion marks that it left.
    pub fn mark_committed(&mut self, id: TransactionId, ts: u64)
        requires
            old(self).wf(),
        ensures
            final(self).wf(),
            final(self)@ == (Versions {
                records: old(self)@.records,
                pending: old(self)@.pending.push(Pending { txn: id.0, ts }),
                tombstones: old(self)@.tombstones + graves_of(
                    mvcc::ops_of(old(self)@.records, id.0),
                    ts,
                ),
            }),
    {
        let ops = self.ops_of(&id);
        let ghost es = operation::entries(ops@);
        let ghost before = graves(self.tombstones@);
        assert(before + graves_of(es.take(0), ts) =~= before);
        for i in 0..ops.len()
            invariant
                es == operation::entries(ops@),
                self.records == old(self).records,
                self.pending == old(self).pending,
                graves(self.tombstones@) == before + graves_of(es.take(i as int), ts),
        {
            let ghost was = self.tombstones@;
            assert(es.take(i + 1).drop_last() =~= es.take(i as int));
            assert(es.take(i + 1).last() == es[i as int]);
            assert(es[i as int] == ops@[i as int]@);
            match &ops[i].operation {
                Operation::Del { txn, pre } => {
                    let t = Tombstone {
                        table_id: pre.table_id,
                        key: pre.tuple.id.clone(),
                        txn: *txn,
                        ts,
                    };
                    self.tombstones.push(t);
                    assert(graves(self.tombstones@) =~= graves(was).push(t@));
                    assert(graves(self.tombstones@) =~= before + graves_of(es.take(i + 1), ts));
                },
                _ => {},
            }
        }
        assert(es.take(es.len() as int) =~= es);
        let ghost waiting = self.pending@;
        self.pending.push(CommittedTxn { txn: id.0, ts });
        assert(pending_view(self.pending@) =~= pending_view(waiting).push(
            Pending { txn: id.0, ts },
        ));
    }

    /// Is the transaction one of those whose records may go?
    fn may_go(&self, x: u64, horizon: Option<u64>) -> (r: bool)
        ensures
            r == steps::released_txns(self@.pending, horizon).contains(x),
    {
        for i in 0..self.pending.len()
            invariant
                forall|k: int|
                    0 <= k < i ==> !((#[trigger] self@.pending[k]).txn == x && steps::released(
                        horizon,
                        self@.pending[k].ts,
                    )),
        {
            if self.pending[i].txn == x && is_released(horizon, self.pending[i].ts) {
                assert(self@.pending[i as int].txn == x);
                return true;
            }
        }
        false
    }

    /// Drops what nobody can need any more: the records of the transactions
    /// that committed before the horizon. Hands out the deletion marks that
    /// may be purged.
    pub fn vacuum(&mut self, horizon: Option<u64>) -> (v: Vacuumed)
        requires
            old(self).wf(),
        ensures
            final(self).wf(),
            final(self)@ == (Versions {
                records: mvcc::without(
                    old(self)@.records,
                    steps::released_txns(old(self)@.pending, horizon),
                ),
                pending: steps::still_pending(old(self)@.pending, horizon),
                tombstones: waiting_graves(old(self)@.tombstones, horizon),
            }),
            graves(v.tombstones@) == released_graves(old(self)@.tombstones, horizon),
            v.records_discarded == old(self)@.records.len() - final(self)@.records.len(),
            v.transactions_forgotten == old(self)@.pending.len() - final(self)@.pending.len(),
    {
        let ghost gone = steps::released_txns(self@.pending, horizon);
        let ghost es = self@.records;
        let records_before: usize = self.records.len();
        let pending_before: usize = self.pending.len();
        let mut kept: Vec<LogRecord> = Vec::new();
        assert(operation::entries(kept@) =~= mvcc::without(es.take(0), gone));
        for i in 0..self.records.len()
            invariant
                *self == *old(self),
                es == self@.records,
                gone == steps::released_txns(self@.pending, horizon),
                kept@.len() <= i,
                operation::entries(kept@) == mvcc::without(es.take(i as int), gone),
        {
            let ghost was = kept@;
            assert(es.take(i + 1).drop_last() =~= es.take(i as int));
            assert(es.take(i + 1).last() == es[i as int]);
            if !self.may_go(txn_of(&self.records[i].operation), horizon) {
                kept.push(self.records[i].clone());
                assert(operation::entries(kept@) =~= operation::entries(was).push(es[i as int]));
            }
        }
        assert(es.take(es.len() as int) =~= es);
        let ghost ps = self@.pending;
        let ghost stays = |p: Pending| !steps::released(horizon, p.ts);
        let mut waiting: Vec<CommittedTxn> = Vec::new();
        proof {
            reveal(Seq::filter);
            assert(pending_view(waiting@) =~= ps.take(0).filter(stays));
        }
        for i in 0..self.pending.len()
            invariant
                *self == *old(self),
                ps == self@.pending,
                stays == (|p: Pending| !steps::released(horizon, p.ts)),
                waiting@.len() <= i,
                pending_view(waiting@) == ps.take(i as int).filter(stays),
        {
            let ghost was = waiting@;
            proof {
                filter_step(ps, i as int, stays);
            }
            if !is_released(horizon, self.pending[i].ts) {
                waiting.push(
                    CommittedTxn { txn: self.pending[i].txn, ts: self.pending[i].ts },
                );
                assert(pending_view(waiting@) =~= pending_view(was).push(ps[i as int]));
            }
        }
        assert(ps.take(ps.len() as int) =~= ps);
        let ghost gs = self@.tombstones;
        let ghost lies = |g: Grave| !steps::released(horizon, g.ts);
        let ghost goes = |g: Grave| steps::released(horizon, g.ts);
        let mut out: Vec<Tombstone> = Vec::new();
        let mut left: Vec<Tombstone> = Vec::new();
        proof {
            reveal(Seq::filter);
            assert(graves(out@) =~= gs.take(0).filter(goes));
            assert(graves(left@) =~= gs.take(0).filter(lies));
        }
        for i in 0..self.tombstones.len()
            invariant
                *self == *old(self),
                gs == self@.tombstones,
                lies == (|g: Grave| !steps::released(horizon, g.ts)),
                goes == (|g: Grave| steps::released(horizon, g.ts)),
                graves(out@) == gs.take(i as int).filter(goes),
                graves(left@) == gs.take(i as int).filter(lies),
        {
            proof {
                filter_step(gs, i as int, goes);
                filter_step(gs, i as int, lies);
            }
            let t = Tombstone {
                table_id: self.tombstones[i].table_id,
                key: self.tombstones[i].key.clone(),
                txn: self.tombstones[i].txn,
                ts: self.tombstones[i].ts,
            };
            assert(t@ == gs[i as int]);
            let ghost was_out = out@;
            let ghost was_left = left@;
            if is_released(horizon, t.ts) {
                out.push(t);
                assert(graves(out@) =~= graves(was_out).push(t@));
            } else {
                left.push(t);
                assert(graves(left@) =~= graves(was_left).push(t@));
            }
        }
        assert(gs.take(gs.len() as int) =~= gs);
        let v = Vacuumed {
            transactions_forgotten: pending_before - waiting.len(),
            records_discarded: records_before - kept.len(),
            tombstones: out,
        };
        self.records = kept;
        self.pending = waiting;
        self.tombstones = left;
        proof {
            mvcc::by_lsn_without(es, gone);
        }
        v
    }

    /// How many records are kept.
    pub fn records_len(&self) -> (n: usize)
        ensures
            n == self@.records.len(),
    {
        self.records.len()
    }

    /// How many commits wait for the oldest reader.
    pub fn committed_pending(&self) -> (n: usize)
        ensures
            n == self@.pending.len(),
    {
        self.pending.len()
    }

    /// How many deletion marks wait to be purged.
    pub fn tombstones_pending(&self) -> (n: usize)
        ensures
            n == self@.tombstones.len(),
    {
        self.tombstones.len()
    }
}

} // verus!

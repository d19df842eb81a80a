//! Transactions: who is active, who has committed and when.
use vstd::prelude::*;

use crate::assoc;
use crate::error::StoreError;
use crate::mvcc;
use crate::mvcc::Txns;
use crate::steps;

verus! {

/// A transaction's number, taken from the database's clock when it begins.
#[derive(Clone, Copy, Debug, PartialEq, PartialOrd, Eq, Hash, Structural)]
pub struct TransactionId(pub u64);

impl From<u64> for TransactionId {
    fn from(n: u64) -> (id: TransactionId) {
        TransactionId(n)
    }
}

impl vstd::std_specs::convert::FromSpecImpl<u64> for TransactionId {
    open spec fn obeys_from_spec() -> bool {
        true
    }

    open spec fn from_spec(n: u64) -> TransactionId {
        TransactionId(n)
    }
}

impl TransactionId {
    /// The number itself.
    pub fn id_num(&self) -> (n: u64)
        ensures
            n == self.0,
    {
        self.0
    }
}

/// What a write conflict does to the transaction that meets it.
#[derive(Clone, Copy, Debug, PartialEq, Eq, Structural)]
pub enum ConflictPolicy {
    /// Only the operation fails; the transaction stays open.
    ContinueOnConflict,
    /// The whole transaction is rolled back.
    AbortOnConflict,
}

/// A transaction that has begun and not finished.
pub struct ActiveTxn {
    pub id: u64,
    pub policy: ConflictPolicy,
}

/// When a transaction committed.
pub struct CommitTime {
    pub id: u64,
    pub ts: u64,
}

/// Which transactions are active or aborting, and when the others committed,
/// as far as somebody may still ask.
pub struct TransactionManager {
    pub active: Vec<ActiveTxn>,
    pub aborting: Vec<u64>,
    pub committed: Vec<CommitTime>,
}

/// The active transactions with their policies.
pub open spec fn active_pairs(s: Seq<ActiveTxn>) -> Seq<(u64, ConflictPolicy)> {
    s.map_values(|a: ActiveTxn| (a.id, a.policy))
}

/// The commits with their times.
pub open spec fn commit_pairs(s: Seq<CommitTime>) -> Seq<(u64, u64)> {
    s.map_values(|c: CommitTime| (c.id, c.ts))
}

/// The numbers in a list.
pub open spec fn members(s: Seq<u64>) -> Set<u64> {
    Set::new(|x: u64| s.contains(x))
}

impl View for TransactionManager {
    type V = Txns;

    open spec fn view(&self) -> Txns {
        Txns {
            active: assoc::assoc(active_pairs(self.active@)),
            aborting: members(self.aborting@),
            committed: assoc::assoc(commit_pairs(self.committed@)),
        }
    }
}

impl TransactionManager {
    /// Is every transaction listed once?
    pub open spec fn wf(&self) -> bool {
        &&& assoc::unique(active_pairs(self.active@))
        &&& self.aborting@.no_duplicates()
        &&& assoc::unique(commit_pairs(self.committed@))
    }

    /// No transaction has begun.
    pub fn new() -> (m: TransactionManager)
        ensures
            m.wf(),
            m@ == Txns::none(),
            m.active@.len() == 0,
            m.aborting@.len() == 0,
            m.committed@.len() == 0,
    {
        let m = TransactionManager {
            active: Vec::new(),
            aborting: Vec::new(),
            committed: Vec::new(),
        };
        proof {
            assert(active_pairs(m.active@) =~= Seq::empty());
            assert(commit_pairs(m.committed@) =~= Seq::empty());
            assoc::assoc_empty::<u64, ConflictPolicy>();
            assoc::assoc_empty::<u64, u64>();
            assert(members(m.aborting@) =~= Set::empty());
        }
        m
    }

    /// Where the active transaction stands in the list.
    fn active_slot(&self, id: u64) -> (r: Option<usize>)
        requires
            self.wf(),
        ensures
            match r {
                Some(i) => i < self.active@.len() && self.active@[i as int].id == id
                    && self@.active.dom().contains(id) && self@.active[id]
                    == self.active@[i as int].policy,
                None => !self@.active.dom().contains(id),
            },
    {
        for i in 0..self.active.len()
            invariant
                self.wf(),
                forall|k: int| 0 <= k < i ==> (#[trigger] self.active@[k]).id != id,
        {
            if self.active[i].id == id {
                proof {
                    assoc::assoc_at(active_pairs(self.active@), i as int);
                }
                return Some(i);
            }
        }
        proof {
            assert forall|k: int| 0 <= k < active_pairs(self.active@).len() implies (
            #[trigger] active_pairs(self.active@)[k]).0 != id by {
                assert(self.active@[k].id != id);
            }
            assoc::assoc_absent(active_pairs(self.active@), id);
        }
        None
    }

    /// Where the aborting transaction stands in the list.
    fn aborting_slot(&self, id: u64) -> (r: Option<usize>)
        ensures
            match r {
                Some(i) => i < self.aborting@.len() && self.aborting@[i as int] == id
                    && self@.aborting.contains(id),
                None => !self@.aborting.contains(id),
            },
    {
        for i in 0..self.aborting.len()
            invariant
                forall|k: int| 0 <= k < i ==> self.aborting@[k] != id,
        {
            if self.aborting[i] == id {
                return Some(i);
            }
        }
        None
    }

    /// When the transaction committed, if that is still remembered.
    fn commit_time(&self, id: u64) -> (r: Option<u64>)
        requires
            self.wf(),
        ensures
            match r {
                Some(ts) => self@.committed.dom().contains(id) && self@.committed[id] == ts,
                None => !self@.committed.dom().contains(id),
            },
    {
        for i in 0..self.committed.len()
            invariant
                self.wf(),
                forall|k: int| 0 <= k < i ==> (#[trigger] self.committed@[k]).id != id,
        {
            if self.committed[i].id == id {
                proof {
                    assoc::assoc_at(commit_pairs(self.committed@), i as int);
                }
                return Some(self.committed[i].ts);
            }
        }
        proof {
            assert forall|k: int| 0 <= k < commit_pairs(self.committed@).len() implies (
            #[trigger] commit_pairs(self.committed@)[k]).0 != id by {
                assert(self.committed@[k].id != id);
            }
            assoc::assoc_absent(commit_pairs(self.committed@), id);
        }
        None
    }

    /// Registers a transaction that begins.
    pub fn create_transaction(&mut self, id: u64, policy: ConflictPolicy)
        requires
            old(self).wf(),
            !old(self)@.active.dom().contains(id),
        ensures
            final(self).wf(),
            final(self)@ == (Txns { active: old(self)@.active.insert(id, policy), ..old(self)@ }),
            final(self).active@.len() == old(self).active@.len() + 1,
            final(self).aborting == old(self).aborting,
            final(self).committed == old(self).committed,
    {
        let ghost before = self.active@;
        proof {
            assoc::assoc_push(active_pairs(before), id, policy);
        }
        self.active.push(ActiveTxn { id, policy });
        assert(active_pairs(self.active@) =~= active_pairs(before).push((id, policy)));
    }

    /// Is the transaction active?
    pub fn is_transaction_active(&self, txn: &TransactionId) -> (r: bool)
        requires
            self.wf(),
        ensures
            r == self@.active.dom().contains(txn.0),
    {
        self.active_slot(txn.0).is_some()
    }

    /// What a write conflict does to the transaction.
    pub fn conflict_policy(&self, txn: &TransactionId) -> (r: ConflictPolicy)
        requires
            self.wf(),
        ensures
            r == if self@.active.dom().contains(txn.0) {
                self@.active[txn.0]
            } else {
                ConflictPolicy::ContinueOnConflict
            },
    {
        match self.active_slot(txn.0) {
            Some(i) => self.active[i].policy,
            None => ConflictPolicy::ContinueOnConflict,
        }
    }

    /// Has the transaction committed?
    pub fn is_committed(&self, txn: &TransactionId) -> (r: bool)
        requires
            self.wf(),
        ensures
            r == self@.is_committed(txn.0),
    {
        self.active_slot(txn.0).is_none() && self.aborting_slot(txn.0).is_none()
    }

    /// Does `reader` see what `writer` wrote?
    pub fn is_visible(&self, writer: &TransactionId, reader: &TransactionId) -> (r: bool)
        requires
            self.wf(),
        ensures
            r == self@.visible(writer.0, reader.0),
    {
        if writer.0 == reader.0 {
            return true;
        }
        if !self.is_committed(writer) {
            return false;
        }
        match self.commit_time(writer.0) {
            Some(ts) => ts < reader.0,
            None => true,
        }
    }

    /// May `txn` not build on what `writer` wrote? The rule is the reader's,
    /// turned round: it may not build on what it cannot see.
    pub fn conflicts(&self, writer: &TransactionId, txn: &TransactionId) -> (r: bool)
        requires
            self.wf(),
        ensures
            r == !self@.visible(writer.0, txn.0),
    {
        !self.is_visible(writer, txn)
    }

    /// Records that an active transaction committed at `ts`.
    pub fn commit(&mut self, id: TransactionId, ts: u64) -> (r: Result<(), StoreError>)
        requires
            old(self).wf(),
            !old(self)@.committed.dom().contains(id.0),
        ensures
            final(self).wf(),
            match r {
                Ok(()) => old(self)@.active.dom().contains(id.0) && final(self)@ == (Txns {
                    active: old(self)@.active.remove(id.0),
                    committed: old(self)@.committed.insert(id.0, ts),
                    ..old(self)@
                }) && final(self).active@.len() == old(self).active@.len() - 1
                    && final(self).committed@.len() == old(self).committed@.len() + 1
                    && final(self).aborting == old(self).aborting,
                Err(e) => !old(self)@.active.dom().contains(id.0) && e
                    is TransactionAlreadyFinished && *final(self) == *old(self),
            },
    {
        match self.active_slot(id.0) {
            None => Err(StoreError::TransactionAlreadyFinished),
            Some(i) => {
                let ghost was = self.active@;
                let ghost times = self.committed@;
                let _gone = self.active.remove(i);
                proof {
                    assert(active_pairs(self.active@) =~= active_pairs(was).remove(i as int));
                    assoc::assoc_remove(active_pairs(was), i as int);
                    assoc::assoc_push(commit_pairs(times), id.0, ts);
                }
                self.committed.push(CommitTime { id: id.0, ts });
                assert(commit_pairs(self.committed@) =~= commit_pairs(times).push((id.0, ts)));
                Ok(())
            },
        }
    }

    /// Takes an active transaction out of play: from now on nobody sees its
    /// writes, though they are not undone yet.
    pub fn abort(&mut self, id: TransactionId) -> (r: Result<(), StoreError>)
        requires
            old(self).wf(),
            old(self)@.active.dom().contains(id.0) ==> !old(self)@.aborting.contains(id.0),
        ensures
            final(self).wf(),
            match r {
                Ok(()) => old(self)@.active.dom().contains(id.0) && final(self)@ == (Txns {
                    active: old(self)@.active.remove(id.0),
                    aborting: old(self)@.aborting.insert(id.0),
                    ..old(self)@
                }) && final(self).active@.len() == old(self).active@.len() - 1
                    && final(self).aborting@.len() == old(self).aborting@.len() + 1
                    && final(self).committed == old(self).committed,
                Err(e) => !old(self)@.active.dom().contains(id.0) && e
                    is TransactionAlreadyFinished && *final(self) == *old(self),
            },
    {
        match self.active_slot(id.0) {
            None => Err(StoreError::TransactionAlreadyFinished),
            Some(i) => {
                let ghost was = self.active@;
                let ghost list = self.aborting@;
                let _gone = self.active.remove(i);
                proof {
                    assert(active_pairs(self.active@) =~= active_pairs(was).remove(i as int));
                    assoc::assoc_remove(active_pairs(was), i as int);
                    assert(!list.contains(id.0));
                }
                self.aborting.push(id.0);
                proof {
                    assert(self.aborting@[list.len() as int] == id.0);
                    assert forall|x: u64| members(self.aborting@).contains(x) <==> members(
                        list,
                    ).insert(id.0).contains(x) by {
                        if list.contains(x) {
                            let k = choose|k: int| 0 <= k < list.len() && list[k] == x;
                            assert(self.aborting@[k] == x);
                        }
                    }
                    assert(members(self.aborting@) =~= members(list).insert(id.0));
                }
                Ok(())
            },
        }
    }

    /// Forgets a transaction whose writes are all undone.
    pub fn abort_complete(&mut self, id: &TransactionId)
        requires
            old(self).wf(),
        ensures
            final(self).wf(),
            final(self)@ == (Txns { aborting: old(self)@.aborting.remove(id.0), ..old(self)@ }),
            final(self).active == old(self).active,
            final(self).committed == old(self).committed,
    {
        match self.aborting_slot(id.0) {
            None => {
                assert(self@.aborting =~= old(self)@.aborting.remove(id.0));
            },
            Some(i) => {
                let ghost list = self.aborting@;
                let _gone = self.aborting.remove(i);
                proof {
                    assert(self.aborting@ =~= list.remove(i as int));
                    assert forall|x: u64| members(self.aborting@).contains(x) <==> members(
                        list,
                    ).remove(id.0).contains(x) by {
                        if members(list).remove(id.0).contains(x) {
                            let k = choose|k: int| 0 <= k < list.len() && list[k] == x;
                            if k < i {
                                assert(self.aborting@[k] == x);
                            } else {
                                assert(self.aborting@[k - 1] == x);
                            }
                        }
                        if self.aborting@.contains(x) {
                            let k = choose|k: int|
                                0 <= k < self.aborting@.len() && self.aborting@[k] == x;
                            if k < i {
                                assert(list[k] == x);
                            } else {
                                assert(list[k + 1] == x);
                            }
                        }
                    }
                    assert(members(self.aborting@) =~= members(list).remove(id.0));
                }
            },
        }
    }

    /// The transactions whose writes are not undone yet, oldest abort first.
    pub fn aborting_ids(&self) -> (ids: Vec<u64>)
        ensures
            ids@ == self.aborting@,
    {
        let mut ids: Vec<u64> = Vec::new();
        for i in 0..self.aborting.len()
            invariant
                ids@ == self.aborting@.take(i as int),
        {
            ids.push(self.aborting[i]);
            assert(self.aborting@.take(i + 1) =~= self.aborting@.take(i as int).push(
                self.aborting@[i as int],
            ));
        }
        assert(self.aborting@.take(self.aborting@.len() as int) =~= self.aborting@);
        ids
    }

    /// The oldest active transaction.
    pub fn oldest_active(&self) -> (r: Option<u64>)
        requires
            self.wf(),
        ensures
            r == self@.oldest_active(),
            steps::horizon_ok(self@, r),
    {
        let mut best: Option<u64> = None;
        for i in 0..self.active.len()
            invariant
                self.wf(),
                best is None ==> i == 0,
                best matches Some(m) ==> self@.active.dom().contains(m) && forall|k: int|
                    0 <= k < i ==> m <= (#[trigger] self.active@[k]).id,
        {
            let id: u64 = self.active[i].id;
            proof {
                assoc::assoc_at(active_pairs(self.active@), i as int);
            }
            best =
            match best {
                Some(m) => if m <= id {
                    Some(m)
                } else {
                    Some(id)
                },
                None => Some(id),
            };
        }
        proof {
            let ids = self@.active.dom();
            assert forall|x: u64| #[trigger] ids.contains(x) implies exists|k: int|
                0 <= k < self.active@.len() && (#[trigger] self.active@[k]).id == x by {
                let k = assoc::assoc_find(active_pairs(self.active@), x);
                assert(self.active@[k].id == x);
            }
            match best {
                Some(m) => {
                    mvcc::least_is(ids, m);
                },
                None => {
                    mvcc::least_of_none(ids);
                },
            }
        }
        best
    }

    /// The oldest active transaction is one of the active ones.
    pub proof fn oldest_is_active(&self)
        ensures
            self@.oldest_active() matches Some(x) ==> self@.active.dom().contains(x),
    {
        let ids = self@.active.dom();
        if exists|m: u64| mvcc::is_least(ids, m) {
            let m = choose|m: u64| mvcc::is_least(ids, m);
            assert(mvcc::is_least(ids, m));
        }
    }

    /// The oldest transaction that is active or still aborting.
    pub fn oldest_in_flight(&self) -> (r: Option<u64>)
        requires
            self.wf(),
        ensures
            r == self@.oldest_in_flight(),
            match r {
                Some(m) => forall|x: u64| #[trigger] self@.unfinished(x) ==> m <= x,
                None => forall|x: u64| !(#[trigger] self@.unfinished(x)),
            },
    {
        let mut best: Option<u64> = self.oldest_active();
        let ghost start = best;
        let ghost act = self@.active.dom();
        proof {
            assert forall|x: u64| #[trigger] act.contains(x) implies (start matches Some(m)
                && m <= x) by {
                if start is None {
                    assert(!act.contains(x));
                }
            }
            if start is Some {
                assert(mvcc::is_least(act, start->0)) by {
                    if !(exists|m: u64| mvcc::is_least(act, m)) {
                        assert(start == None::<u64>);
                    }
                }
            }
        }
        for i in 0..self.aborting.len()
            invariant
                act == self@.active.dom(),
                best is None ==> start is None && i == 0,
                best matches Some(m) ==> (act.contains(m) || self@.aborting.contains(m)) && (
                start matches Some(s) ==> m <= s) && forall|k: int|
                    0 <= k < i ==> m <= self.aborting@[k],
        {
            let id: u64 = self.aborting[i];
            assert(self@.aborting.contains(id));
            best =
            match best {
                Some(m) => if m <= id {
                    Some(m)
                } else {
                    Some(id)
                },
                None => Some(id),
            };
        }
        proof {
            let ids = act.union(self@.aborting);
            assert forall|x: u64| self@.aborting.contains(x) implies exists|k: int|
                0 <= k < self.aborting@.len() && self.aborting@[k] == x by {}
            match best {
                Some(m) => {
                    assert forall|x: u64| #[trigger] ids.contains(x) implies m <= x by {
                        if self@.aborting.contains(x) {
                            let k = choose|k: int|
                                0 <= k < self.aborting@.len() && self.aborting@[k] == x;
                            assert(m <= self.aborting@[k]);
                        }
                    }
                    mvcc::least_is(ids, m);
                    assert forall|x: u64| #[trigger] self@.unfinished(x) implies m <= x by {
                        assert(ids.contains(x));
                    }
                },
                None => {
                    assert forall|x: u64| !(#[trigger] ids.contains(x)) by {
                        if self@.aborting.contains(x) {
                            let k = choose|k: int|
                                0 <= k < self.aborting@.len() && self.aborting@[k] == x;
                        }
                    }
                    mvcc::least_of_none(ids);
                    assert forall|x: u64| !(#[trigger] self@.unfinished(x)) by {
                        assert(!ids.contains(x));
                    }
                },
            }
        }
        best
    }

    /// How many transactions are active.
    pub fn active_count(&self) -> (n: usize)
        ensures
            n == self.active@.len(),
    {
        self.active.len()
    }

    /// How many transactions are aborting.
    pub fn aborting_count(&self) -> (n: usize)
        ensures
            n == self.aborting@.len(),
    {
        self.aborting.len()
    }

    /// How many commits are remembered.
    pub fn committed_retained(&self) -> (n: usize)
        ensures
            n == self.committed@.len(),
    {
        self.committed.len()
    }

    /// Forgets the commits that every active reader sees.
    pub fn prune_committed(&mut self)
        requires
            old(self).wf(),
        ensures
            final(self).wf(),
            final(self)@ == (Txns {
                committed: Map::new(
                    |x: u64|
                        old(self)@.committed.dom().contains(x) && !steps::released(
                            old(self)@.oldest_active(),
                            old(self)@.committed[x],
                        ),
                    |x: u64| old(self)@.committed[x],
                ),
                ..old(self)@
            }),
            final(self).active == old(self).active,
            final(self).aborting == old(self).aborting,
            old(self)@.oldest_active() is None ==> final(self).committed@.len() == 0,
    {
        let horizon = self.oldest_active();
        let ghost all = self@.committed;
        let mut i: usize = 0;
        while i < self.committed.len()
            invariant
                self.wf(),
                i <= self.committed@.len(),
                self.active == old(self).active,
                self.aborting == old(self).aborting,
                all == old(self)@.committed,
                forall|x: u64| #[trigger]
                    self@.committed.dom().contains(x) ==> all.dom().contains(x)
                        && self@.committed[x] == all[x],
                forall|x: u64| #[trigger]
                    all.dom().contains(x) && !steps::released(horizon, all[x])
                        ==> self@.committed.dom().contains(x),
                forall|k: int|
                    0 <= k < i ==> !steps::released(horizon, (#[trigger] self.committed@[k]).ts),
            decreases self.committed@.len() - i,
        {
            let ts: u64 = self.committed[i].ts;
            let go: bool = match horizon {
                Some(h) => ts < h,
                None => true,
            };
            proof {
                assoc::assoc_at(commit_pairs(self.committed@), i as int);
            }
            if go {
                let ghost was = self.committed@;
                let ghost before = self@.committed;
                let _gone = self.committed.remove(i);
                proof {
                    assert(commit_pairs(self.committed@) =~= commit_pairs(was).remove(i as int));
                    assoc::assoc_remove(commit_pairs(was), i as int);
                    assert(self@.committed == before.remove(was[i as int].id));
                }
            } else {
                i = i + 1;
            }
        }
        proof {
            let want = Map::new(
                |x: u64| all.dom().contains(x) && !steps::released(horizon, all[x]),
                |x: u64| all[x],
            );
            assert forall|x: u64| self@.committed.dom().contains(x) <==> want.dom().contains(
                x,
            ) by {
                if self@.committed.dom().contains(x) {
                    let k = assoc::assoc_find(commit_pairs(self.committed@), x);
                    assert(!steps::released(horizon, self.committed@[k].ts));
                }
            }
            assert(self@.committed =~= want);
            if horizon is None && self.committed@.len() > 0 {
                assert(!steps::released(horizon, self.committed@[0].ts));
            }
        }
    }
}

/// A transaction in the hands of whoever began it.
pub struct Transaction {
    pub id: TransactionId,
}

impl Transaction {
    /// The transaction's number.
    pub fn id(&self) -> (id: TransactionId)
        ensures
            id == self.id,
    {
        self.id
    }

    /// Gives the transaction up for its number.
    pub fn into_id(self) -> (id: TransactionId)
        ensures
            id == self.id,
    {
        self.id
    }
}

} // verus!

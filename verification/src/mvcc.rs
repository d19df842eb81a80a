//! The model of multi-version rows: who sees which version, what every
//! operation does to the versions, and what no operation may break.
use vstd::prelude::*;

use crate::operation::{Entry, Op};
use crate::table::TableIdType;
use crate::tuple::{Key, Row};
use crate::txn::{ConflictPolicy, TransactionId};

verus! {

/// Where a row is: its table and its key.
#[verifier::ext_equal]
pub struct Place {
    pub table: TableIdType,
    pub key: Key,
}

// ---------------------------------------------------------------------------
// Transactions
// ---------------------------------------------------------------------------

/// The state of all transactions.
///
/// `committed` only remembers the commits that some active reader may not see
/// yet. A transaction that is neither active nor aborting has committed.
#[verifier::ext_equal]
pub struct Txns {
    pub active: Map<u64, ConflictPolicy>,
    pub aborting: Set<u64>,
    pub committed: Map<u64, u64>,
}

impl Txns {
    /// No transaction has begun.
    pub open spec fn none() -> Txns {
        Txns { active: Map::empty(), aborting: Set::empty(), committed: Map::empty() }
    }

    /// Is `w` still active, or aborting with writes that are not undone yet?
    pub open spec fn unfinished(self, w: u64) -> bool {
        self.active.dom().contains(w) || self.aborting.contains(w)
    }

    /// Has `w` committed?
    pub open spec fn is_committed(self, w: u64) -> bool {
        !self.unfinished(w)
    }

    /// The oldest active transaction: the reader that holds the most back.
    pub open spec fn oldest_active(self) -> Option<u64> {
        least(self.active.dom())
    }

    /// The oldest transaction that is active or still aborting.
    pub open spec fn oldest_in_flight(self) -> Option<u64> {
        least(self.active.dom().union(self.aborting))
    }

    /// Does the reader `r` see what `w` wrote? It does if it is `w` itself, or
    /// if `w` committed before `r` began.
    pub open spec fn visible(self, w: u64, r: u64) -> bool {
        w == r || (self.is_committed(w) && (self.committed.dom().contains(w) ==> self.committed[w]
            < r))
    }
}

/// Is `m` the least of the numbers?
pub open spec fn is_least(ids: Set<u64>, m: u64) -> bool {
    ids.contains(m) && forall|x: u64| #[trigger] ids.contains(x) ==> m <= x
}

/// The least of the numbers, if there are any.
pub open spec fn least(ids: Set<u64>) -> Option<u64> {
    if exists|m: u64| is_least(ids, m) {
        Some(choose|m: u64| is_least(ids, m))
    } else {
        None
    }
}

/// There is only one least number.
pub proof fn least_is(ids: Set<u64>, m: u64)
    requires
        is_least(ids, m),
    ensures
        least(ids) == Some(m),
{
    let c = choose|c: u64| is_least(ids, c);
    assert(ids.contains(c) && ids.contains(m));
}

/// Of no numbers, none is the least.
pub proof fn least_of_none(ids: Set<u64>)
    requires
        forall|x: u64| !(#[trigger] ids.contains(x)),
    ensures
        least(ids) == None::<u64>,
{
    if exists|m: u64| is_least(ids, m) {
        let m = choose|m: u64| is_least(ids, m);
        assert(ids.contains(m));
    }
}

/// Whose eyes a version is looked at with.
pub enum Viewer {
    /// Everything that has committed is visible.
    Latest,
    /// What the transaction with this number may see.
    Reader(u64),
}

/// Does the viewer see what `w` wrote?
pub open spec fn sees(t: Txns, v: Viewer, w: u64) -> bool {
    match v {
        Viewer::Latest => t.is_committed(w),
        Viewer::Reader(r) => t.visible(w, r),
    }
}

/// Is the viewer one that may look now?
pub open spec fn may_look(t: Txns, v: Viewer) -> bool {
    v matches Viewer::Reader(r) ==> t.active.dom().contains(r)
}

// ---------------------------------------------------------------------------
// Version records
// ---------------------------------------------------------------------------

/// Is the operation a write to a row?
pub open spec fn data_op(op: Op) -> bool {
    op is Add || op is Mod || op is Del
}

/// The transaction that an operation belongs to.
pub open spec fn op_txn(op: Op) -> u64 {
    match op {
        Op::Add { txn, .. } => txn.0,
        Op::Mod { txn, .. } => txn.0,
        Op::Del { txn, .. } => txn.0,
        Op::Commit(txn) => txn.0,
        Op::Rollback(txn) => txn.0,
        Op::Sequence { .. } => 0,
        Op::Purge { txn, .. } => txn.0,
    }
}

/// The place that a write goes to.
pub open spec fn op_place(op: Op) -> Place {
    match op {
        Op::Add { post, .. } => Place { table: post.table_id, key: post.tuple.id },
        Op::Mod { pre, .. } => Place { table: pre.table_id, key: pre.tuple.id },
        Op::Del { pre, .. } => Place { table: pre.table_id, key: pre.tuple.id },
        Op::Purge { table_id, key, .. } => Place { table: table_id, key },
        _ => Place { table: TableIdType(0), key: Key::Int(0) },
    }
}

/// The version that a walk back through a record arrives at.
pub open spec fn pre_image(op: Op) -> Option<Row> {
    match op {
        Op::Add { post, .. } => Some(post.tuple),
        Op::Mod { pre, .. } => Some(pre.tuple),
        Op::Del { pre, .. } => Some(pre.tuple),
        _ => None,
    }
}

/// The records by their sequence numbers.
pub open spec fn by_lsn(records: Seq<Entry>) -> Map<u64, Op>
    decreases records.len(),
{
    if records.len() == 0 {
        Map::empty()
    } else {
        by_lsn(records.drop_last()).insert(records.last().lsn.0, records.last().op)
    }
}

/// The sequence numbers strictly grow.
pub open spec fn ascending(records: Seq<Entry>) -> bool {
    forall|i: int, j: int|
        0 <= i < j < records.len() ==> (#[trigger] records[i]).lsn.0 < (#[trigger] records[j]).lsn.0
}

/// The records of one transaction, in order.
pub open spec fn ops_of(records: Seq<Entry>, txn: u64) -> Seq<Entry>
    decreases records.len(),
{
    if records.len() == 0 {
        seq![]
    } else if op_txn(records.last().op) == txn {
        ops_of(records.drop_last(), txn).push(records.last())
    } else {
        ops_of(records.drop_last(), txn)
    }
}

/// The records of all transactions but those in `gone`, in order.
pub open spec fn without(records: Seq<Entry>, gone: Set<u64>) -> Seq<Entry>
    decreases records.len(),
{
    if records.len() == 0 {
        seq![]
    } else if gone.contains(op_txn(records.last().op)) {
        without(records.drop_last(), gone)
    } else {
        without(records.drop_last(), gone).push(records.last())
    }
}

// ---------------------------------------------------------------------------
// Visibility
// ---------------------------------------------------------------------------

/// What looking for a visible version comes to.
pub enum Sight {
    /// This version is the one to see.
    Found(Row),
    /// There is nothing to see: no earlier version ever existed.
    NoAncestor,
    /// An earlier version existed, but its record is gone.
    MissingUndoRecord,
    /// The version does not say who wrote it.
    NoWriter,
}

/// Goes back from a version that is not visible to the newest one that is.
pub open spec fn walk(m: Map<u64, Op>, t: Txns, v: Viewer, row: Row) -> Sight
    decreases
            (match row.pre_lsn {
                Some(l) => l.0 as int + 1,
                None => 0,
            }),
{
    match row.pre_lsn {
        None => Sight::NoAncestor,
        Some(l) => if !m.dom().contains(l.0) {
            Sight::MissingUndoRecord
        } else {
            match pre_image(m[l.0]) {
                None => Sight::MissingUndoRecord,
                Some(next) => match next.txn_id {
                    None => Sight::NoAncestor,
                    Some(w) => if sees(t, v, w.0) {
                        Sight::Found(next)
                    } else if next.pre_lsn matches Some(k) && k.0 >= l.0 {
                        Sight::MissingUndoRecord
                    } else {
                        walk(m, t, v, next)
                    },
                },
            }
        },
    }
}

/// The version of a row that the viewer sees.
pub open spec fn resolve(m: Map<u64, Op>, t: Txns, v: Viewer, row: Row) -> Sight {
    match row.txn_id {
        None => Sight::NoWriter,
        Some(w) => if sees(t, v, w.0) {
            Sight::Found(row)
        } else {
            walk(m, t, v, row)
        },
    }
}

/// What looking for a visible version at a place comes to.
pub open spec fn look_at(
    m: Map<u64, Op>,
    t: Txns,
    v: Viewer,
    rows: Map<Place, Row>,
    p: Place,
) -> Sight {
    if rows.dom().contains(p) {
        resolve(m, t, v, rows[p])
    } else {
        Sight::NoAncestor
    }
}

/// Did the look come to a definite answer?
pub open spec fn definite(s: Sight) -> bool {
    s is Found || s is NoAncestor
}

// ---------------------------------------------------------------------------
// The state
// ---------------------------------------------------------------------------

/// A deletion mark to be purged once nobody can see past it: where it is, who
/// left it, and when that was committed.
#[verifier::ext_equal]
pub struct Grave {
    pub table_id: TableIdType,
    pub key: Key,
    pub txn: TransactionId,
    pub ts: u64,
}

/// A committed transaction whose version records are still kept.
#[verifier::ext_equal]
pub struct Pending {
    pub txn: u64,
    pub ts: u64,
}

/// Everything that decides what a transaction sees.
#[verifier::ext_equal]
pub struct Core {
    /// The tables that exist.
    pub live: Set<TableIdType>,
    /// The number that the next table gets, or a lower one.
    pub next_table: u64,
    /// The newest version of every row.
    pub rows: Map<Place, Row>,
    pub txns: Txns,
    /// What was written and can still be undone or looked behind.
    pub records: Seq<Entry>,
    /// Commits that wait for the oldest reader to move on.
    pub pending: Seq<Pending>,
    /// The next number that the clock hands out.
    pub counter: nat,
}

/// Is a version's link to its record sound? The record is older than `limit`,
/// written by the same transaction, under the same key.
pub open spec fn link_ok(m: Map<u64, Op>, row: Row, limit: nat) -> bool {
    row.pre_lsn matches Some(l) ==> l.0 < limit && (m.dom().contains(l.0) ==> row.txn_id == Some(
        TransactionId(op_txn(m[l.0])),
    ) && op_place(m[l.0]).key == row.id)
}

/// Is a version that a record replaces sound? Only its own writer, or a
/// transaction that committed, can have written it.
pub open spec fn pre_ok(c: Core, e: Entry, pre: Row) -> bool {
    &&& pre.txn_id matches Some(w) && w.0 < c.counter && (w.0 == op_txn(e.op)
        || c.txns.is_committed(w.0))
    &&& link_ok(by_lsn(c.records), pre, e.lsn.0 as nat)
}

/// Is a record sound?
pub open spec fn record_ok(c: Core, e: Entry) -> bool {
    &&& e.lsn.0 < c.counter
    &&& op_txn(e.op) < c.counter
    &&& op_place(e.op).table.0 < c.next_table
    &&& match e.op {
        Op::Add { txn, post } => post.tuple.txn_id == Some(txn) && post.tuple.pre_lsn is None,
        Op::Mod { txn, pre, post } => pre_ok(c, e, pre.tuple) && post.table_id == pre.table_id
            && post.tuple.id == pre.tuple.id,
        Op::Del { txn, pre } => pre_ok(c, e, pre.tuple),
        _ => false,
    }
}

/// Is a row sound?
pub open spec fn row_ok(c: Core, p: Place, row: Row) -> bool {
    &&& c.live.contains(p.table)
    &&& row.id == p.key
    &&& row.txn_id matches Some(w) && w.0 < c.counter
    &&& link_ok(by_lsn(c.records), row, c.counter)
}

/// Are the transactions' numbers in order?
pub open spec fn txns_ok(c: Core) -> bool {
    &&& forall|x: u64| #[trigger] c.txns.active.dom().contains(x) ==> x < c.counter
        && !c.txns.aborting.contains(x)
    &&& forall|x: u64| #[trigger] c.txns.aborting.contains(x) ==> x < c.counter
    &&& forall|x: u64| #[trigger]
        c.txns.committed.dom().contains(x) ==> x < c.counter && c.txns.committed[x] < c.counter
            && c.txns.is_committed(x)
}

/// Are the commits that wait really commits?
pub open spec fn pending_ok(c: Core) -> bool {
    forall|i: int|
        0 <= i < c.pending.len() ==> {
            let p = #[trigger] c.pending[i];
            &&& p.txn < c.counter
            &&& p.ts < c.counter
            &&& c.txns.is_committed(p.txn)
            &&& c.txns.committed.dom().contains(p.txn) ==> c.txns.committed[p.txn] == p.ts
        }
}

/// The rows after one write of `txn` is taken back: the row goes, or the
/// version before comes back, if the row still is what `txn` wrote.
pub open spec fn revert_one(
    rows: Map<Place, Row>,
    live: Set<TableIdType>,
    op: Op,
    txn: u64,
) -> Map<Place, Row> {
    let p = op_place(op);
    if data_op(op) && live.contains(p.table) && rows.dom().contains(p) && rows[p].txn_id == Some(
        TransactionId(txn),
    ) {
        if op is Add {
            rows.remove(p)
        } else {
            rows.insert(p, pre_image(op)->0)
        }
    } else {
        rows
    }
}

/// The rows after all of these writes are taken back, the newest first.
pub open spec fn revert_all(
    rows: Map<Place, Row>,
    live: Set<TableIdType>,
    ops: Seq<Entry>,
    txn: u64,
) -> Map<Place, Row>
    decreases ops.len(),
{
    if ops.len() == 0 {
        rows
    } else {
        revert_all(revert_one(rows, live, ops.last().op, txn), live, ops.drop_last(), txn)
    }
}

/// Is no row the writer's?
pub open spec fn none_by(rows: Map<Place, Row>, txn: u64) -> bool {
    forall|p: Place| #[trigger]
        rows.dom().contains(p) ==> rows[p].txn_id != Some(TransactionId(txn))
}

/// Do these writes explain every row that is `txn`'s, step by step?
pub open spec fn own_chain(
    rows: Map<Place, Row>,
    live: Set<TableIdType>,
    ops: Seq<Entry>,
    txn: u64,
) -> bool
    decreases ops.len(),
{
    if ops.len() == 0 {
        none_by(rows, txn)
    } else {
        let e = ops.last();
        let p = op_place(e.op);
        &&& data_op(e.op)
        &&& live.contains(p.table) ==> {
            &&& rows.dom().contains(p)
            &&& rows[p].txn_id == Some(TransactionId(txn))
            &&& rows[p].pre_lsn == if e.op is Add {
                None
            } else {
                Some(e.lsn)
            }
        }
        &&& own_chain(revert_one(rows, live, e.op, txn), live, ops.drop_last(), txn)
    }
}

impl Core {
    /// The records by their sequence numbers.
    pub open spec fn map(self) -> Map<u64, Op> {
        by_lsn(self.records)
    }

    /// Can every viewer that may look find out what there is to see?
    pub open spec fn chains_ok(self) -> bool {
        forall|p: Place, v: Viewer|
            may_look(self.txns, v) ==> definite(#[trigger] self.look(v, p))
    }

    /// Can every unfinished transaction be undone?
    pub open spec fn owners_ok(self) -> bool {
        forall|x: u64| #[trigger]
            self.txns.unfinished(x) ==> own_chain(
                self.rows,
                self.live,
                ops_of(self.records, x),
                x,
            )
    }

    /// What every operation keeps.
    pub open spec fn wf(self) -> bool {
        &&& ascending(self.records)
        &&& forall|i: int|
            0 <= i < self.records.len() ==> record_ok(self, #[trigger] self.records[i])
        &&& forall|p: Place| #[trigger]
            self.rows.dom().contains(p) ==> row_ok(self, p, self.rows[p])
        &&& forall|x: TableIdType| #[trigger] self.live.contains(x) ==> x.0 < self.next_table
        &&& txns_ok(self)
        &&& pending_ok(self)
        &&& self.chains_ok()
        &&& self.owners_ok()
    }

    /// What the viewer comes to at a place.
    pub open spec fn look(self, v: Viewer, p: Place) -> Sight {
        look_at(self.map(), self.txns, v, self.rows, p)
    }

    /// What a read gives: the version that the viewer sees, unless there is
    /// none or it marks the row as deleted.
    pub open spec fn read(self, v: Viewer, p: Place) -> Option<Row> {
        match self.look(v, p) {
            Sight::Found(row) => if row.tombstone {
                None
            } else {
                Some(row)
            },
            _ => None,
        }
    }
}

// ---------------------------------------------------------------------------
// Lemmas on records
// ---------------------------------------------------------------------------

/// Every record is found under its number.
pub proof fn by_lsn_at(records: Seq<Entry>, i: int)
    requires
        ascending(records),
        0 <= i < records.len(),
    ensures
        by_lsn(records).dom().contains(records[i].lsn.0),
        by_lsn(records)[records[i].lsn.0] == records[i].op,
    decreases records.len(),
{
    if i < records.len() - 1 {
        assert(ascending(records.drop_last()));
        by_lsn_at(records.drop_last(), i);
        assert(records.drop_last()[i] == records[i]);
        assert(records[i].lsn.0 < records[records.len() - 1].lsn.0);
    }
}

/// What is found under a number is a record.
pub proof fn by_lsn_find(records: Seq<Entry>, l: u64) -> (i: int)
    requires
        ascending(records),
        by_lsn(records).dom().contains(l),
    ensures
        0 <= i < records.len(),
        records[i].lsn.0 == l,
        records[i].op == by_lsn(records)[l],
    decreases records.len(),
{
    if records.last().lsn.0 == l {
        records.len() - 1
    } else {
        assert(ascending(records.drop_last()));
        by_lsn_find(records.drop_last(), l)
    }
}

/// One more record.
pub proof fn by_lsn_push(records: Seq<Entry>, e: Entry)
    ensures
        by_lsn(records.push(e)) == by_lsn(records).insert(e.lsn.0, e.op),
        forall|x: u64| #[trigger]
            ops_of(records.push(e), x) == if op_txn(e.op) == x {
                ops_of(records, x).push(e)
            } else {
                ops_of(records, x)
            },
{
    assert(records.push(e).drop_last() =~= records);
}

/// The records that stay are found as before, the others are not.
pub proof fn by_lsn_without(records: Seq<Entry>, gone: Set<u64>)
    requires
        ascending(records),
    ensures
        ascending(without(records, gone)),
        forall|l: u64| #[trigger]
            by_lsn(without(records, gone)).dom().contains(l) <==> by_lsn(records).dom().contains(l)
                && !gone.contains(op_txn(by_lsn(records)[l])),
        forall|l: u64| #[trigger]
            by_lsn(without(records, gone)).dom().contains(l) ==> by_lsn(without(records, gone))[l]
                == by_lsn(records)[l],
        forall|i: int|
            0 <= i < without(records, gone).len() ==> records.contains(
                #[trigger] without(records, gone)[i],
            ) && !gone.contains(op_txn(without(records, gone)[i].op)),
        forall|x: u64|
            !gone.contains(x) ==> #[trigger] ops_of(without(records, gone), x) == ops_of(records, x),
    decreases records.len(),
{
    if records.len() > 0 {
        let front = records.drop_last();
        let e = records.last();
        assert(ascending(front));
        by_lsn_without(front, gone);
        let kept = without(front, gone);
        assert forall|i: int| 0 <= i < kept.len() implies (#[trigger] kept[i]).lsn.0 < e.lsn.0 by {
            assert(front.contains(kept[i]));
            let j = choose|j: int| 0 <= j < front.len() && front[j] == kept[i];
            assert(records[j].lsn.0 < records[records.len() - 1].lsn.0);
        }
        if by_lsn(front).dom().contains(e.lsn.0) {
            let j = by_lsn_find(front, e.lsn.0);
            assert(records[j].lsn.0 < records[records.len() - 1].lsn.0);
        }
        assert forall|i: int| 0 <= i < without(records, gone).len() implies records.contains(
            #[trigger] without(records, gone)[i],
        ) && !gone.contains(op_txn(without(records, gone)[i].op)) by {
            let x = without(records, gone)[i];
            if i < kept.len() {
                assert(front.contains(kept[i]));
                let j = choose|j: int| 0 <= j < front.len() && front[j] == kept[i];
                assert(records[j] == x);
            } else {
                assert(records[records.len() - 1] == x);
            }
        }
        if !gone.contains(op_txn(e.op)) {
            assert(kept.push(e).drop_last() =~= kept);
            by_lsn_push(kept, e);
        }
        let m = by_lsn(front);
        assert(by_lsn(records) == m.insert(e.lsn.0, e.op));
        assert forall|l: u64| #[trigger]
            by_lsn(without(records, gone)).dom().contains(l) <==> by_lsn(records).dom().contains(l)
                && !gone.contains(op_txn(by_lsn(records)[l])) by {
            assert(by_lsn(kept).dom().contains(l) <==> m.dom().contains(l) && !gone.contains(
                op_txn(m[l]),
            ));
        }
        assert forall|l: u64| #[trigger]
            by_lsn(without(records, gone)).dom().contains(l) implies by_lsn(
            without(records, gone),
        )[l] == by_lsn(records)[l] by {
            assert(by_lsn(kept).dom().contains(l) ==> by_lsn(kept)[l] == m[l]);
        }
    }
}

/// The records of one transaction are records.
pub proof fn ops_of_members(records: Seq<Entry>, x: u64)
    ensures
        forall|i: int|
            0 <= i < ops_of(records, x).len() ==> records.contains(
                #[trigger] ops_of(records, x)[i],
            ) && op_txn(ops_of(records, x)[i].op) == x,
    decreases records.len(),
{
    if records.len() > 0 {
        let front = records.drop_last();
        ops_of_members(front, x);
        assert forall|i: int| 0 <= i < ops_of(records, x).len() implies records.contains(
            #[trigger] ops_of(records, x)[i],
        ) && op_txn(ops_of(records, x)[i].op) == x by {
            let e = ops_of(records, x)[i];
            if i < ops_of(front, x).len() {
                assert(front.contains(ops_of(front, x)[i]));
                let j = choose|j: int| 0 <= j < front.len() && front[j] == ops_of(front, x)[i];
                assert(records[j] == e);
            } else {
                assert(records[records.len() - 1] == e);
            }
        }
    }
}

/// No record belongs to a number that was never handed out.
pub proof fn ops_of_none(records: Seq<Entry>, x: u64)
    requires
        forall|i: int| 0 <= i < records.len() ==> op_txn((#[trigger] records[i]).op) != x,
    ensures
        ops_of(records, x) == Seq::<Entry>::empty(),
    decreases records.len(),
{
    if records.len() > 0 {
        let front = records.drop_last();
        assert forall|i: int| 0 <= i < front.len() implies op_txn((#[trigger] front[i]).op)
            != x by {
            assert(front[i] == records[i]);
        }
        ops_of_none(front, x);
        assert(op_txn(records[records.len() - 1].op) != x);
    }
}

} // verus!

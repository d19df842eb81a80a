//! What each operation does to the versions, and the proof that every one of
//! them keeps what the model promises: a row can always be read, and a
//! transaction can always be undone.
use vstd::prelude::*;

use crate::clock::LsnId;
use crate::mvcc;
use crate::mvcc::{Core, Grave, Pending, Place, Sight, Txns, Viewer};
use crate::operation::{Entry, Op};
use crate::table::TableIdType;
use crate::tuple::Row;
use crate::txn::{ConflictPolicy, TransactionId};

verus! {

// ---------------------------------------------------------------------------
// Walking back, under a change
// ---------------------------------------------------------------------------

/// A walk does not notice records that are newer than where it starts.
pub proof fn walk_grow(
    m: Map<u64, Op>,
    m2: Map<u64, Op>,
    t: Txns,
    v: Viewer,
    row: Row,
    bound: nat,
)
    requires
        forall|l: u64| l < bound ==> (#[trigger] m2.dom().contains(l) <==> m.dom().contains(l)),
        forall|l: u64| l < bound && #[trigger] m2.dom().contains(l) ==> m2[l] == m[l],
        row.pre_lsn matches Some(l) ==> l.0 < bound,
    ensures
        mvcc::walk(m2, t, v, row) == mvcc::walk(m, t, v, row),
    decreases
            (match row.pre_lsn {
                Some(l) => l.0 as int + 1,
                None => 0,
            }),
{
    if let Some(l) = row.pre_lsn {
        assert(m2.dom().contains(l.0) <==> m.dom().contains(l.0));
        if m.dom().contains(l.0) {
            if let Some(next) = mvcc::pre_image(m[l.0]) {
                if !(next.pre_lsn matches Some(k) && k.0 >= l.0) {
                    walk_grow(m, m2, t, v, next, bound);
                }
            }
        }
    }
}

/// A walk comes to the same end for two viewers that judge alike every writer
/// that a record names.
pub proof fn walk_same_eyes(m: Map<u64, Op>, t: Txns, v: Viewer, t2: Txns, v2: Viewer, row: Row)
    requires
        forall|l: u64| #[trigger]
            m.dom().contains(l) ==> (mvcc::pre_image(m[l]) matches Some(r) ==> (
            r.txn_id matches Some(w) ==> mvcc::sees(t, v, w.0) == mvcc::sees(t2, v2, w.0))),
    ensures
        mvcc::walk(m, t2, v2, row) == mvcc::walk(m, t, v, row),
    decreases
            (match row.pre_lsn {
                Some(l) => l.0 as int + 1,
                None => 0,
            }),
{
    if let Some(l) = row.pre_lsn {
        if m.dom().contains(l.0) {
            if let Some(next) = mvcc::pre_image(m[l.0]) {
                if !(next.pre_lsn matches Some(k) && k.0 >= l.0) {
                    walk_same_eyes(m, t, v, t2, v2, next);
                }
            }
        }
    }
}

/// A viewer that sees more comes to an answer wherever one that sees less does.
pub proof fn walk_more_eyes(m: Map<u64, Op>, t: Txns, v: Viewer, t2: Txns, v2: Viewer, row: Row)
    requires
        forall|w: u64| mvcc::sees(t, v, w) ==> #[trigger] mvcc::sees(t2, v2, w),
        mvcc::definite(mvcc::walk(m, t, v, row)),
    ensures
        mvcc::definite(mvcc::walk(m, t2, v2, row)),
    decreases
            (match row.pre_lsn {
                Some(l) => l.0 as int + 1,
                None => 0,
            }),
{
    if let Some(l) = row.pre_lsn {
        if m.dom().contains(l.0) {
            if let Some(next) = mvcc::pre_image(m[l.0]) {
                if let Some(w) = next.txn_id {
                    if !mvcc::sees(t, v, w.0) && !(next.pre_lsn matches Some(k) && k.0 >= l.0) {
                        walk_more_eyes(m, t, v, t2, v2, next);
                    }
                }
            }
        }
    }
}

/// Do the records that stay when those of `gone` leave lead nowhere into
/// `gone` but to versions that the viewer sees?
pub open spec fn closed_without(m: Map<u64, Op>, t: Txns, v: Viewer, gone: Set<u64>) -> bool {
    forall|l: u64| #[trigger]
        m.dom().contains(l) && !gone.contains(mvcc::op_txn(m[l])) ==> {
            &&& mvcc::pre_image(m[l]) matches Some(r) && r.txn_id matches Some(x) && (gone.contains(
                x.0,
            ) ==> mvcc::sees(t, v, x.0)) && (r.pre_lsn matches Some(k) ==> (m.dom().contains(k.0)
                ==> mvcc::op_txn(m[k.0]) == x.0))
        }
}

/// A walk does not notice that records leave which it never comes to.
pub proof fn walk_without(
    m: Map<u64, Op>,
    m2: Map<u64, Op>,
    t: Txns,
    v: Viewer,
    row: Row,
    gone: Set<u64>,
)
    requires
        closed_without(m, t, v, gone),
        forall|l: u64| #[trigger]
            m2.dom().contains(l) <==> m.dom().contains(l) && !gone.contains(mvcc::op_txn(m[l])),
        forall|l: u64| #[trigger] m2.dom().contains(l) ==> m2[l] == m[l],
        row.txn_id matches Some(w) && !gone.contains(w.0) && (row.pre_lsn matches Some(l)
            ==> (m.dom().contains(l.0) ==> mvcc::op_txn(m[l.0]) == w.0)),
    ensures
        mvcc::walk(m2, t, v, row) == mvcc::walk(m, t, v, row),
    decreases
            (match row.pre_lsn {
                Some(l) => l.0 as int + 1,
                None => 0,
            }),
{
    if let Some(l) = row.pre_lsn {
        assert(m2.dom().contains(l.0) <==> m.dom().contains(l.0));
        if m.dom().contains(l.0) {
            if let Some(next) = mvcc::pre_image(m[l.0]) {
                if let Some(x) = next.txn_id {
                    if !mvcc::sees(t, v, x.0) && !(next.pre_lsn matches Some(k) && k.0 >= l.0) {
                        walk_without(m, m2, t, v, next, gone);
                    }
                }
            }
        }
    }
}

// ---------------------------------------------------------------------------
// Undoing, under a change
// ---------------------------------------------------------------------------

/// Every place that an unfinished transaction wrote to still holds its version.
pub proof fn own_places(
    rows: Map<Place, Row>,
    live: Set<TableIdType>,
    ops: Seq<Entry>,
    x: u64,
    i: int,
)
    requires
        mvcc::own_chain(rows, live, ops, x),
        0 <= i < ops.len(),
        live.contains(mvcc::op_place(ops[i].op).table),
    ensures
        rows.dom().contains(mvcc::op_place(ops[i].op)),
        rows[mvcc::op_place(ops[i].op)].txn_id == Some(TransactionId(x)),
    decreases ops.len(),
{
    if i < ops.len() - 1 {
        own_places(
            mvcc::revert_one(rows, live, ops.last().op, x),
            live,
            ops.drop_last(),
            x,
            i,
        );
        assert(ops.drop_last()[i] == ops[i]);
    }
}

/// A row that is not `x`'s may change without touching what undoes `x`.
pub proof fn own_chain_put(
    rows: Map<Place, Row>,
    live: Set<TableIdType>,
    ops: Seq<Entry>,
    x: u64,
    p: Place,
    new: Row,
)
    requires
        mvcc::own_chain(rows, live, ops, x),
        rows.dom().contains(p) ==> rows[p].txn_id != Some(TransactionId(x)),
        new.txn_id != Some(TransactionId(x)),
    ensures
        mvcc::own_chain(rows.insert(p, new), live, ops, x),
    decreases ops.len(),
{
    if ops.len() > 0 {
        let e = ops.last();
        let reverted = mvcc::revert_one(rows, live, e.op, x);
        own_chain_put(reverted, live, ops.drop_last(), x, p, new);
        assert(mvcc::revert_one(rows.insert(p, new), live, e.op, x) =~= reverted.insert(p, new));
    }
}

/// A row that is not `x`'s may leave without touching what undoes `x`.
pub proof fn own_chain_del(
    rows: Map<Place, Row>,
    live: Set<TableIdType>,
    ops: Seq<Entry>,
    x: u64,
    p: Place,
)
    requires
        mvcc::own_chain(rows, live, ops, x),
        rows.dom().contains(p) ==> rows[p].txn_id != Some(TransactionId(x)),
    ensures
        mvcc::own_chain(rows.remove(p), live, ops, x),
    decreases ops.len(),
{
    if ops.len() > 0 {
        let e = ops.last();
        let reverted = mvcc::revert_one(rows, live, e.op, x);
        own_chain_del(reverted, live, ops.drop_last(), x, p);
        assert(mvcc::revert_one(rows.remove(p), live, e.op, x) =~= reverted.remove(p));
    }
}

/// Once all of a transaction's writes are taken back, no row is its own.
pub proof fn revert_all_clears(
    rows: Map<Place, Row>,
    live: Set<TableIdType>,
    ops: Seq<Entry>,
    x: u64,
)
    requires
        mvcc::own_chain(rows, live, ops, x),
    ensures
        mvcc::none_by(mvcc::revert_all(rows, live, ops, x), x),
    decreases ops.len(),
{
    if ops.len() > 0 {
        revert_all_clears(
            mvcc::revert_one(rows, live, ops.last().op, x),
            live,
            ops.drop_last(),
            x,
        );
    }
}

// ---------------------------------------------------------------------------
// The steps
// ---------------------------------------------------------------------------

/// May this write happen now, leaving `row` as the newest version?
pub open spec fn write_ok(c: Core, op: Op, row: Row) -> bool {
    let p = mvcc::op_place(op);
    let x = mvcc::op_txn(op);
    &&& c.counter < u64::MAX
    &&& c.txns.active.dom().contains(x)
    &&& c.live.contains(p.table)
    &&& row.id == p.key
    &&& row.txn_id == Some(TransactionId(x))
    &&& match op {
        Op::Add { txn, post } => !c.rows.dom().contains(p) && row.pre_lsn is None && post.tuple
            == row,
        Op::Mod { txn, pre, post } => c.rows.dom().contains(p) && pre.tuple == c.rows[p]
            && c.txns.visible((pre.tuple.txn_id->0).0, x) && row.pre_lsn == Some(
            LsnId(c.counter as u64),
        ) && post.table_id == pre.table_id && post.tuple == row,
        Op::Del { txn, pre } => c.rows.dom().contains(p) && pre.tuple == c.rows[p]
            && c.txns.visible((pre.tuple.txn_id->0).0, x) && row.pre_lsn == Some(
            LsnId(c.counter as u64),
        ),
        _ => false,
    }
}

/// Which of the waiting commits nobody can see past any more.
pub open spec fn released(horizon: Option<u64>, ts: u64) -> bool {
    horizon matches Some(h) ==> ts < h
}

/// The waiting commits that have to wait on.
pub open spec fn still_pending(pending: Seq<Pending>, horizon: Option<u64>) -> Seq<Pending> {
    pending.filter(|p: Pending| !released(horizon, p.ts))
}

/// The transactions whose records may go.
pub open spec fn released_txns(pending: Seq<Pending>, horizon: Option<u64>) -> Set<u64> {
    Set::new(
        |x: u64|
            exists|i: int|
                0 <= i < pending.len() && (#[trigger] pending[i]).txn == x && released(
                    horizon,
                    pending[i].ts,
                ),
    )
}

impl Core {
    /// A number is handed out.
    pub open spec fn tick(self) -> Core {
        Core { counter: self.counter + 1, ..self }
    }

    /// A transaction begins.
    pub open spec fn begun(self, policy: ConflictPolicy) -> Core {
        Core {
            counter: self.counter + 1,
            txns: Txns {
                active: self.txns.active.insert(self.counter as u64, policy),
                ..self.txns
            },
            ..self
        }
    }

    /// A row is written.
    pub open spec fn wrote(self, op: Op, row: Row) -> Core {
        Core {
            counter: self.counter + 1,
            rows: self.rows.insert(mvcc::op_place(op), row),
            records: self.records.push(Entry { lsn: LsnId(self.counter as u64), op }),
            ..self
        }
    }

    /// A transaction commits; the number handed out is its commit's.
    pub open spec fn did_commit(self, x: u64) -> Core {
        Core {
            counter: self.counter + 1,
            txns: Txns {
                active: self.txns.active.remove(x),
                committed: self.txns.committed.insert(x, self.counter as u64),
                ..self.txns
            },
            pending: self.pending.push(Pending { txn: x, ts: self.counter as u64 }),
            ..self
        }
    }

    /// A transaction begins to abort: nobody sees its writes any more.
    pub open spec fn aborting_now(self, x: u64) -> Core {
        Core {
            txns: Txns {
                active: self.txns.active.remove(x),
                aborting: self.txns.aborting.insert(x),
                ..self.txns
            },
            ..self
        }
    }

    /// A transaction's writes are taken back and forgotten.
    pub open spec fn aborted(self, x: u64) -> Core {
        Core {
            counter: self.counter + 1,
            rows: mvcc::revert_all(self.rows, self.live, mvcc::ops_of(self.records, x), x),
            records: mvcc::without(self.records, set![x]),
            txns: Txns { aborting: self.txns.aborting.remove(x), ..self.txns },
            ..self
        }
    }

    /// Commits that every active reader sees are forgotten.
    pub open spec fn pruned(self, horizon: Option<u64>) -> Core {
        Core {
            txns: Txns {
                committed: Map::new(
                    |x: u64|
                        self.txns.committed.dom().contains(x) && !released(
                            horizon,
                            self.txns.committed[x],
                        ),
                    |x: u64| self.txns.committed[x],
                ),
                ..self.txns
            },
            ..self
        }
    }

    /// Records that nobody can need are dropped.
    pub open spec fn vacuumed(self, horizon: Option<u64>) -> Core {
        Core {
            records: mvcc::without(self.records, released_txns(self.pending, horizon)),
            pending: still_pending(self.pending, horizon),
            ..self
        }
    }

    /// A deletion mark is physically removed.
    pub open spec fn purged(self, p: Place) -> Core {
        Core { rows: self.rows.remove(p), ..self }
    }

    /// A table comes into being.
    pub open spec fn with_table(self, id: TableIdType) -> Core {
        Core { live: self.live.insert(id), next_table: (id.0 + 1) as u64, ..self }
    }

    /// A table goes, with all its rows.
    pub open spec fn without_table(self, id: TableIdType) -> Core {
        Core {
            live: self.live.remove(id),
            rows: self.rows.remove_keys(Set::new(|p: Place| p.table == id)),
            ..self
        }
    }
}

/// Is the horizon no later than any active transaction?
pub open spec fn horizon_ok(t: Txns, horizon: Option<u64>) -> bool {
    match horizon {
        None => forall|x: u64| !(#[trigger] t.active.dom().contains(x)),
        Some(h) => forall|x: u64| #[trigger] t.active.dom().contains(x) ==> h <= x,
    }
}

// ---------------------------------------------------------------------------
// Every step keeps the model's promises
// ---------------------------------------------------------------------------

/// Handing out a number changes nothing that can be seen.
pub proof fn tick_keeps(c: Core)
    requires
        c.wf(),
    ensures
        c.tick().wf(),
        forall|v: Viewer, p: Place| #[trigger] c.tick().look(v, p) == c.look(v, p),
{
    let d = c.tick();
    assert forall|v: Viewer, p: Place| #[trigger] d.look(v, p) == c.look(v, p) by {}
    assert forall|i: int| 0 <= i < d.records.len() implies mvcc::record_ok(
        d,
        #[trigger] d.records[i],
    ) by {
        assert(mvcc::record_ok(c, c.records[i]));
    }
    assert forall|p: Place| #[trigger] d.rows.dom().contains(p) implies mvcc::row_ok(
        d,
        p,
        d.rows[p],
    ) by {
        assert(mvcc::row_ok(c, p, c.rows[p]));
    }
    assert forall|p: Place, v: Viewer| mvcc::may_look(d.txns, v) implies mvcc::definite(
        #[trigger] d.look(v, p),
    ) by {
        assert(mvcc::definite(c.look(v, p)));
    }
    assert forall|x: u64| #[trigger] d.txns.unfinished(x) implies mvcc::own_chain(
        d.rows,
        d.live,
        mvcc::ops_of(d.records, x),
        x,
    ) by {
        assert(c.txns.unfinished(x));
    }
}

/// Handing out any number of numbers breaks no promise.
pub proof fn ticks_keep(c: Core, n: nat)
    requires
        c.wf(),
    ensures
        (Core { counter: c.counter + n, ..c }).wf(),
    decreases n,
{
    if n > 0 {
        ticks_keep(c, (n - 1) as nat);
        tick_keeps(Core { counter: (c.counter + n - 1) as nat, ..c });
    }
}

/// A transaction that begins changes nothing that others see, and can itself
/// see whatever has committed.
pub proof fn begun_keeps(c: Core, policy: ConflictPolicy)
    requires
        c.wf(),
        c.counter < u64::MAX,
    ensures
        c.begun(policy).wf(),
        forall|v: Viewer, p: Place|
            v != Viewer::Reader(c.counter as u64) ==> #[trigger] c.begun(policy).look(v, p)
                == c.look(v, p),
        forall|p: Place| #[trigger]
            c.begun(policy).look(Viewer::Reader(c.counter as u64), p) == c.look(Viewer::Latest, p),
{
    let d = c.begun(policy);
    let id = c.counter as u64;
    let m = c.map();
    // Nothing bears the new number yet.
    assert forall|l: u64| #[trigger] m.dom().contains(l) implies (mvcc::pre_image(
        m[l],
    ) matches Some(r) ==> (r.txn_id matches Some(w) ==> w.0 != id)) by {
        let i = mvcc::by_lsn_find(c.records, l);
        assert(mvcc::record_ok(c, c.records[i]));
    }
    assert forall|v: Viewer, p: Place| v != Viewer::Reader(id) implies #[trigger] d.look(v, p)
        == c.look(v, p) by {
        if c.rows.dom().contains(p) {
            assert(mvcc::row_ok(c, p, c.rows[p]));
            walk_same_eyes(m, c.txns, v, d.txns, v, c.rows[p]);
        }
    }
    let r = Viewer::Reader(id);
    assert forall|p: Place| #[trigger] d.look(r, p) == c.look(Viewer::Latest, p) by {
        if c.rows.dom().contains(p) {
            assert(mvcc::row_ok(c, p, c.rows[p]));
            walk_same_eyes(m, c.txns, Viewer::Latest, d.txns, r, c.rows[p]);
        }
    }
    assert forall|i: int| 0 <= i < d.records.len() implies mvcc::record_ok(
        d,
        #[trigger] d.records[i],
    ) by {
        assert(mvcc::record_ok(c, c.records[i]));
    }
    assert forall|p: Place| #[trigger] d.rows.dom().contains(p) implies mvcc::row_ok(
        d,
        p,
        d.rows[p],
    ) by {
        assert(mvcc::row_ok(c, p, c.rows[p]));
    }
    assert forall|p: Place, v: Viewer| mvcc::may_look(d.txns, v) implies mvcc::definite(
        #[trigger] d.look(v, p),
    ) by {
        assert(mvcc::definite(c.look(Viewer::Latest, p)));
        if v != r {
            assert(mvcc::may_look(c.txns, v));
            assert(mvcc::definite(c.look(v, p)));
        }
    }
    assert forall|x: u64| #[trigger] d.txns.unfinished(x) implies mvcc::own_chain(
        d.rows,
        d.live,
        mvcc::ops_of(d.records, x),
        x,
    ) by {
        if x == id {
            assert forall|i: int| 0 <= i < c.records.len() implies mvcc::op_txn(
                (#[trigger] c.records[i]).op,
            ) != x by {
                assert(mvcc::record_ok(c, c.records[i]));
            }
            mvcc::ops_of_none(c.records, x);
            assert forall|p: Place| #[trigger] d.rows.dom().contains(p) implies d.rows[p].txn_id
                != Some(TransactionId(x)) by {
                assert(mvcc::row_ok(c, p, c.rows[p]));
            }
        } else {
            assert(c.txns.unfinished(x));
        }
    }
}

/// A write is seen by its own transaction and by nobody else: every other
/// viewer sees at every place what it saw before.
#[verifier::rlimit(50)]
pub proof fn wrote_keeps(c: Core, op: Op, row: Row)
    requires
        c.wf(),
        write_ok(c, op, row),
    ensures
        c.wrote(op, row).wf(),
        forall|v: Viewer, p: Place|
            mvcc::may_look(c.txns, v) && v != Viewer::Reader(mvcc::op_txn(op))
                ==> #[trigger] c.wrote(op, row).look(v, p) == c.look(v, p),
        c.wrote(op, row).look(Viewer::Reader(mvcc::op_txn(op)), mvcc::op_place(op))
            == Sight::Found(row),
        forall|p: Place|
            p != mvcc::op_place(op) ==> #[trigger] c.wrote(op, row).look(
                Viewer::Reader(mvcc::op_txn(op)),
                p,
            ) == c.look(Viewer::Reader(mvcc::op_txn(op)), p),
{
    let d = c.wrote(op, row);
    let x = mvcc::op_txn(op);
    let at = mvcc::op_place(op);
    let e = Entry { lsn: LsnId(c.counter as u64), op };
    let m = c.map();
    let m2 = d.map();
    mvcc::by_lsn_push(c.records, e);
    assert(m2 == m.insert(e.lsn.0, op));
    // No record is as new as this one.
    assert forall|l: u64| #[trigger] m.dom().contains(l) implies l < c.counter by {
        let i = mvcc::by_lsn_find(c.records, l);
        assert(mvcc::record_ok(c, c.records[i]));
    }
    if c.rows.dom().contains(at) {
        assert(mvcc::row_ok(c, at, c.rows[at]));
    }
    assert(mvcc::ascending(d.records)) by {
        assert forall|i: int, j: int| 0 <= i < j < d.records.len() implies (
        #[trigger] d.records[i]).lsn.0 < (#[trigger] d.records[j]).lsn.0 by {
            assert(mvcc::record_ok(c, c.records[i]));
        }
    }
    assert forall|i: int| 0 <= i < d.records.len() implies mvcc::record_ok(
        d,
        #[trigger] d.records[i],
    ) by {
        if i < c.records.len() {
            assert(mvcc::record_ok(c, c.records[i]));
        }
    }
    assert forall|p: Place| #[trigger] d.rows.dom().contains(p) implies mvcc::row_ok(
        d,
        p,
        d.rows[p],
    ) by {
        if p != at {
            assert(mvcc::row_ok(c, p, c.rows[p]));
        }
    }
    assert forall|v: Viewer, p: Place| mvcc::may_look(c.txns, v) && v != Viewer::Reader(
        x,
    ) implies #[trigger] d.look(v, p) == c.look(v, p) by {
        assert(!mvcc::sees(c.txns, v, x));
        if c.rows.dom().contains(p) {
            assert(mvcc::row_ok(c, p, c.rows[p]));
            walk_grow(m, m2, c.txns, v, c.rows[p], c.counter);
        }
        if p == at {
            assert(d.rows[p] == row);
        }
    }
    assert forall|p: Place| p != at implies #[trigger] d.look(Viewer::Reader(x), p) == c.look(
        Viewer::Reader(x),
        p,
    ) by {
        if c.rows.dom().contains(p) {
            assert(mvcc::row_ok(c, p, c.rows[p]));
            walk_grow(m, m2, c.txns, Viewer::Reader(x), c.rows[p], c.counter);
        }
    }
    assert forall|p: Place, v: Viewer| mvcc::may_look(d.txns, v) implies mvcc::definite(
        #[trigger] d.look(v, p),
    ) by {
        assert(mvcc::definite(c.look(v, p)));
    }
    assert forall|y: u64| #[trigger] d.txns.unfinished(y) implies mvcc::own_chain(
        d.rows,
        d.live,
        mvcc::ops_of(d.records, y),
        y,
    ) by {
        assert(c.txns.unfinished(y));
        let ops = mvcc::ops_of(c.records, y);
        if y == x {
            assert(ops.push(e).drop_last() =~= ops);
            assert(mvcc::revert_one(d.rows, d.live, op, x) =~= c.rows);
        } else {
            own_chain_put(c.rows, c.live, ops, y, at, row);
        }
    }
}

/// A commit changes nothing for those who are reading; whoever looks for the
/// latest state now sees what the transaction wrote.
#[verifier::rlimit(50)]
pub proof fn commit_keeps(c: Core, x: u64)
    requires
        c.wf(),
        c.counter < u64::MAX,
        c.txns.active.dom().contains(x),
    ensures
        c.did_commit(x).wf(),
        forall|r: u64, p: Place|
            c.txns.active.dom().contains(r) && r != x ==> #[trigger] c.did_commit(x).look(
                Viewer::Reader(r),
                p,
            ) == c.look(Viewer::Reader(r), p),
        forall|p: Place|
            c.rows.dom().contains(p) && c.rows[p].txn_id == Some(TransactionId(x))
                ==> #[trigger] c.did_commit(x).look(Viewer::Latest, p) == Sight::Found(
                c.rows[p],
            ),
{
    let d = c.did_commit(x);
    let m = c.map();
    assert forall|r: u64, p: Place| c.txns.active.dom().contains(r) && r != x implies
        #[trigger] d.look(Viewer::Reader(r), p) == c.look(Viewer::Reader(r), p) by {
        let v = Viewer::Reader(r);
        assert forall|w: u64| mvcc::sees(c.txns, v, w) == #[trigger] mvcc::sees(
            d.txns,
            v,
            w,
        ) by {}
        if c.rows.dom().contains(p) {
            walk_same_eyes(m, c.txns, v, d.txns, v, c.rows[p]);
        }
    }
    assert forall|i: int| 0 <= i < d.records.len() implies mvcc::record_ok(
        d,
        #[trigger] d.records[i],
    ) by {
        assert(mvcc::record_ok(c, c.records[i]));
    }
    assert forall|p: Place| #[trigger] d.rows.dom().contains(p) implies mvcc::row_ok(
        d,
        p,
        d.rows[p],
    ) by {
        assert(mvcc::row_ok(c, p, c.rows[p]));
    }
    assert forall|p: Place, v: Viewer| mvcc::may_look(d.txns, v) implies mvcc::definite(
        #[trigger] d.look(v, p),
    ) by {
        match v {
            Viewer::Latest => {
                assert(mvcc::definite(c.look(v, p)));
                if c.rows.dom().contains(p) {
                    assert forall|w: u64| mvcc::sees(c.txns, v, w) implies #[trigger] mvcc::sees(
                        d.txns,
                        v,
                        w,
                    ) by {}
                    let w = c.rows[p].txn_id->0;
                    if !mvcc::sees(c.txns, v, w.0) {
                        walk_more_eyes(m, c.txns, v, d.txns, v, c.rows[p]);
                    }
                }
            },
            Viewer::Reader(r) => {
                assert(mvcc::may_look(c.txns, v));
                assert(mvcc::definite(c.look(v, p)));
            },
        }
    }
    assert forall|y: u64| #[trigger] d.txns.unfinished(y) implies mvcc::own_chain(
        d.rows,
        d.live,
        mvcc::ops_of(d.records, y),
        y,
    ) by {
        assert(c.txns.unfinished(y));
    }
    assert forall|i: int| 0 <= i < d.pending.len() implies {
        let p = #[trigger] d.pending[i];
        &&& p.txn < d.counter
        &&& p.ts < d.counter
        &&& d.txns.is_committed(p.txn)
        &&& d.txns.committed.dom().contains(p.txn) ==> d.txns.committed[p.txn] == p.ts
    } by {
        if i < c.pending.len() {
            assert(c.txns.is_committed(c.pending[i].txn));
        }
    }
}

/// From the moment that a transaction starts to abort, others still see what
/// they saw.
pub proof fn aborting_keeps(c: Core, x: u64)
    requires
        c.wf(),
        c.txns.active.dom().contains(x),
    ensures
        c.aborting_now(x).wf(),
        forall|v: Viewer, p: Place|
            v != Viewer::Reader(x) ==> #[trigger] c.aborting_now(x).look(v, p) == c.look(v, p),
{
    let d = c.aborting_now(x);
    let m = c.map();
    assert forall|v: Viewer, p: Place| v != Viewer::Reader(x) implies #[trigger] d.look(v, p)
        == c.look(v, p) by {
        assert forall|w: u64| mvcc::sees(c.txns, v, w) == #[trigger] mvcc::sees(
            d.txns,
            v,
            w,
        ) by {}
        if c.rows.dom().contains(p) {
            walk_same_eyes(m, c.txns, v, d.txns, v, c.rows[p]);
        }
    }
    assert forall|i: int| 0 <= i < d.records.len() implies mvcc::record_ok(
        d,
        #[trigger] d.records[i],
    ) by {
        assert(mvcc::record_ok(c, c.records[i]));
    }
    assert forall|p: Place| #[trigger] d.rows.dom().contains(p) implies mvcc::row_ok(
        d,
        p,
        d.rows[p],
    ) by {
        assert(mvcc::row_ok(c, p, c.rows[p]));
    }
    assert forall|p: Place, v: Viewer| mvcc::may_look(d.txns, v) implies mvcc::definite(
        #[trigger] d.look(v, p),
    ) by {
        assert(mvcc::may_look(c.txns, v));
        assert(mvcc::definite(c.look(v, p)));
    }
    assert forall|y: u64| #[trigger] d.txns.unfinished(y) implies mvcc::own_chain(
        d.rows,
        d.live,
        mvcc::ops_of(d.records, y),
        y,
    ) by {
        assert(c.txns.unfinished(y));
    }
}

/// Is the record kept, and does it lead back to a version that says who wrote
/// it and where to go on?
pub open spec fn undoable(m: Map<u64, Op>, e: Entry) -> bool {
    &&& m.dom().contains(e.lsn.0)
    &&& m[e.lsn.0] == e.op
    &&& mvcc::data_op(e.op)
    &&& !(e.op is Add) ==> (mvcc::pre_image(e.op) matches Some(r) && r.txn_id is Some && (
    r.pre_lsn matches Some(k) ==> k.0 < e.lsn.0))
}

/// Taking a transaction's writes back does not change what anybody sees who
/// could not see them anyway.
pub proof fn revert_unseen(
    m: Map<u64, Op>,
    t: Txns,
    v: Viewer,
    rows: Map<Place, Row>,
    live: Set<TableIdType>,
    ops: Seq<Entry>,
    x: u64,
)
    requires
        mvcc::own_chain(rows, live, ops, x),
        !mvcc::sees(t, v, x),
        forall|p: Place| #[trigger] rows.dom().contains(p) ==> live.contains(p.table),
        forall|i: int| 0 <= i < ops.len() ==> #[trigger] undoable(m, ops[i]),
    ensures
        forall|p: Place| #[trigger]
            mvcc::look_at(m, t, v, mvcc::revert_all(rows, live, ops, x), p) == mvcc::look_at(
                m,
                t,
                v,
                rows,
                p,
            ),
    decreases ops.len(),
{
    if ops.len() > 0 {
        let e = ops.last();
        let at = mvcc::op_place(e.op);
        let reverted = mvcc::revert_one(rows, live, e.op, x);
        assert(undoable(m, ops[ops.len() - 1]));
        assert forall|i: int| 0 <= i < ops.drop_last().len() implies #[trigger] undoable(
            m,
            ops.drop_last()[i],
        ) by {
            assert(undoable(m, ops[i]));
        }
        revert_unseen(m, t, v, reverted, live, ops.drop_last(), x);
        assert forall|p: Place| #[trigger]
            mvcc::look_at(m, t, v, mvcc::revert_all(rows, live, ops, x), p) == mvcc::look_at(
            m,
            t,
            v,
            rows,
            p,
        ) by {
            assert(mvcc::look_at(m, t, v, reverted, p) == mvcc::look_at(m, t, v, rows, p));
        }
    }
}

/// After an undo, a row is what it was or a version that a record kept.
pub proof fn revert_all_rows(
    rows: Map<Place, Row>,
    live: Set<TableIdType>,
    ops: Seq<Entry>,
    x: u64,
    p: Place,
)
    requires
        mvcc::revert_all(rows, live, ops, x).dom().contains(p),
    ensures
        rows.dom().contains(p),
        mvcc::revert_all(rows, live, ops, x)[p] == rows[p] || exists|i: int|
            0 <= i < ops.len() && mvcc::op_place((#[trigger] ops[i]).op) == p && !(
            ops[i].op is Add) && mvcc::data_op(ops[i].op) && mvcc::revert_all(
                rows,
                live,
                ops,
                x,
            )[p] == mvcc::pre_image(ops[i].op)->0,
    decreases ops.len(),
{
    if ops.len() > 0 {
        let e = ops.last();
        let reverted = mvcc::revert_one(rows, live, e.op, x);
        revert_all_rows(reverted, live, ops.drop_last(), x, p);
        let result = mvcc::revert_all(rows, live, ops, x);
        if result[p] != reverted[p] {
            let i = choose|i: int|
                0 <= i < ops.drop_last().len() && mvcc::op_place((#[trigger] ops.drop_last()[i]).op)
                    == p && !(ops.drop_last()[i].op is Add) && mvcc::data_op(
                    ops.drop_last()[i].op,
                ) && result[p] == mvcc::pre_image(ops.drop_last()[i].op)->0;
            assert(ops[i] == ops.drop_last()[i]);
        } else if reverted[p] != rows[p] {
            assert(ops[ops.len() - 1] == e);
        }
    }
}

/// Undoing one transaction does not touch what undoes another.
proof fn revert_all_other(
    rows: Map<Place, Row>,
    live: Set<TableIdType>,
    ops: Seq<Entry>,
    x: u64,
    other: Seq<Entry>,
    y: u64,
)
    requires
        x != y,
        mvcc::own_chain(rows, live, other, y),
        forall|i: int|
            0 <= i < ops.len() ==> (mvcc::pre_image((#[trigger] ops[i]).op) matches Some(r)
                ==> r.txn_id != Some(TransactionId(y))),
        forall|i: int| 0 <= i < ops.len() ==> mvcc::data_op((#[trigger] ops[i]).op),
    ensures
        mvcc::own_chain(mvcc::revert_all(rows, live, ops, x), live, other, y),
    decreases ops.len(),
{
    if ops.len() > 0 {
        let e = ops[ops.len() - 1];
        let at = mvcc::op_place(e.op);
        let reverted = mvcc::revert_one(rows, live, e.op, x);
        if reverted != rows {
            if e.op is Add {
                own_chain_del(rows, live, other, y, at);
            } else {
                own_chain_put(rows, live, other, y, at, mvcc::pre_image(e.op)->0);
            }
        }
        assert forall|i: int| 0 <= i < ops.drop_last().len() implies (mvcc::pre_image(
            (#[trigger] ops.drop_last()[i]).op,
        ) matches Some(r) ==> r.txn_id != Some(TransactionId(y))) by {
            assert(ops.drop_last()[i] == ops[i]);
        }
        assert forall|i: int| 0 <= i < ops.drop_last().len() implies mvcc::data_op(
            (#[trigger] ops.drop_last()[i]).op,
        ) by {
            assert(ops.drop_last()[i] == ops[i]);
        }
        revert_all_other(reverted, live, ops.drop_last(), x, other, y);
    }
}

/// What a sound record of a transaction gives.
pub proof fn record_facts(c: Core, x: u64, i: int)
    requires
        c.wf(),
        0 <= i < mvcc::ops_of(c.records, x).len(),
    ensures
        undoable(c.map(), mvcc::ops_of(c.records, x)[i]),
        mvcc::record_ok(c, mvcc::ops_of(c.records, x)[i]),
        mvcc::op_txn(mvcc::ops_of(c.records, x)[i].op) == x,
{
    mvcc::ops_of_members(c.records, x);
    let e = mvcc::ops_of(c.records, x)[i];
    assert(c.records.contains(e));
    let j = choose|j: int| 0 <= j < c.records.len() && c.records[j] == e;
    mvcc::by_lsn_at(c.records, j);
    assert(mvcc::record_ok(c, c.records[j]));
}

/// Once an abort is finished, nothing of the transaction is left, and nobody
/// sees anything else than before.
#[verifier::rlimit(50)]
pub proof fn aborted_keeps(c: Core, x: u64)
    requires
        c.wf(),
        c.txns.aborting.contains(x),
    ensures
        c.aborted(x).wf(),
        forall|v: Viewer, p: Place|
            mvcc::may_look(c.txns, v) ==> #[trigger] c.aborted(x).look(v, p) == c.look(v, p),
        mvcc::none_by(c.aborted(x).rows, x),
{
    let d = c.aborted(x);
    let m = c.map();
    let m2 = d.map();
    let ops = mvcc::ops_of(c.records, x);
    let gone = set![x];
    mvcc::by_lsn_without(c.records, gone);
    assert(c.txns.unfinished(x));
    revert_all_clears(c.rows, c.live, ops, x);
    assert forall|i: int| 0 <= i < ops.len() implies #[trigger] undoable(m, ops[i]) by {
        record_facts(c, x, i);
    }
    assert forall|p: Place| #[trigger] d.rows.dom().contains(p) implies mvcc::row_ok(
        c,
        p,
        d.rows[p],
    ) by {
        revert_all_rows(c.rows, c.live, ops, x, p);
        assert(mvcc::row_ok(c, p, c.rows[p]));
        if d.rows[p] != c.rows[p] {
            let i = choose|i: int|
                0 <= i < ops.len() && mvcc::op_place((#[trigger] ops[i]).op) == p && !(
                ops[i].op is Add) && mvcc::data_op(ops[i].op) && d.rows[p] == mvcc::pre_image(
                    ops[i].op,
                )->0;
            record_facts(c, x, i);
        }
    }
    // No record that stays leads to a version of `x`.
    assert forall|l: u64| #[trigger] m.dom().contains(l) && !gone.contains(
        mvcc::op_txn(m[l]),
    ) implies (mvcc::pre_image(m[l]) matches Some(r) && r.txn_id matches Some(w) && w.0 != x && (
    r.pre_lsn matches Some(k) ==> (m.dom().contains(k.0) ==> mvcc::op_txn(m[k.0]) == w.0))) by {
        let i = mvcc::by_lsn_find(c.records, l);
        assert(mvcc::record_ok(c, c.records[i]));
    }
    assert forall|v: Viewer, p: Place| mvcc::may_look(c.txns, v) implies #[trigger] d.look(v, p)
        == c.look(v, p) by {
        revert_unseen(m, c.txns, v, c.rows, c.live, ops, x);
        assert(mvcc::look_at(m, c.txns, v, d.rows, p) == c.look(v, p));
        if d.rows.dom().contains(p) {
            assert(mvcc::row_ok(c, p, d.rows[p]));
            assert(closed_without(m, c.txns, v, gone));
            walk_without(m, m2, c.txns, v, d.rows[p], gone);
            walk_same_eyes(m2, c.txns, v, d.txns, v, d.rows[p]);
        }
    }
    assert forall|i: int| 0 <= i < d.records.len() implies mvcc::record_ok(
        d,
        #[trigger] d.records[i],
    ) by {
        assert(c.records.contains(d.records[i]));
        let j = choose|j: int| 0 <= j < c.records.len() && c.records[j] == d.records[i];
        assert(mvcc::record_ok(c, c.records[j]));
    }
    assert forall|p: Place| #[trigger] d.rows.dom().contains(p) implies mvcc::row_ok(
        d,
        p,
        d.rows[p],
    ) by {
        assert(mvcc::row_ok(c, p, d.rows[p]));
    }
    assert forall|p: Place, v: Viewer| mvcc::may_look(d.txns, v) implies mvcc::definite(
        #[trigger] d.look(v, p),
    ) by {
        assert(mvcc::may_look(c.txns, v));
        assert(mvcc::definite(c.look(v, p)));
    }
    assert forall|y: u64| #[trigger] d.txns.unfinished(y) implies mvcc::own_chain(
        d.rows,
        d.live,
        mvcc::ops_of(d.records, y),
        y,
    ) by {
        assert(c.txns.unfinished(y));
        assert forall|i: int| 0 <= i < ops.len() implies (mvcc::pre_image(
            (#[trigger] ops[i]).op,
        ) matches Some(r) ==> r.txn_id != Some(TransactionId(y))) by {
            record_facts(c, x, i);
        }
        assert forall|i: int| 0 <= i < ops.len() implies mvcc::data_op(
            (#[trigger] ops[i]).op,
        ) by {
            record_facts(c, x, i);
        }
        revert_all_other(c.rows, c.live, ops, x, mvcc::ops_of(c.records, y), y);
    }
}

/// Forgetting when a transaction committed changes nothing, once every active
/// reader sees it.
#[verifier::rlimit(50)]
pub proof fn pruned_keeps(c: Core, horizon: Option<u64>)
    requires
        c.wf(),
        horizon_ok(c.txns, horizon),
    ensures
        c.pruned(horizon).wf(),
        forall|v: Viewer, p: Place|
            mvcc::may_look(c.txns, v) ==> #[trigger] c.pruned(horizon).look(v, p) == c.look(v, p),
{
    let d = c.pruned(horizon);
    let m = c.map();
    assert forall|v: Viewer, p: Place| mvcc::may_look(c.txns, v) implies #[trigger] d.look(v, p)
        == c.look(v, p) by {
        assert forall|w: u64| mvcc::sees(c.txns, v, w) == #[trigger] mvcc::sees(
            d.txns,
            v,
            w,
        ) by {
            assert(c.txns.unfinished(w) == d.txns.unfinished(w));
        }
        if c.rows.dom().contains(p) {
            walk_same_eyes(m, c.txns, v, d.txns, v, c.rows[p]);
        }
    }
    assert forall|i: int| 0 <= i < d.records.len() implies mvcc::record_ok(
        d,
        #[trigger] d.records[i],
    ) by {
        assert(mvcc::record_ok(c, c.records[i]));
    }
    assert forall|p: Place| #[trigger] d.rows.dom().contains(p) implies mvcc::row_ok(
        d,
        p,
        d.rows[p],
    ) by {
        assert(mvcc::row_ok(c, p, c.rows[p]));
    }
    assert forall|p: Place, v: Viewer| mvcc::may_look(d.txns, v) implies mvcc::definite(
        #[trigger] d.look(v, p),
    ) by {
        assert(mvcc::may_look(c.txns, v));
        assert(mvcc::definite(c.look(v, p)));
    }
    assert forall|y: u64| #[trigger] d.txns.unfinished(y) implies mvcc::own_chain(
        d.rows,
        d.live,
        mvcc::ops_of(d.records, y),
        y,
    ) by {
        assert(c.txns.unfinished(y));
    }
}

/// Vacuum drops only records that no viewer can come to.
#[verifier::rlimit(50)]
pub proof fn vacuumed_keeps(c: Core, horizon: Option<u64>)
    requires
        c.wf(),
        horizon_ok(c.txns, horizon),
    ensures
        c.vacuumed(horizon).wf(),
        forall|v: Viewer, p: Place|
            mvcc::may_look(c.txns, v) ==> #[trigger] c.vacuumed(horizon).look(v, p) == c.look(v, p),
{
    let d = c.vacuumed(horizon);
    let m = c.map();
    let m2 = d.map();
    let gone = released_txns(c.pending, horizon);
    mvcc::by_lsn_without(c.records, gone);
    assert forall|l: u64| #[trigger] m.dom().contains(l) implies (mvcc::pre_image(
        m[l],
    ) matches Some(r) && r.txn_id matches Some(w) && (r.pre_lsn matches Some(k) ==> (
    m.dom().contains(k.0) ==> mvcc::op_txn(m[k.0]) == w.0))) by {
        let i = mvcc::by_lsn_find(c.records, l);
        assert(mvcc::record_ok(c, c.records[i]));
    }
    assert forall|v: Viewer, p: Place| mvcc::may_look(c.txns, v) implies #[trigger] d.look(v, p)
        == c.look(v, p) by {
        assert forall|w: u64| gone.contains(w) implies #[trigger] mvcc::sees(c.txns, v, w) by {
            let i = choose|i: int|
                0 <= i < c.pending.len() && (#[trigger] c.pending[i]).txn == w && released(
                    horizon,
                    c.pending[i].ts,
                );
            assert(c.txns.is_committed(c.pending[i].txn));
        }
        if c.rows.dom().contains(p) {
            let row = c.rows[p];
            assert(mvcc::row_ok(c, p, row));
            if !mvcc::sees(c.txns, v, (row.txn_id->0).0) {
                assert(closed_without(m, c.txns, v, gone));
                walk_without(m, m2, c.txns, v, row, gone);
            }
        }
    }
    assert forall|i: int| 0 <= i < d.records.len() implies mvcc::record_ok(
        d,
        #[trigger] d.records[i],
    ) by {
        assert(c.records.contains(d.records[i]));
        let j = choose|j: int| 0 <= j < c.records.len() && c.records[j] == d.records[i];
        assert(mvcc::record_ok(c, c.records[j]));
    }
    assert forall|p: Place| #[trigger] d.rows.dom().contains(p) implies mvcc::row_ok(
        d,
        p,
        d.rows[p],
    ) by {
        assert(mvcc::row_ok(c, p, c.rows[p]));
    }
    assert forall|p: Place, v: Viewer| mvcc::may_look(d.txns, v) implies mvcc::definite(
        #[trigger] d.look(v, p),
    ) by {
        assert(mvcc::may_look(c.txns, v));
        assert(mvcc::definite(c.look(v, p)));
    }
    assert forall|y: u64| #[trigger] d.txns.unfinished(y) implies mvcc::own_chain(
        d.rows,
        d.live,
        mvcc::ops_of(d.records, y),
        y,
    ) by {
        assert(c.txns.unfinished(y));
        if gone.contains(y) {
            let i = choose|i: int|
                0 <= i < c.pending.len() && (#[trigger] c.pending[i]).txn == y && released(
                    horizon,
                    c.pending[i].ts,
                );
            assert(c.txns.is_committed(c.pending[i].txn));
        }
    }
    let keep = |p: Pending| !released(horizon, p.ts);
    assert forall|i: int| 0 <= i < d.pending.len() implies {
        let p = #[trigger] d.pending[i];
        &&& p.txn < d.counter
        &&& p.ts < d.counter
        &&& d.txns.is_committed(p.txn)
        &&& d.txns.committed.dom().contains(p.txn) ==> d.txns.committed[p.txn] == p.ts
    } by {
        c.pending.lemma_filter_contains_rev(keep, d.pending[i]);
        let j = choose|j: int| 0 <= j < c.pending.len() && c.pending[j] == d.pending[i];
        assert(c.txns.is_committed(c.pending[j].txn));
    }
}

/// Removing a deletion mark that everybody sees changes nothing that anybody
/// reads.
pub proof fn purged_keeps(c: Core, at: Place)
    requires
        c.wf(),
        c.rows.dom().contains(at),
        c.rows[at].tombstone,
        forall|v: Viewer| #[trigger]
            mvcc::may_look(c.txns, v) ==> mvcc::sees(c.txns, v, (c.rows[at].txn_id->0).0),
    ensures
        c.purged(at).wf(),
        forall|v: Viewer, p: Place|
            mvcc::may_look(c.txns, v) ==> #[trigger] c.purged(at).read(v, p) == c.read(v, p),
        forall|v: Viewer, p: Place| p != at ==> #[trigger] c.purged(at).look(v, p) == c.look(v, p),
{
    let d = c.purged(at);
    assert(mvcc::row_ok(c, at, c.rows[at]));
    assert forall|v: Viewer, p: Place| mvcc::may_look(c.txns, v) implies #[trigger] d.read(v, p)
        == c.read(v, p) by {
        if p == at {
            assert(c.look(v, p) == Sight::Found(c.rows[at]));
        }
    }
    assert forall|i: int| 0 <= i < d.records.len() implies mvcc::record_ok(
        d,
        #[trigger] d.records[i],
    ) by {
        assert(mvcc::record_ok(c, c.records[i]));
    }
    assert forall|p: Place| #[trigger] d.rows.dom().contains(p) implies mvcc::row_ok(
        d,
        p,
        d.rows[p],
    ) by {
        assert(mvcc::row_ok(c, p, c.rows[p]));
    }
    assert forall|p: Place, v: Viewer| mvcc::may_look(d.txns, v) implies mvcc::definite(
        #[trigger] d.look(v, p),
    ) by {
        assert(mvcc::definite(c.look(v, p)));
    }
    assert forall|y: u64| #[trigger] d.txns.unfinished(y) implies mvcc::own_chain(
        d.rows,
        d.live,
        mvcc::ops_of(d.records, y),
        y,
    ) by {
        assert(c.txns.unfinished(y));
        assert(mvcc::may_look(c.txns, Viewer::Latest));
        assert(mvcc::sees(c.txns, Viewer::Latest, (c.rows[at].txn_id->0).0));
        own_chain_del(c.rows, c.live, mvcc::ops_of(c.records, y), y, at);
    }
}

/// What undoes a transaction does not depend on tables that it never wrote to.
proof fn own_chain_live(
    rows: Map<Place, Row>,
    live: Set<TableIdType>,
    live2: Set<TableIdType>,
    ops: Seq<Entry>,
    x: u64,
)
    requires
        mvcc::own_chain(rows, live, ops, x),
        forall|i: int|
            0 <= i < ops.len() ==> live.contains(mvcc::op_place((#[trigger] ops[i]).op).table)
                == live2.contains(mvcc::op_place(ops[i].op).table),
    ensures
        mvcc::own_chain(rows, live2, ops, x),
    decreases ops.len(),
{
    if ops.len() > 0 {
        let e = ops[ops.len() - 1];
        let reverted = mvcc::revert_one(rows, live, e.op, x);
        assert forall|i: int| 0 <= i < ops.drop_last().len() implies live.contains(
            mvcc::op_place((#[trigger] ops.drop_last()[i]).op).table,
        ) == live2.contains(mvcc::op_place(ops.drop_last()[i].op).table) by {
            assert(ops.drop_last()[i] == ops[i]);
        }
        own_chain_live(reverted, live, live2, ops.drop_last(), x);
    }
}

/// A new table changes nothing in the others.
pub proof fn with_table_keeps(c: Core, id: TableIdType)
    requires
        c.wf(),
        c.next_table <= id.0 < u64::MAX,
    ensures
        c.with_table(id).wf(),
        forall|v: Viewer, p: Place| #[trigger] c.with_table(id).look(v, p) == c.look(v, p),
{
    let d = c.with_table(id);
    assert forall|v: Viewer, p: Place| #[trigger] d.look(v, p) == c.look(v, p) by {}
    assert forall|i: int| 0 <= i < d.records.len() implies mvcc::record_ok(
        d,
        #[trigger] d.records[i],
    ) by {
        assert(mvcc::record_ok(c, c.records[i]));
    }
    assert forall|p: Place| #[trigger] d.rows.dom().contains(p) implies mvcc::row_ok(
        d,
        p,
        d.rows[p],
    ) by {
        assert(mvcc::row_ok(c, p, c.rows[p]));
    }
    assert forall|p: Place, v: Viewer| mvcc::may_look(d.txns, v) implies mvcc::definite(
        #[trigger] d.look(v, p),
    ) by {
        assert(mvcc::definite(c.look(v, p)));
    }
    assert forall|y: u64| #[trigger] d.txns.unfinished(y) implies mvcc::own_chain(
        d.rows,
        d.live,
        mvcc::ops_of(d.records, y),
        y,
    ) by {
        assert(c.txns.unfinished(y));
        let ops = mvcc::ops_of(c.records, y);
        assert forall|i: int| 0 <= i < ops.len() implies c.live.contains(
            mvcc::op_place((#[trigger] ops[i]).op).table,
        ) == d.live.contains(mvcc::op_place(ops[i].op).table) by {
            record_facts(c, y, i);
        }
        own_chain_live(c.rows, c.live, d.live, ops, y);
    }
}

/// The rows of all tables but one.
pub open spec fn outside(rows: Map<Place, Row>, id: TableIdType) -> Map<Place, Row> {
    rows.remove_keys(Set::new(|p: Place| p.table == id))
}

/// What undoes a transaction still does when a table goes.
proof fn own_chain_drop(
    rows: Map<Place, Row>,
    live: Set<TableIdType>,
    ops: Seq<Entry>,
    x: u64,
    id: TableIdType,
)
    requires
        mvcc::own_chain(rows, live, ops, x),
    ensures
        mvcc::own_chain(outside(rows, id), live.remove(id), ops, x),
    decreases ops.len(),
{
    if ops.len() > 0 {
        let e = ops.last();
        let reverted = mvcc::revert_one(rows, live, e.op, x);
        own_chain_drop(reverted, live, ops.drop_last(), x, id);
        assert(mvcc::revert_one(outside(rows, id), live.remove(id), e.op, x) =~= outside(
            reverted,
            id,
        ));
    }
}

/// Dropping a table leaves nothing of it, and changes nothing in the others.
pub proof fn without_table_keeps(c: Core, id: TableIdType)
    requires
        c.wf(),
    ensures
        c.without_table(id).wf(),
        forall|v: Viewer, p: Place|
            p.table != id ==> #[trigger] c.without_table(id).look(v, p) == c.look(v, p),
        forall|v: Viewer, p: Place|
            p.table == id ==> #[trigger] c.without_table(id).look(v, p) == Sight::NoAncestor,
{
    let d = c.without_table(id);
    assert(d.rows == outside(c.rows, id));
    assert forall|v: Viewer, p: Place| p.table != id implies #[trigger] d.look(v, p) == c.look(
        v,
        p,
    ) by {}
    assert forall|v: Viewer, p: Place| p.table == id implies #[trigger] d.look(v, p)
        == Sight::NoAncestor by {}
    assert forall|i: int| 0 <= i < d.records.len() implies mvcc::record_ok(
        d,
        #[trigger] d.records[i],
    ) by {
        assert(mvcc::record_ok(c, c.records[i]));
    }
    assert forall|p: Place| #[trigger] d.rows.dom().contains(p) implies mvcc::row_ok(
        d,
        p,
        d.rows[p],
    ) by {
        assert(mvcc::row_ok(c, p, c.rows[p]));
    }
    assert forall|p: Place, v: Viewer| mvcc::may_look(d.txns, v) implies mvcc::definite(
        #[trigger] d.look(v, p),
    ) by {
        assert(mvcc::definite(c.look(v, p)));
        if p.table != id {
            assert(d.look(v, p) == c.look(v, p));
        } else {
            assert(d.look(v, p) == Sight::NoAncestor);
        }
    }
    assert forall|y: u64| #[trigger] d.txns.unfinished(y) implies mvcc::own_chain(
        d.rows,
        d.live,
        mvcc::ops_of(d.records, y),
        y,
    ) by {
        assert(c.txns.unfinished(y));
        own_chain_drop(c.rows, c.live, mvcc::ops_of(c.records, y), y, id);
    }
}

/// A state with no transactions and no records keeps every promise, as long as
/// every row says who wrote it.
pub proof fn quiet_is_wf(c: Core)
    requires
        c.txns == Txns::none(),
        c.records.len() == 0,
        c.pending.len() == 0,
        forall|p: Place| #[trigger]
            c.rows.dom().contains(p) ==> c.live.contains(p.table) && c.rows[p].id == p.key && (
            c.rows[p].txn_id matches Some(w) && w.0 < c.counter) && (
            c.rows[p].pre_lsn matches Some(l) ==> l.0 < c.counter),
        forall|x: TableIdType| #[trigger] c.live.contains(x) ==> x.0 < c.next_table,
    ensures
        c.wf(),
{
    assert forall|p: Place| #[trigger] c.rows.dom().contains(p) implies mvcc::row_ok(
        c,
        p,
        c.rows[p],
    ) by {}
    assert forall|p: Place, v: Viewer| mvcc::may_look(c.txns, v) implies mvcc::definite(
        #[trigger] c.look(v, p),
    ) by {}
}

// ---------------------------------------------------------------------------
// Deletion marks
// ---------------------------------------------------------------------------

/// Are the deletion marks that wait to be purged those of commits?
pub open spec fn graves_ok(c: Core, graves: Seq<Grave>) -> bool {
    forall|i: int| 0 <= i < graves.len() ==> grave_ok(c, #[trigger] graves[i])
}

/// Is the deletion mark that of a commit?
pub open spec fn grave_ok(c: Core, g: Grave) -> bool {
    &&& g.txn.0 < c.counter
    &&& g.ts < c.counter
    &&& c.txns.is_committed(g.txn.0)
    &&& c.txns.committed.dom().contains(g.txn.0) ==> c.txns.committed[g.txn.0] == g.ts
}

/// Deletion marks of commits stay so, as long as no commit is taken back or
/// given another time.
pub proof fn graves_stay(c: Core, d: Core, graves: Seq<Grave>)
    requires
        graves_ok(c, graves),
        c.counter <= d.counter,
        forall|w: u64| #[trigger]
            c.txns.is_committed(w) && w < c.counter ==> d.txns.is_committed(w) && (
            d.txns.committed.dom().contains(w) ==> c.txns.committed.dom().contains(w)
                && c.txns.committed[w] == d.txns.committed[w]),
    ensures
        graves_ok(d, graves),
{
    assert forall|i: int| 0 <= i < graves.len() implies grave_ok(d, #[trigger] graves[i]) by {
        assert(grave_ok(c, graves[i]));
        assert(c.txns.is_committed(graves[i].txn.0));
    }
}

/// Everybody sees a deletion mark once its commit is before the horizon.
pub proof fn released_is_seen(c: Core, g: Grave, horizon: Option<u64>, v: Viewer)
    requires
        grave_ok(c, g),
        horizon_ok(c.txns, horizon),
        released(horizon, g.ts),
        mvcc::may_look(c.txns, v),
    ensures
        mvcc::sees(c.txns, v, g.txn.0),
{
}

// ---------------------------------------------------------------------------
// Laws across steps
// ---------------------------------------------------------------------------

/// A transaction that writes a row and is then rolled back leaves the rows as
/// they were before the write.
pub proof fn write_then_undo(c: Core, op: Op, row: Row)
    requires
        c.wf(),
        write_ok(c, op, row),
    ensures
        mvcc::revert_one(c.wrote(op, row).rows, c.live, op, mvcc::op_txn(op)) == c.rows,
        mvcc::revert_all(
            c.wrote(op, row).rows,
            c.live,
            mvcc::ops_of(c.wrote(op, row).records, mvcc::op_txn(op)),
            mvcc::op_txn(op),
        ) == mvcc::revert_all(
            c.rows,
            c.live,
            mvcc::ops_of(c.records, mvcc::op_txn(op)),
            mvcc::op_txn(op),
        ),
{
    let e = Entry { lsn: LsnId(c.counter as u64), op };
    let x = mvcc::op_txn(op);
    let ops = mvcc::ops_of(c.records, x);
    mvcc::by_lsn_push(c.records, e);
    assert(ops.push(e).drop_last() =~= ops);
    assert(mvcc::revert_one(c.wrote(op, row).rows, c.live, op, x) =~= c.rows);
}

/// A reader keeps its snapshot: whatever another transaction writes and
/// commits, the reader sees at every place what it saw before.
pub proof fn snapshot_is_stable(c: Core, op: Op, row: Row, r: u64, p: Place)
    requires
        c.wf(),
        write_ok(c, op, row),
        c.counter + 1 < u64::MAX,
        c.txns.active.dom().contains(r),
        r != mvcc::op_txn(op),
    ensures
        c.wrote(op, row).look(Viewer::Reader(r), p) == c.look(Viewer::Reader(r), p),
        c.wrote(op, row).did_commit(mvcc::op_txn(op)).look(Viewer::Reader(r), p) == c.look(
            Viewer::Reader(r),
            p,
        ),
{
    let x = mvcc::op_txn(op);
    let d = c.wrote(op, row);
    wrote_keeps(c, op, row);
    assert(mvcc::may_look(c.txns, Viewer::Reader(r)));
    assert(d.look(Viewer::Reader(r), p) == c.look(Viewer::Reader(r), p));
    commit_keeps(d, x);
    assert(d.did_commit(x).look(Viewer::Reader(r), p) == d.look(Viewer::Reader(r), p));
}

/// What a transaction wrote and committed is what every transaction sees that
/// begins afterwards, until somebody else writes the row.
pub proof fn committed_write_is_seen(c: Core, op: Op, row: Row, policy: ConflictPolicy)
    requires
        c.wf(),
        write_ok(c, op, row),
        c.counter + 2 < u64::MAX,
    ensures
        c.wrote(op, row).did_commit(mvcc::op_txn(op)).begun(policy).look(
            Viewer::Reader((c.counter + 2) as u64),
            mvcc::op_place(op),
        ) == Sight::Found(row),
{
    let x = mvcc::op_txn(op);
    let at = mvcc::op_place(op);
    let d = c.wrote(op, row);
    wrote_keeps(c, op, row);
    assert(d.rows.dom().contains(at) && d.rows[at] == row);
    commit_keeps(d, x);
    let e = d.did_commit(x);
    assert(e.look(Viewer::Latest, at) == Sight::Found(row));
    begun_keeps(e, policy);
    assert(e.begun(policy).look(Viewer::Reader(e.counter as u64), at) == e.look(
        Viewer::Latest,
        at,
    ));
}

/// The first to commit wins: once another transaction has written a row and
/// not finished, or committed it after `r` began, `r` may not build on it.
pub proof fn first_committer_wins(t: Txns, w: u64, r: u64)
    requires
        w != r,
    ensures
        t.unfinished(w) ==> !t.visible(w, r),
        t.committed.dom().contains(w) && t.committed[w] >= r ==> !t.visible(w, r),
        t.is_committed(w) && !t.committed.dom().contains(w) ==> t.visible(w, r),
        t.is_committed(w) && t.committed.dom().contains(w) && t.committed[w] < r ==> t.visible(
            w,
            r,
        ),
{
}

/// A transaction reads what it wrote itself, and at every other place what it
/// read before.
pub proof fn own_write_is_read(c: Core, op: Op, row: Row, p: Place)
    requires
        c.wf(),
        write_ok(c, op, row),
    ensures
        c.wrote(op, row).look(Viewer::Reader(mvcc::op_txn(op)), p) == if p == mvcc::op_place(op) {
            Sight::Found(row)
        } else {
            c.look(Viewer::Reader(mvcc::op_txn(op)), p)
        },
{
    wrote_keeps(c, op, row);
}

/// Whatever anybody sees was written by somebody who has committed, or by the
/// viewer.
pub proof fn only_committed_is_seen(c: Core, v: Viewer, p: Place)
    ensures
        c.look(v, p) matches Sight::Found(row) ==> (row.txn_id matches Some(w) && (
        c.txns.is_committed(w.0) || v == Viewer::Reader(w.0))),
{
    if c.rows.dom().contains(p) {
        walk_finds_seen(c.map(), c.txns, v, c.rows[p]);
    }
}

/// A version that a walk finds is one that the viewer sees.
proof fn walk_finds_seen(m: Map<u64, Op>, t: Txns, v: Viewer, row: Row)
    ensures
        mvcc::walk(m, t, v, row) matches Sight::Found(f) ==> (f.txn_id matches Some(w)
            && mvcc::sees(t, v, w.0)),
    decreases
            (match row.pre_lsn {
                Some(l) => l.0 as int + 1,
                None => 0,
            }),
{
    if let Some(l) = row.pre_lsn {
        if m.dom().contains(l.0) {
            if let Some(next) = mvcc::pre_image(m[l.0]) {
                if next.pre_lsn matches Some(k) ==> k.0 < l.0 {
                    walk_finds_seen(m, t, v, next);
                }
            }
        }
    }
}

/// A transaction that is rolled back leaves no trace: nobody else sees a
/// change, neither when the rollback starts nor when it is done, and no row is
/// left that the transaction wrote.
pub proof fn rollback_leaves_no_trace(c: Core, x: u64)
    requires
        c.wf(),
        c.txns.active.dom().contains(x),
    ensures
        forall|v: Viewer, p: Place|
            mvcc::may_look(c.txns, v) && v != Viewer::Reader(x) ==> c.aborting_now(x).look(v, p)
                == c.look(v, p) && #[trigger] c.aborting_now(x).aborted(x).look(v, p) == c.look(
                v,
                p,
            ),
        mvcc::none_by(c.aborting_now(x).aborted(x).rows, x),
{
    aborting_keeps(c, x);
    aborted_keeps(c.aborting_now(x), x);
}

/// No update is lost: nobody may write over a version whose writer has not
/// finished, or that was committed after the transaction began.
pub proof fn no_update_is_lost(c: Core, op: Op, row: Row, w: u64)
    requires
        c.rows.dom().contains(mvcc::op_place(op)),
        c.rows[mvcc::op_place(op)].txn_id == Some(TransactionId(w)),
        w != mvcc::op_txn(op),
        c.txns.unfinished(w) || (c.txns.committed.dom().contains(w) && c.txns.committed[w]
            > mvcc::op_txn(op)),
    ensures
        !write_ok(c, op, row),
{
}

} // verus!

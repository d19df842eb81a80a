//! What recovery promises: after a crash, a read gives exactly what it would
//! have given to somebody who began a transaction at the moment of the crash.
use vstd::prelude::*;

use crate::checkpoint;
use crate::clock::LsnId;
use crate::engine;
use crate::history;
use crate::history::{Event, State};
use crate::mvcc;
use crate::mvcc::{Core, Place, Sight, Viewer};
use crate::operation::{Entry, Op};
use crate::recovery;
use crate::steps;
use crate::table::TableIdType;
use crate::tuple::Row;
use crate::txn::TransactionId;

verus! {

// ---------------------------------------------------------------------------
// Recovery, one place at a time
// ---------------------------------------------------------------------------

/// What redoing a record makes of the row at a place.
pub open spec fn redo_step(r: Option<Row>, keep: Set<u64>, e: Entry, p: Place) -> Option<Row> {
    match e.op {
        Op::Add { txn, post } => if keep.contains(txn.0) && p == (Place {
            table: post.table_id,
            key: post.tuple.id,
        }) {
            Some(post.tuple)
        } else {
            r
        },
        Op::Mod { txn, post, .. } => if keep.contains(txn.0) && p == (Place {
            table: post.table_id,
            key: post.tuple.id,
        }) && r is Some {
            Some(post.tuple)
        } else {
            r
        },
        Op::Del { txn, pre } => if keep.contains(txn.0) && p == (Place {
            table: pre.table_id,
            key: pre.tuple.id,
        }) && r is Some {
            Some(recovery::marked(pre.tuple, txn, e.lsn))
        } else {
            r
        },
        Op::Purge { txn, table_id, key } => if p == (Place { table: table_id, key })
            && (r matches Some(row) && row.tombstone && row.txn_id == Some(txn)) {
            None
        } else {
            r
        },
        _ => r,
    }
}

/// What redoing records makes of the row at a place.
pub open spec fn redo_at(r: Option<Row>, keep: Set<u64>, es: Seq<Entry>, p: Place) -> Option<Row>
    decreases es.len(),
{
    if es.len() == 0 {
        r
    } else {
        redo_step(redo_at(r, keep, es.drop_last(), p), keep, es.last(), p)
    }
}

/// What undoing a record makes of the row at a place.
pub open spec fn undo_step(r: Option<Row>, keep: Set<u64>, e: Entry, p: Place) -> Option<Row> {
    let x = mvcc::op_txn(e.op);
    if mvcc::data_op(e.op) && !keep.contains(x) && mvcc::op_place(e.op) == p && (
    r matches Some(row) && row.txn_id == Some(TransactionId(x))) {
        if e.op is Add {
            None
        } else {
            mvcc::pre_image(e.op)
        }
    } else {
        r
    }
}

/// What undoing records, the newest first, makes of the row at a place.
pub open spec fn undo_at(r: Option<Row>, keep: Set<u64>, es: Seq<Entry>, p: Place) -> Option<Row>
    decreases es.len(),
{
    if es.len() == 0 {
        r
    } else {
        undo_at(undo_step(r, keep, es.last(), p), keep, es.drop_last(), p)
    }
}

/// Redo goes place by place.
proof fn redo_by_place(
    rows: Map<Place, Row>,
    live: Set<TableIdType>,
    keep: Set<u64>,
    es: Seq<Entry>,
    p: Place,
)
    requires
        live.contains(p.table),
    ensures
        history::row_at(recovery::redo(rows, live, keep, es), p) == redo_at(history::row_at(rows, p), keep, es, p),
    decreases es.len(),
{
    if es.len() > 0 {
        redo_by_place(rows, live, keep, es.drop_last(), p);
    }
}

/// Undo goes place by place.
proof fn undo_by_place(
    rows: Map<Place, Row>,
    live: Set<TableIdType>,
    keep: Set<u64>,
    es: Seq<Entry>,
    p: Place,
)
    requires
        live.contains(p.table),
    ensures
        history::row_at(recovery::undo(rows, live, keep, es), p) == undo_at(history::row_at(rows, p), keep, es, p),
    decreases es.len(),
{
    if es.len() > 0 {
        let mid = recovery::undo_one(rows, live, keep, es.last());
        undo_by_place(mid, live, keep, es.drop_last(), p);
        assert(history::row_at(mid, p) == undo_step(history::row_at(rows, p), keep, es.last(), p));
    }
}

/// Do two sets agree on every transaction that wrote something here?
pub open spec fn agree(a: Set<u64>, b: Set<u64>, es: Seq<Entry>) -> bool {
    forall|i: int|
        0 <= i < es.len() && mvcc::data_op((#[trigger] es[i]).op) ==> a.contains(
            mvcc::op_txn(es[i].op),
        ) == b.contains(mvcc::op_txn(es[i].op))
}

/// Only the transactions matter that wrote something.
proof fn agreeing_is_enough(a: Set<u64>, b: Set<u64>, es: Seq<Entry>, r: Option<Row>, p: Place)
    requires
        agree(a, b, es),
    ensures
        redo_at(r, a, es, p) == redo_at(r, b, es, p),
        undo_at(r, a, es, p) == undo_at(r, b, es, p),
    decreases es.len(),
{
    if es.len() > 0 {
        let front = es.drop_last();
        let e = es[es.len() - 1];
        assert forall|i: int| 0 <= i < front.len() && mvcc::data_op(
            (#[trigger] front[i]).op,
        ) implies a.contains(mvcc::op_txn(front[i].op)) == b.contains(mvcc::op_txn(front[i].op)) by {
            assert(front[i] == es[i]);
        }
        assert(mvcc::data_op(e.op) ==> a.contains(mvcc::op_txn(e.op)) == b.contains(
            mvcc::op_txn(e.op),
        ));
        agreeing_is_enough(a, b, front, r, p);
        agreeing_is_enough(a, b, front, undo_step(r, a, e, p), p);
    }
}

// ---------------------------------------------------------------------------
// The version that counts
// ---------------------------------------------------------------------------

/// The version of a row that counts if just the transactions in `keep` commit:
/// the newest of one of those, or else the newest that has committed.
pub open spec fn truth(c: Core, keep: Set<u64>, p: Place) -> Option<Row> {
    if c.rows.dom().contains(p) && c.txns.unfinished((c.rows[p].txn_id->0).0) && keep.contains(
        (c.rows[p].txn_id->0).0,
    ) {
        Some(c.rows[p])
    } else {
        match c.look(Viewer::Latest, p) {
            Sight::Found(row) => Some(row),
            _ => None,
        }
    }
}

/// A commit changes nothing behind rows of other transactions.
proof fn walk_past_commit(c: Core, x: u64, row: Row)
    requires
        c.wf(),
        c.txns.active.dom().contains(x),
        row.txn_id matches Some(y) && y.0 != x,
        mvcc::link_ok(c.map(), row, c.counter),
    ensures
        mvcc::walk(c.map(), c.did_commit(x).txns, Viewer::Latest, row) == mvcc::walk(
            c.map(),
            c.txns,
            Viewer::Latest,
            row,
        ),
    decreases
            (match row.pre_lsn {
                Some(l) => l.0 as int + 1,
                None => 0,
            }),
{
    let t = c.txns;
    let t2 = c.did_commit(x).txns;
    let y = (row.txn_id->0).0;
    assert(t2.unfinished(y) == t.unfinished(y));
    match row.pre_lsn {
        Some(l) if c.map().dom().contains(l.0) => {
            let i = mvcc::by_lsn_find(c.records, l.0);
            let e = c.records[i];
            assert(mvcc::record_ok(c, e));
            match mvcc::pre_image(e.op) {
                Some(next) => {
                    let w = (next.txn_id->0).0;
                    if w != x {
                        assert(t2.unfinished(w) == t.unfinished(w));
                        assert(mvcc::link_ok(c.map(), next, l.0 as nat));
                        if !(next.pre_lsn matches Some(k) && k.0 >= l.0) {
                            walk_past_commit(c, x, next);
                        }
                    }
                },
                None => {},
            }
        },
        _ => {},
    }
}

/// A commit changes nothing where the row is not the transaction's own.
proof fn commit_elsewhere(c: Core, x: u64, p: Place)
    requires
        c.wf(),
        c.txns.active.dom().contains(x),
        c.rows.dom().contains(p) ==> c.rows[p].txn_id != Some(TransactionId(x)),
    ensures
        c.did_commit(x).look(Viewer::Latest, p) == c.look(Viewer::Latest, p),
{
    if c.rows.dom().contains(p) {
        assert(mvcc::row_ok(c, p, c.rows[p]));
        let y = (c.rows[p].txn_id->0).0;
        assert(TransactionId(y) == c.rows[p].txn_id->0);
        assert(c.did_commit(x).txns.unfinished(y) == c.txns.unfinished(y));
        walk_past_commit(c, x, c.rows[p]);
    }
}

/// Taking a transaction's writes back touches no row of another.
proof fn revert_elsewhere(
    rows: Map<Place, Row>,
    live: Set<TableIdType>,
    ops: Seq<Entry>,
    x: u64,
    p: Place,
)
    requires
        rows.dom().contains(p) ==> rows[p].txn_id != Some(TransactionId(x)),
    ensures
        history::row_at(mvcc::revert_all(rows, live, ops, x), p) == history::row_at(rows, p),
    decreases ops.len(),
{
    if ops.len() > 0 {
        revert_elsewhere(mvcc::revert_one(rows, live, ops.last().op, x), live, ops.drop_last(), x, p);
    }
}

/// Does the event not go against `keep`? Who commits is in it, and who aborts
/// is not.
pub open spec fn respects(ev: Event, keep: Set<u64>) -> bool {
    match ev {
        Event::Commit(x) => keep.contains(x),
        Event::StartAbort(x) => !keep.contains(x),
        Event::FinishAbort(x) => !keep.contains(x),
        _ => true,
    }
}

/// The row at a place after what an event logs is redone.
pub open spec fn redo_event(r: Option<Row>, keep: Set<u64>, ev: Event, lsn: LsnId, p: Place) -> Option<
    Row,
> {
    match history::logged(ev, lsn) {
        Some(e) => redo_step(r, keep, e, p),
        None => r,
    }
}

/// A finished abort leaves the version that counts as it was.
proof fn truth_after_abort(s: State, first: nat, x: u64, keep: Set<u64>, p: Place)
    requires
        history::inv(s, first),
        s.core.txns.aborting.contains(x),
        !keep.contains(x),
    ensures
        truth(s.core.aborted(x), keep, p) == truth(s.core, keep, p),
{
    let c = s.core;
    let d = c.aborted(x);
    steps::aborted_keeps(c, x);
    assert(d.look(Viewer::Latest, p) == c.look(Viewer::Latest, p));
    let ops = mvcc::ops_of(c.records, x);
    if c.rows.dom().contains(p) && c.rows[p].txn_id == Some(TransactionId(x)) {
        if d.rows.dom().contains(p) {
            steps::revert_all_rows(c.rows, c.live, ops, x, p);
            assert(d.rows[p].txn_id != Some(TransactionId(x)));
            let i = choose|i: int|
                0 <= i < ops.len() && mvcc::op_place((#[trigger] ops[i]).op) == p && !(
                ops[i].op is Add) && mvcc::data_op(ops[i].op) && d.rows[p] == mvcc::pre_image(
                    ops[i].op,
                )->0;
            mvcc::ops_of_members(c.records, x);
            assert(c.records.contains(ops[i]));
            let k = choose|k: int| 0 <= k < c.records.len() && c.records[k] == ops[i];
            assert(mvcc::record_ok(c, c.records[k]));
            let w = (d.rows[p].txn_id->0).0;
            assert(TransactionId(w) == d.rows[p].txn_id->0);
            assert(c.txns.is_committed(w));
        }
    } else {
        revert_elsewhere(c.rows, c.live, ops, x, p);
        if c.rows.dom().contains(p) {
            assert(history::row_at(d.rows, p) == Some(c.rows[p]));
            let w = (c.rows[p].txn_id->0).0;
            assert(TransactionId(w) == c.rows[p].txn_id->0);
            assert(w != x);
        } else {
            assert(history::row_at(d.rows, p) is None);
        }
    }
}

/// A write makes its version the one that counts if its transaction commits,
/// and else leaves the one that counted; and redoing the write does the same.
proof fn truth_after_write(s: State, first: nat, op: Op, row: Row, keep: Set<u64>, p: Place)
    requires
        history::inv(s, first),
        history::allowed(s, Event::Write(op, row)),
    ensures
        redo_step(
            truth(s.core, keep, p),
            keep,
            Entry { lsn: LsnId(s.core.counter as u64), op },
            p,
        ) == truth(s.core.wrote(op, row), keep, p),
{
    let c = s.core;
    let d = c.wrote(op, row);
    steps::wrote_keeps(c, op, row);
    assert(d.look(Viewer::Latest, p) == c.look(Viewer::Latest, p));
    let x = mvcc::op_txn(op);
    let q = mvcc::op_place(op);
    if p == q {
        if c.rows.dom().contains(q) {
            let w = (c.rows[q].txn_id->0).0;
            assert(mvcc::row_ok(c, q, c.rows[q]));
            assert(c.txns.visible(w, x));
        }
    }
}

/// What redo makes of an event is what the event makes of the version that
/// counts.
proof fn truth_step(s: State, ev: Event, first: nat, keep: Set<u64>, p: Place)
    requires
        history::inv(s, first),
        history::allowed(s, ev),
        !(ev is Crash),
        respects(ev, keep),
        ev matches Event::DropTable(id) ==> p.table != id,
    ensures
        redo_event(truth(s.core, keep, p), keep, ev, LsnId(s.core.counter as u64), p) == truth(
            history::next(s, ev).core,
            keep,
            p,
        ),
{
    let c = s.core;
    match ev {
        Event::Tick => steps::tick_keeps(c),
        Event::Begin(policy) => {
            steps::begun_keeps(c, policy);
            if c.rows.dom().contains(p) {
                assert(mvcc::row_ok(c, p, c.rows[p]));
            }
        },
        Event::Write(op, row) => truth_after_write(s, first, op, row, keep, p),
        Event::Commit(x) => {
            steps::commit_keeps(c, x);
            if c.rows.dom().contains(p) && c.rows[p].txn_id == Some(TransactionId(x)) {
            } else {
                commit_elsewhere(c, x, p);
                if c.rows.dom().contains(p) {
                    assert(mvcc::row_ok(c, p, c.rows[p]));
                    let w = (c.rows[p].txn_id->0).0;
                    assert(TransactionId(w) == c.rows[p].txn_id->0);
                    assert(w != x);
                }
            }
        },
        Event::StartAbort(x) => steps::aborting_keeps(c, x),
        Event::FinishAbort(x) => truth_after_abort(s, first, x, keep, p),
        Event::Prune(h) => steps::pruned_keeps(c, h),
        Event::Vacuum(h) => steps::vacuumed_keeps(c, h),
        Event::Purge(q, x) => {
            steps::tick_keeps(c);
            if c.rows.dom().contains(q) {
                steps::purged_keeps(c.tick(), q);
                assert(mvcc::may_look(c.txns, Viewer::Latest));
                assert(mvcc::sees(c.txns, Viewer::Latest, x));
            } else {
                assert(c.tick().purged(q).rows =~= c.tick().rows);
            }
            if p != q {
                assert(c.tick().look(Viewer::Latest, p) == c.look(Viewer::Latest, p));
            }
        },
        Event::Mark(_) => steps::tick_keeps(c),
        Event::AddTable(id) => steps::with_table_keeps(c, id),
        Event::DropTable(id) => steps::without_table_keeps(c, id),
        _ => {},
    }
}

// ---------------------------------------------------------------------------
// What cannot happen any more
// ---------------------------------------------------------------------------

/// The state after the first `k` events.
pub open spec fn state_at(s: State, evs: Seq<Event>, k: int) -> State {
    history::run(s, evs.take(k))
}

/// Can the events happen one after the other, and does what holds after any
/// events hold after each of them?
pub open spec fn sound(s: State, evs: Seq<Event>) -> bool {
    &&& history::possible(s, evs)
    &&& forall|k: int|
        0 <= k <= evs.len() ==> history::inv(#[trigger] state_at(s, evs, k), s.core.counter)
}

/// One more event.
proof fn state_step(s: State, evs: Seq<Event>, k: int)
    requires
        0 <= k < evs.len(),
        sound(s, evs),
    ensures
        state_at(s, evs, k + 1) == history::next(state_at(s, evs, k), evs[k]),
        history::allowed(state_at(s, evs, k), evs[k]),
        history::inv(state_at(s, evs, k), s.core.counter),
        history::inv(state_at(s, evs, k + 1), s.core.counter),
{
    possible_part(s, evs, k + 1);
    assert(evs.take(k + 1).drop_last() =~= evs.take(k));
    assert(evs.take(k + 1).last() == evs[k]);
}

/// What is possible is possible up to any point.
pub proof fn possible_part(s: State, evs: Seq<Event>, k: int)
    requires
        0 <= k <= evs.len(),
        history::possible(s, evs),
    ensures
        history::possible(s, evs.take(k)),
    decreases evs.len() - k,
{
    if k == evs.len() {
        assert(evs.take(k) =~= evs);
    } else {
        possible_part(s, evs, k + 1);
        assert(evs.take(k + 1).drop_last() =~= evs.take(k));
    }
}

/// Has the transaction ended without a commit?
pub open spec fn lost(s: State, x: u64) -> bool {
    x < s.core.counter && !s.core.txns.active.dom().contains(x) && !s.done.contains(x)
}

/// A transaction that ended without a commit never commits.
proof fn lost_stays(s: State, evs: Seq<Event>, k: int, x: u64)
    requires
        0 <= k <= evs.len(),
        sound(s, evs),
        lost(state_at(s, evs, k), x),
    ensures
        lost(history::run(s, evs), x),
    decreases evs.len() - k,
{
    if k == evs.len() {
        assert(evs.take(k) =~= evs);
    } else {
        state_step(s, evs, k);
        lost_stays(s, evs, k + 1, x);
    }
}

/// Commits are never taken back.
proof fn done_grows(s: State, evs: Seq<Event>, k: int)
    requires
        0 <= k <= evs.len(),
        sound(s, evs),
    ensures
        state_at(s, evs, k).done.subset_of(history::run(s, evs).done),
    decreases evs.len() - k,
{
    if k == evs.len() {
        assert(evs.take(k) =~= evs);
    } else {
        state_step(s, evs, k);
        done_grows(s, evs, k + 1);
    }
}

/// No event goes against what commits in the end.
proof fn end_is_respected(s: State, evs: Seq<Event>, k: int)
    requires
        0 <= k < evs.len(),
        sound(s, evs),
    ensures
        respects(evs[k], history::run(s, evs).done),
{
    state_step(s, evs, k);
    let now = state_at(s, evs, k);
    match evs[k] {
        Event::Commit(x) => {
            done_grows(s, evs, k + 1);
            assert(state_at(s, evs, k + 1).done.contains(x));
        },
        Event::StartAbort(x) => {
            assert(now.core.txns.unfinished(x));
            lost_stays(s, evs, k + 1, x);
        },
        Event::FinishAbort(x) => {
            assert(now.core.txns.unfinished(x));
            assert(!now.core.txns.active.dom().contains(x));
            lost_stays(s, evs, k, x);
        },
        _ => {},
    }
}

/// Was the table dropped?
pub open spec fn was_dropped(c: Core, id: TableIdType) -> bool {
    !c.live.contains(id) && id.0 < c.next_table
}

/// A table that was dropped never comes back.
proof fn dropped_stays(s: State, evs: Seq<Event>, k: int, m: int, id: TableIdType)
    requires
        0 <= k <= m <= evs.len(),
        sound(s, evs),
        was_dropped(state_at(s, evs, k).core, id),
    ensures
        was_dropped(state_at(s, evs, m).core, id),
    decreases m - k,
{
    if k < m {
        state_step(s, evs, k);
        dropped_stays(s, evs, k + 1, m, id);
    }
}

// ---------------------------------------------------------------------------
// The last checkpoint
// ---------------------------------------------------------------------------

/// Of numbers, one is the least.
pub proof fn has_least(ids: Set<u64>, x: u64)
    requires
        ids.contains(x),
    ensures
        exists|m: u64| mvcc::is_least(ids, m) && m <= x,
    decreases x,
{
    if forall|y: u64| #[trigger] ids.contains(y) ==> x <= y {
        assert(mvcc::is_least(ids, x));
    } else {
        let y = choose|y: u64| #[trigger] ids.contains(y) && y < x;
        has_least(ids, y);
    }
}

/// The floor is at or below every transaction in flight, and at or above any
/// number that all of those and the clock are at or above.
proof fn floor_fits(c: Core, low: nat)
    requires
        mvcc::txns_ok(c),
        c.counter <= u64::MAX,
        low <= c.counter,
        forall|x: u64| #[trigger] c.txns.unfinished(x) ==> low <= x,
    ensures
        forall|x: u64| #[trigger] c.txns.unfinished(x) ==> checkpoint::floor_of(c) <= x,
        low <= checkpoint::floor_of(c) <= c.counter,
{
    let ids = c.txns.active.dom().union(c.txns.aborting);
    assert forall|x: u64| #[trigger] c.txns.unfinished(x) implies checkpoint::floor_of(c) <= x by {
        assert(ids.contains(x));
        has_least(ids, x);
        let m = choose|m: u64| mvcc::is_least(ids, m) && m <= x;
        mvcc::least_is(ids, m);
    }
    if c.txns.oldest_in_flight() is Some {
        let m = choose|m: u64| mvcc::is_least(ids, m);
        assert(mvcc::is_least(ids, m));
        mvcc::least_is(ids, m);
        assert(ids.contains(m));
        assert(c.txns.unfinished(m));
    }
}

/// Was the data file last saved after the first `m` events?
pub open spec fn saved_at(s: State, evs: Seq<Event>, m: int) -> bool {
    let at = state_at(s, evs, m);
    &&& 0 <= m <= evs.len()
    &&& at.held == history::only(at.core.rows)
    &&& at.floor <= at.core.counter
    &&& forall|x: u64| #[trigger] at.core.txns.unfinished(x) ==> at.floor <= x
    &&& forall|k: int| m <= k < evs.len() ==> !history::saves(#[trigger] evs[k])
    &&& forall|k: int|
        0 <= k < m && (#[trigger] evs[k]) is Crash ==> state_at(s, evs, k).core.counter <= at.floor
}

/// The data file was last saved at some time.
proof fn last_save(s: State, evs: Seq<Event>) -> (m: int)
    requires
        history::fresh(s),
        sound(s, evs),
    ensures
        saved_at(s, evs, m),
{
    last_save_before(s, evs, evs.len() as int)
}

/// The data file was last saved at or before the `k`-th event.
proof fn last_save_before(s: State, evs: Seq<Event>, k: int) -> (m: int)
    requires
        history::fresh(s),
        sound(s, evs),
        0 <= k <= evs.len(),
        forall|j: int| k <= j < evs.len() ==> !history::saves(#[trigger] evs[j]),
    ensures
        saved_at(s, evs, m),
    decreases k,
{
    if k == 0 {
        assert(evs.take(0) =~= seq![]);
        0
    } else if history::saves(evs[k - 1]) {
        state_step(s, evs, k - 1);
        let at = state_at(s, evs, k);
        floor_fits(at.core, 0);
        assert forall|j: int| 0 <= j < k && (#[trigger] evs[j]) is Crash implies state_at(
            s,
            evs,
            j,
        ).core.counter <= at.floor by {
            state_step(s, evs, j);
            young_after(s, evs, j + 1, k, state_at(s, evs, j).core.counter);
            floor_fits(at.core, state_at(s, evs, j).core.counter);
        }
        k
    } else {
        last_save_before(s, evs, k - 1)
    }
}

/// Once no older transaction is in flight, none ever is.
proof fn young_after(s: State, evs: Seq<Event>, j: int, k: int, low: nat)
    requires
        sound(s, evs),
        0 <= j <= k <= evs.len(),
        low <= state_at(s, evs, j).core.counter,
        forall|x: u64| #[trigger] state_at(s, evs, j).core.txns.unfinished(x) ==> low <= x,
    ensures
        low <= state_at(s, evs, k).core.counter,
        forall|x: u64| #[trigger] state_at(s, evs, k).core.txns.unfinished(x) ==> low <= x,
    decreases k - j,
{
    if j < k {
        state_step(s, evs, j);
        let now = state_at(s, evs, j).core;
        let then = state_at(s, evs, j + 1).core;
        assert forall|x: u64| #[trigger] then.txns.unfinished(x) implies low <= x by {
            if !(evs[j] is Begin && x == now.counter) {
                assert(now.txns.unfinished(x));
            }
        }
        young_after(s, evs, j + 1, k, low);
    }
}

/// The floor stays as it was when the data file was saved, and so do the tables.
proof fn saved_stays(s: State, evs: Seq<Event>, m: int, k: int)
    requires
        sound(s, evs),
        saved_at(s, evs, m),
        m <= k <= evs.len(),
    ensures
        state_at(s, evs, k).floor == state_at(s, evs, m).floor,
        state_at(s, evs, k).core.live == state_at(s, evs, m).core.live,
        state_at(s, evs, m).core.counter <= state_at(s, evs, k).core.counter,
        state_at(s, evs, m).done.subset_of(state_at(s, evs, k).done),
    decreases k - m,
{
    if k > m {
        saved_stays(s, evs, m, k - 1);
        state_step(s, evs, k - 1);
    }
}

/// The records at or above the floor are records.
pub proof fn above_members(es: Seq<Entry>, floor: u64)
    ensures
        forall|i: int|
            0 <= i < recovery::above(es, floor).len() ==> es.contains(
                #[trigger] recovery::above(es, floor)[i],
            ) && recovery::above(es, floor)[i].lsn.0 >= floor,
        forall|j: int|
            0 <= j < es.len() && (#[trigger] es[j]).lsn.0 >= floor ==> recovery::above(
                es,
                floor,
            ).contains(es[j]),
    decreases es.len(),
{
    if es.len() > 0 {
        let front = es.drop_last();
        let all = recovery::above(es, floor);
        let some = recovery::above(front, floor);
        above_members(front, floor);
        assert forall|i: int| 0 <= i < all.len() implies es.contains(#[trigger] all[i])
            && all[i].lsn.0 >= floor by {
            if i < some.len() {
                assert(all[i] == some[i]);
                assert(front.contains(some[i]));
                let j = choose|j: int| 0 <= j < front.len() && front[j] == some[i];
                assert(es[j] == some[i]);
            } else {
                assert(es[es.len() - 1] == all[i]);
            }
        }
        assert forall|j: int| 0 <= j < es.len() && (#[trigger] es[j]).lsn.0 >= floor implies all.contains(
            es[j],
        ) by {
            if j < front.len() {
                assert(front[j] == es[j]);
                assert(some.contains(es[j]));
                let i = choose|i: int| 0 <= i < some.len() && some[i] == es[j];
                assert(all[i] == es[j]);
            } else {
                assert(all[all.len() - 1] == es[j]);
            }
        }
    }
}

// ---------------------------------------------------------------------------
// Redo
// ---------------------------------------------------------------------------

/// What redo has made of a row at a place after `k` events.
pub open spec fn redone_from(
    s: State,
    evs: Seq<Event>,
    m: int,
    k: int,
    keep: Set<u64>,
    p: Place,
    r: Option<Row>,
) -> Option<Row> {
    redo_at(r, keep, recovery::above(state_at(s, evs, k).log, state_at(s, evs, m).floor), p)
}

/// Has redo, from a row, caught up with the version that counts?
pub open spec fn caught_up_from(
    s: State,
    evs: Seq<Event>,
    m: int,
    k: int,
    keep: Set<u64>,
    p: Place,
    r: Option<Row>,
) -> bool {
    &&& redone_from(s, evs, m, k, keep, p, r) == truth(state_at(s, evs, k).core, keep, p)
    &&& state_at(s, evs, k).core.counter >= state_at(s, evs, m).floor
}

/// One more event, redone.
proof fn redone_step(
    s: State,
    evs: Seq<Event>,
    m: int,
    k: int,
    keep: Set<u64>,
    p: Place,
    r: Option<Row>,
)
    requires
        sound(s, evs),
        saved_at(s, evs, m),
        0 <= k < evs.len(),
    ensures
        ({
            let lsn = LsnId(state_at(s, evs, k).core.counter as u64);
            let got = redone_from(s, evs, m, k, keep, p, r);
            redone_from(s, evs, m, k + 1, keep, p, r) == if lsn.0 >= state_at(s, evs, m).floor {
                redo_event(got, keep, evs[k], lsn, p)
            } else {
                got
            }
        }),
{
    state_step(s, evs, k);
    let now = state_at(s, evs, k);
    let lsn = LsnId(now.core.counter as u64);
    let floor = state_at(s, evs, m).floor;
    match history::logged(evs[k], lsn) {
        Some(e) => {
            recovery::above_push(now.log, e, floor);
            let es = recovery::above(now.log, floor);
            assert(es.push(e).drop_last() =~= es);
        },
        None => {},
    }
}

/// Until the data file is saved, redo leaves the row that it began with, or has
/// caught up with the version that counts.
proof fn redo_until_saved(
    s: State,
    evs: Seq<Event>,
    m: int,
    k: int,
    keep: Set<u64>,
    p: Place,
    r: Option<Row>,
)
    requires
        sound(s, evs),
        saved_at(s, evs, m),
        0 <= k <= m,
        s.log.len() == 0,
        state_at(s, evs, m).core.live.contains(p.table),
        forall|j: int| 0 <= j < evs.len() ==> respects(#[trigger] evs[j], keep),
        forall|j: int| 0 <= j <= evs.len() ==> (#[trigger] state_at(s, evs, j)).done.subset_of(keep),
    ensures
        redone_from(s, evs, m, k, keep, p, r) == r || caught_up_from(s, evs, m, k, keep, p, r),
    decreases k,
{
    let at = state_at(s, evs, m);
    if k == 0 {
        assert(evs.take(0) =~= seq![]);
        assert(recovery::above(s.log, at.floor).len() == 0);
    } else {
        let j = k - 1;
        redo_until_saved(s, evs, m, j, keep, p, r);
        state_step(s, evs, j);
        redone_step(s, evs, m, j, keep, p, r);
        let now = state_at(s, evs, j);
        let ev = evs[j];
        let got = redone_from(s, evs, m, j, keep, p, r);
        assert(respects(ev, keep));
        if ev is Crash {
            assert(now.core.counter <= at.floor);
            assert forall|i: int| 0 <= i < now.log.len() implies (#[trigger] now.log[i]).lsn.0
                < at.floor by {}
            recovery::none_above(now.log, at.floor);
        } else {
            if ev matches Event::DropTable(id) && id == p.table {
                assert(was_dropped(state_at(s, evs, k).core, p.table) || p.table.0
                    >= state_at(s, evs, k).core.next_table) by {}
                if p.table.0 < now.core.next_table {
                    dropped_stays(s, evs, k, m, p.table);
                }
            }
            let harmless = ev matches Event::DropTable(id) ==> p.table != id;
            if caught_up_from(s, evs, m, j, keep, p, r) && harmless {
                truth_step(now, ev, s.core.counter, keep, p);
            } else if got == r {
                redo_from_start(s, evs, m, j, keep, p, r);
            } else {
                // A table that is dropped before it was created: nothing is there.
                nothing_there(now, s.core.counter, keep, p);
                nothing_there(state_at(s, evs, k), s.core.counter, keep, p);
            }
        }
    }
}

/// In a table that does not exist there is no version that counts.
proof fn nothing_there(s: State, first: nat, keep: Set<u64>, p: Place)
    requires
        history::inv(s, first),
        !s.core.live.contains(p.table),
    ensures
        truth(s.core, keep, p) is None,
{
    if s.core.rows.dom().contains(p) {
        assert(mvcc::row_ok(s.core, p, s.core.rows[p]));
    }
}

/// While redo leaves the row that it began with, an event changes nothing, or
/// redo catches up.
proof fn redo_from_start(
    s: State,
    evs: Seq<Event>,
    m: int,
    j: int,
    keep: Set<u64>,
    p: Place,
    r: Option<Row>,
)
    requires
        sound(s, evs),
        saved_at(s, evs, m),
        0 <= j < evs.len(),
        redone_from(s, evs, m, j, keep, p, r) == r,
        !(evs[j] is Crash),
    ensures
        redone_from(s, evs, m, j + 1, keep, p, r) == r || caught_up_from(
            s,
            evs,
            m,
            j + 1,
            keep,
            p,
            r,
        ),
{
    state_step(s, evs, j);
    redone_step(s, evs, m, j, keep, p, r);
    let now = state_at(s, evs, j);
    let then = state_at(s, evs, j + 1);
    if now.core.counter >= state_at(s, evs, m).floor {
        match evs[j] {
            Event::Write(op, row) => {
                if mvcc::op_place(op) == p && keep.contains(mvcc::op_txn(op)) {
                    assert(then.core.rows.dom().contains(p));
                    assert(then.core.txns.unfinished(mvcc::op_txn(op)));
                }
            },
            _ => {},
        }
    }
}

/// The clock never goes back.
proof fn clock_grows(s: State, evs: Seq<Event>, j: int, k: int)
    requires
        sound(s, evs),
        0 <= j <= k <= evs.len(),
    ensures
        state_at(s, evs, j).core.counter <= state_at(s, evs, k).core.counter,
    decreases k - j,
{
    if j < k {
        state_step(s, evs, j);
        clock_grows(s, evs, j + 1, k);
    }
}

/// Is the row that was at a place after `j` events one that has to be undone?
/// Its writer was in flight and does not commit; and since then no version came
/// to count but by a purge of the one that counted.
pub open spec fn left_over(
    s: State,
    evs: Seq<Event>,
    m: int,
    j: int,
    k: int,
    keep: Set<u64>,
    p: Place,
) -> bool {
    let at = state_at(s, evs, j);
    let base = history::row_at(at.core.rows, p);
    let then = truth(at.core, keep, p);
    let now = truth(state_at(s, evs, k).core, keep, p);
    &&& m <= j <= k
    &&& redone_from(s, evs, m, k, keep, p, base) == base
    &&& to_undo(at, keep, p)
    &&& now == then || (now is None && (then matches Some(row) && row.tombstone))
}

/// Is the row at a place that of a transaction in flight that does not commit?
pub open spec fn to_undo(at: State, keep: Set<u64>, p: Place) -> bool {
    at.core.rows.dom().contains(p) && ({
        let x = (at.core.rows[p].txn_id->0).0;
        at.core.txns.unfinished(x) && !keep.contains(x)
    })
}

/// Has redo, from a row that the data file can hold, caught up, or does it leave
/// one that has to be undone?
pub open spec fn in_hand(
    s: State,
    evs: Seq<Event>,
    m: int,
    k: int,
    keep: Set<u64>,
    p: Place,
    b: Option<Row>,
) -> bool {
    caught_up_from(s, evs, m, k, keep, p, b) || exists|j: int|
        b == history::row_at(state_at(s, evs, j).core.rows, p) && #[trigger] left_over(
            s,
            evs,
            m,
            j,
            k,
            keep,
            p,
        )
}

/// Where redo leaves the row that is there now, or has caught up, it has caught
/// up, or leaves a row that has to be undone.
proof fn row_is_in_hand(s: State, evs: Seq<Event>, m: int, k: int, keep: Set<u64>, p: Place)
    requires
        sound(s, evs),
        saved_at(s, evs, m),
        m <= k <= evs.len(),
        ({
            let b = history::row_at(state_at(s, evs, k).core.rows, p);
            redone_from(s, evs, m, k, keep, p, b) == b || caught_up_from(
                s,
                evs,
                m,
                k,
                keep,
                p,
                b,
            )
        }),
    ensures
        in_hand(s, evs, m, k, keep, p, history::row_at(state_at(s, evs, k).core.rows, p)),
{
    let c = state_at(s, evs, k).core;
    clock_grows(s, evs, m, k);
    assert(history::inv(state_at(s, evs, k), s.core.counter));
    if c.rows.dom().contains(p) {
        assert(mvcc::row_ok(c, p, c.rows[p]));
    }
    if !caught_up_from(s, evs, m, k, keep, p, history::row_at(c.rows, p)) {
        assert(left_over(s, evs, m, k, k, keep, p));
    }
}

/// An event that is no crash leaves redo caught up, or the row still to be
/// undone.
proof fn redo_past(
    s: State,
    evs: Seq<Event>,
    m: int,
    k: int,
    keep: Set<u64>,
    p: Place,
    b: Option<Row>,
)
    requires
        sound(s, evs),
        saved_at(s, evs, m),
        m <= k < evs.len(),
        !(evs[k] is Crash),
        respects(evs[k], keep),
        state_at(s, evs, k).done.subset_of(keep),
        in_hand(s, evs, m, k, keep, p, b),
    ensures
        in_hand(s, evs, m, k + 1, keep, p, b),
{
    state_step(s, evs, k);
    redone_step(s, evs, m, k, keep, p, b);
    let now = state_at(s, evs, k);
    let then = state_at(s, evs, k + 1);
    let ev = evs[k];
    assert(!history::saves(ev));
    clock_grows(s, evs, m, k);
    truth_step(now, ev, s.core.counter, keep, p);
    if !caught_up_from(s, evs, m, k, keep, p, b) {
        let j = choose|j: int|
            b == history::row_at(state_at(s, evs, j).core.rows, p) && #[trigger] left_over(
                s,
                evs,
                m,
                j,
                k,
                keep,
                p,
            );
        let at = state_at(s, evs, j);
        match ev {
            Event::Write(op, row) => {
                if mvcc::op_place(op) == p && keep.contains(mvcc::op_txn(op)) {
                    assert(then.core.rows.dom().contains(p));
                    assert(then.core.txns.unfinished(mvcc::op_txn(op)));
                }
            },
            Event::Purge(q, w) => {
                assert(now.done.contains(w));
                assert(keep.contains(w));
                let x = (at.core.rows[p].txn_id->0).0;
                assert(TransactionId(w) != TransactionId(x));
                assert(history::inv(at, s.core.counter));
                assert(mvcc::row_ok(at.core, p, at.core.rows[p]));
            },
            _ => {},
        }
        if !caught_up_from(s, evs, m, k + 1, keep, p, b) {
            assert(left_over(s, evs, m, j, k + 1, keep, p));
        }
    }
}

// ---------------------------------------------------------------------------
// Undo
// ---------------------------------------------------------------------------

/// Does no record undo the row?
pub open spec fn stays_put(r: Option<Row>, keep: Set<u64>) -> bool {
    r matches Some(row) ==> row.txn_id matches Some(w) && keep.contains(w.0)
}

/// A row of a transaction that commits is not undone.
proof fn undo_keeps(r: Option<Row>, keep: Set<u64>, es: Seq<Entry>, p: Place)
    requires
        stays_put(r, keep),
    ensures
        undo_at(r, keep, es, p) == r,
    decreases es.len(),
{
    if es.len() > 0 {
        assert(undo_step(r, keep, es.last(), p) == r);
        undo_keeps(r, keep, es.drop_last(), p);
    }
}

/// The row at a place after the writes of `x` are taken back, the newest
/// first.
pub open spec fn revert_at(r: Option<Row>, ops: Seq<Entry>, x: u64, p: Place) -> Option<Row>
    decreases ops.len(),
{
    if ops.len() == 0 {
        r
    } else {
        let op = ops.last().op;
        let next = if mvcc::data_op(op) && mvcc::op_place(op) == p && (r matches Some(row)
            && row.txn_id == Some(TransactionId(x))) {
            if op is Add {
                None
            } else {
                mvcc::pre_image(op)
            }
        } else {
            r
        };
        revert_at(next, ops.drop_last(), x, p)
    }
}

/// Taking writes back goes place by place.
proof fn revert_by_place(
    rows: Map<Place, Row>,
    live: Set<TableIdType>,
    ops: Seq<Entry>,
    x: u64,
    p: Place,
)
    requires
        live.contains(p.table),
    ensures
        history::row_at(mvcc::revert_all(rows, live, ops, x), p) == revert_at(history::row_at(rows, p), ops, x, p),
    decreases ops.len(),
{
    if ops.len() > 0 {
        let mid = mvcc::revert_one(rows, live, ops.last().op, x);
        revert_by_place(mid, live, ops.drop_last(), x, p);
    }
}

/// From which version of its own a transaction is undone does not matter, if
/// it wrote to the place.
proof fn revert_from_any(a: Row, b: Row, ops: Seq<Entry>, x: u64, p: Place, i: int)
    requires
        a.txn_id == Some(TransactionId(x)),
        b.txn_id == Some(TransactionId(x)),
        0 <= i < ops.len(),
        mvcc::data_op(ops[i].op),
        mvcc::op_place(ops[i].op) == p,
    ensures
        revert_at(Some(a), ops, x, p) == revert_at(Some(b), ops, x, p),
    decreases ops.len(),
{
    let op = ops.last().op;
    if mvcc::data_op(op) && mvcc::op_place(op) == p {
    } else {
        assert(ops.drop_last()[i] == ops[i]);
        revert_from_any(a, b, ops.drop_last(), x, p, i);
    }
}

/// A row that is a transaction's was written by one of its writes.
proof fn own_row_is_written(
    rows: Map<Place, Row>,
    live: Set<TableIdType>,
    ops: Seq<Entry>,
    x: u64,
    p: Place,
) -> (i: int)
    requires
        mvcc::own_chain(rows, live, ops, x),
        rows.dom().contains(p),
        rows[p].txn_id == Some(TransactionId(x)),
    ensures
        0 <= i < ops.len(),
        mvcc::data_op(ops[i].op),
        mvcc::op_place(ops[i].op) == p,
    decreases ops.len(),
{
    if ops.len() == 0 {
        assert(false);
        0
    } else if mvcc::op_place(ops.last().op) == p {
        ops.len() - 1
    } else {
        own_row_is_written(
            mvcc::revert_one(rows, live, ops.last().op, x),
            live,
            ops.drop_last(),
            x,
            p,
        )
    }
}

/// Is the writer `x`, or a transaction that commits?
pub open spec fn own_or_kept(w: Option<TransactionId>, keep: Set<u64>, x: u64) -> bool {
    w matches Some(w) && (w.0 == x || keep.contains(w.0))
}

/// Is every version that a write of `x` here replaces its own, or that of a
/// transaction that commits?
pub open spec fn replaces_kept(es: Seq<Entry>, keep: Set<u64>, x: u64) -> bool {
    forall|i: int|
        0 <= i < es.len() ==> {
            let e = #[trigger] es[i];
            mvcc::data_op(e.op) && mvcc::op_txn(e.op) == x && !(e.op is Add) ==> own_or_kept(
                (mvcc::pre_image(e.op)->0).txn_id,
                keep,
                x,
            )
        }
}

/// Undoing what does not commit takes back the writes of the row's own writer,
/// and no others.
proof fn undo_is_revert(r: Option<Row>, keep: Set<u64>, es: Seq<Entry>, x: u64, p: Place)
    requires
        !keep.contains(x),
        replaces_kept(es, keep, x),
        r matches Some(row) ==> own_or_kept(row.txn_id, keep, x),
    ensures
        undo_at(r, keep, es, p) == revert_at(r, history::writes_of(es, x), x, p),
    decreases es.len(),
{
    if es.len() > 0 {
        let front = es.drop_last();
        let e = es[es.len() - 1];
        let next = undo_step(r, keep, e, p);
        assert(replaces_kept(front, keep, x)) by {
            assert forall|i: int| 0 <= i < front.len() implies ({
                let e = #[trigger] front[i];
                mvcc::data_op(e.op) && mvcc::op_txn(e.op) == x && !(e.op is Add) ==> own_or_kept(
                    (mvcc::pre_image(e.op)->0).txn_id,
                    keep,
                    x,
                )
            }) by {
                assert(front[i] == es[i]);
            }
        }
        let writes = history::writes_of(es, x);
        if mvcc::data_op(e.op) && mvcc::op_txn(e.op) == x {
            assert(writes.drop_last() =~= history::writes_of(front, x));
            assert(writes.last() == e);
        } else {
            assert(next == r);
        }
        undo_is_revert(next, keep, front, x, p);
    }
}

/// All writes of a transaction that was in flight are at or above the floor.
proof fn writes_above(es: Seq<Entry>, floor: u64, x: u64)
    requires
        floor <= x,
        forall|i: int|
            0 <= i < es.len() && mvcc::data_op((#[trigger] es[i]).op) ==> mvcc::op_txn(es[i].op)
                < es[i].lsn.0,
    ensures
        history::writes_of(recovery::above(es, floor), x) == history::writes_of(es, x),
    decreases es.len(),
{
    if es.len() > 0 {
        let front = es.drop_last();
        let e = es[es.len() - 1];
        assert forall|i: int| 0 <= i < front.len() && mvcc::data_op(
            (#[trigger] front[i]).op,
        ) implies mvcc::op_txn(front[i].op) < front[i].lsn.0 by {
            assert(front[i] == es[i]);
        }
        writes_above(front, floor, x);
        if e.lsn.0 >= floor {
            let all = recovery::above(es, floor);
            assert(all.drop_last() =~= recovery::above(front, floor));
        }
    }
}

/// While a transaction that wrote the row at a place is in flight, the row
/// stays its own.
proof fn own_row_stays(
    s: State,
    evs: Seq<Event>,
    m: int,
    j: int,
    k: int,
    p: Place,
    x: u64,
)
    requires
        sound(s, evs),
        saved_at(s, evs, m),
        m <= j <= k <= evs.len(),
        state_at(s, evs, j).core.txns.unfinished(x),
        state_at(s, evs, j).core.rows.dom().contains(p),
        state_at(s, evs, j).core.rows[p].txn_id == Some(TransactionId(x)),
    ensures
        state_at(s, evs, k).core.txns.unfinished(x) ==> state_at(
            s,
            evs,
            k,
        ).core.rows.dom().contains(p) && state_at(s, evs, k).core.rows[p].txn_id == Some(
            TransactionId(x),
        ),
        x < state_at(s, evs, k).core.counter,
    decreases k - j,
{
    if k == j {
        assert(history::inv(state_at(s, evs, j), s.core.counter));
    } else {
        own_row_stays(s, evs, m, j, k - 1, p, x);
        state_step(s, evs, k - 1);
        let now = state_at(s, evs, k - 1).core;
        let ev = evs[k - 1];
        assert(!history::saves(ev));
        if state_at(s, evs, k).core.txns.unfinished(x) {
            assert(now.txns.unfinished(x));
            match ev {
                Event::FinishAbort(y) => {
                    revert_elsewhere(now.rows, now.live, mvcc::ops_of(now.records, y), y, p);
                },
                Event::Purge(q, w) => {
                    assert(state_at(s, evs, k - 1).done.contains(w));
                },
                _ => {},
            }
        }
    }
}

/// What was logged behind a row leaves a version of the same writer.
proof fn undo_down_to_row(
    s: State,
    evs: Seq<Event>,
    m: int,
    j: int,
    k: int,
    keep: Set<u64>,
    p: Place,
    x: u64,
    a: Row,
) -> (b: Row)
    requires
        sound(s, evs),
        saved_at(s, evs, m),
        m <= j <= k <= evs.len(),
        state_at(s, evs, j).core.txns.unfinished(x),
        state_at(s, evs, j).core.rows.dom().contains(p),
        state_at(s, evs, j).core.rows[p].txn_id == Some(TransactionId(x)),
        !keep.contains(x),
        a.txn_id == Some(TransactionId(x)),
    ensures
        b.txn_id == Some(TransactionId(x)),
        ({
            let floor = state_at(s, evs, m).floor;
            undo_at(
                Some(a),
                keep,
                recovery::above(state_at(s, evs, k).log, floor),
                p,
            ) == undo_at(Some(b), keep, recovery::above(state_at(s, evs, j).log, floor), p)
        }),
    decreases k - j,
{
    if k == j {
        a
    } else {
        let floor = state_at(s, evs, m).floor;
        state_step(s, evs, k - 1);
        own_row_stays(s, evs, m, j, k - 1, p, x);
        let now = state_at(s, evs, k - 1);
        let ev = evs[k - 1];
        let lsn = LsnId(now.core.counter as u64);
        clock_grows(s, evs, m, k - 1);
        match history::logged(ev, lsn) {
            Some(e) => {
                recovery::above_push(now.log, e, floor);
                let es = recovery::above(now.log, floor);
                let all = es.push(e);
                assert(all.drop_last() =~= es);
                assert(all.last() == e);
                let next = undo_step(Some(a), keep, e, p);
                if mvcc::data_op(e.op) && mvcc::op_txn(e.op) == x && mvcc::op_place(e.op) == p {
                    assert(now.core.txns.unfinished(x));
                    assert(!(e.op is Add));
                    assert(mvcc::pre_image(e.op) == Some(now.core.rows[p]));
                    undo_down_to_row(s, evs, m, j, k - 1, keep, p, x, now.core.rows[p])
                } else {
                    assert(next == Some(a));
                    undo_down_to_row(s, evs, m, j, k - 1, keep, p, x, a)
                }
            },
            None => undo_down_to_row(s, evs, m, j, k - 1, keep, p, x, a),
        }
    }
}

// ---------------------------------------------------------------------------
// What recovery gives back
// ---------------------------------------------------------------------------

/// Whatever version has committed is sound, and its writer has committed.
proof fn walk_finds_sound(s: State, first: nat, row: Row)
    requires
        history::inv(s, first),
        mvcc::link_ok(s.core.map(), row, s.core.counter),
    ensures
        mvcc::walk(s.core.map(), s.core.txns, Viewer::Latest, row) matches Sight::Found(found) ==> (
        found.txn_id matches Some(w) && w.0 < s.core.counter && s.done.contains(w.0)) && (
        found.pre_lsn matches Some(l) ==> l.0 < s.core.counter),
    decreases
            (match row.pre_lsn {
                Some(l) => l.0 as int + 1,
                None => 0,
            }),
{
    let c = s.core;
    match row.pre_lsn {
        Some(l) if c.map().dom().contains(l.0) => {
            let i = mvcc::by_lsn_find(c.records, l.0);
            let e = c.records[i];
            assert(mvcc::record_ok(c, e));
            match mvcc::pre_image(e.op) {
                Some(next) => {
                    assert(mvcc::link_ok(c.map(), next, l.0 as nat));
                    if !(next.pre_lsn matches Some(k) && k.0 >= l.0) {
                        walk_finds_sound(s, first, next);
                    }
                },
                None => {},
            }
        },
        _ => {},
    }
}

/// Whatever version has committed is sound, and its writer has committed.
proof fn look_finds_sound(s: State, first: nat, p: Place)
    requires
        history::inv(s, first),
    ensures
        s.core.look(Viewer::Latest, p) matches Sight::Found(row) ==> history::sound_row(s, p, row),
{
    let c = s.core;
    engine::look_keeps_key(c, Viewer::Latest, p);
    if c.rows.dom().contains(p) {
        assert(mvcc::row_ok(c, p, c.rows[p]));
        walk_finds_sound(s, first, c.rows[p]);
        assert(history::known(s, (c.rows[p].txn_id->0).0));
    }
}

/// Is it settled after `k` events which of the transactions so far are in
/// `keep`?
pub open spec fn decided(now: State, keep: Set<u64>) -> bool {
    &&& forall|x: u64| #[trigger] now.core.txns.unfinished(x) ==> !keep.contains(x)
    &&& now.done.subset_of(keep)
    &&& forall|i: int|
        0 <= i < now.log.len() && mvcc::data_op((#[trigger] now.log[i]).op) && keep.contains(
            mvcc::op_txn(now.log[i].op),
        ) ==> now.done.contains(mvcc::op_txn(now.log[i].op))
}

/// The log says of every transaction whose writes are replayed whether it
/// committed.
proof fn log_decides(now: State, first: nat, keep: Set<u64>)
    requires
        history::inv(now, first),
        decided(now, keep),
    ensures
        ({
            let es = recovery::above(now.log, now.floor);
            agree(recovery::committed_in(es), keep, es)
        }),
{
    let es = recovery::above(now.log, now.floor);
    let said = recovery::committed_in(es);
    above_members(now.log, now.floor);
    assert forall|i: int| 0 <= i < es.len() && mvcc::data_op(
        (#[trigger] es[i]).op,
    ) implies said.contains(mvcc::op_txn(es[i].op)) == keep.contains(mvcc::op_txn(es[i].op)) by {
        let x = mvcc::op_txn(es[i].op);
        assert(now.log.contains(es[i]));
        let a = choose|a: int| 0 <= a < now.log.len() && now.log[a] == es[i];
        if said.contains(x) {
            let j = choose|j: int|
                0 <= j < es.len() && (#[trigger] es[j]).op == Op::Commit(TransactionId(x));
            assert(now.log.contains(es[j]));
            let b = choose|b: int| 0 <= b < now.log.len() && now.log[b] == es[j];
            assert(now.done.contains(x));
        }
        if keep.contains(x) {
            assert(mvcc::data_op(now.log[a].op));
            assert(now.done.contains(x));
            assert(history::settled(now, a));
            let b = choose|b: int|
                a < b < now.log.len() && (#[trigger] now.log[b]).op == Op::Commit(
                    TransactionId(x),
                );
            assert(es.contains(now.log[b]));
            let j = choose|j: int| 0 <= j < es.len() && es[j] == now.log[b];
            assert(es[j].op == Op::Commit(TransactionId(x)));
        }
    }
}

/// A write is among its transaction's writes.
proof fn member_of_writes(es: Seq<Entry>, x: u64, i: int)
    requires
        0 <= i < es.len(),
        mvcc::data_op(es[i].op),
        mvcc::op_txn(es[i].op) == x,
    ensures
        history::writes_of(es, x).contains(es[i]),
    decreases es.len(),
{
    let writes = history::writes_of(es, x);
    if i == es.len() - 1 {
        assert(writes[writes.len() - 1] == es[i]);
    } else {
        assert(es.drop_last()[i] == es[i]);
        member_of_writes(es.drop_last(), x, i);
        let front = history::writes_of(es.drop_last(), x);
        let k = choose|k: int| 0 <= k < front.len() && front[k] == es[i];
        assert(writes[k] == es[i]);
    }
}

/// A row that has to be undone is undone down to the version that counted when
/// it was there.
proof fn undo_gives_truth(
    s: State,
    evs: Seq<Event>,
    m: int,
    j: int,
    k: int,
    keep: Set<u64>,
    p: Place,
)
    requires
        sound(s, evs),
        saved_at(s, evs, m),
        m <= j <= k <= evs.len(),
        state_at(s, evs, m).core.live.contains(p.table),
        state_at(s, evs, j).done.subset_of(keep),
        to_undo(state_at(s, evs, j), keep, p),
    ensures
        ({
            let at = state_at(s, evs, j);
            undo_at(
                history::row_at(at.core.rows, p),
                keep,
                recovery::above(state_at(s, evs, k).log, at.floor),
                p,
            ) == truth(at.core, keep, p)
        }),
{
    saved_stays(s, evs, m, j);
    young_after(s, evs, m, j, state_at(s, evs, m).floor as nat);
    let at = state_at(s, evs, j);
    let c = at.core;
    assert(history::inv(at, s.core.counter));
    let base = c.rows[p];
    assert(mvcc::row_ok(c, p, base));
    let x = (base.txn_id->0).0;
    assert(base.txn_id == Some(TransactionId(x)));
    let b = undo_down_to_row(s, evs, m, j, k, keep, p, x, base);
    let es = recovery::above(at.log, at.floor);
    let ops = mvcc::ops_of(c.records, x);
    assert(ops == history::writes_of(at.log, x));
    above_members(at.log, at.floor);
    mvcc::ops_of_members(c.records, x);
    assert forall|i: int| 0 <= i < es.len() implies ({
        let e = #[trigger] es[i];
        mvcc::data_op(e.op) && mvcc::op_txn(e.op) == x && !(e.op is Add) ==> own_or_kept(
            (mvcc::pre_image(e.op)->0).txn_id,
            keep,
            x,
        )
    }) by {
        let e = es[i];
        if mvcc::data_op(e.op) && mvcc::op_txn(e.op) == x && !(e.op is Add) {
            assert(at.log.contains(e));
            let a = choose|a: int| 0 <= a < at.log.len() && at.log[a] == e;
            member_of_writes(at.log, x, a);
            let n = choose|n: int| 0 <= n < ops.len() && ops[n] == e;
            assert(c.records.contains(ops[n]));
            let r = choose|r: int| 0 <= r < c.records.len() && c.records[r] == e;
            assert(mvcc::record_ok(c, c.records[r]));
        }
    }
    assert(replaces_kept(es, keep, x));
    undo_is_revert(Some(b), keep, es, x, p);
    assert(at.floor <= x);
    assert forall|i: int| 0 <= i < at.log.len() && mvcc::data_op(
        (#[trigger] at.log[i]).op,
    ) implies mvcc::op_txn(at.log[i].op) < at.log[i].lsn.0 by {}
    writes_above(at.log, at.floor, x);
    assert(mvcc::own_chain(c.rows, c.live, ops, x));
    let i = own_row_is_written(c.rows, c.live, ops, x, p);
    revert_from_any(base, b, ops, x, p, i);
    revert_by_place(c.rows, c.live, ops, x, p);
    let back = mvcc::revert_all(c.rows, c.live, ops, x);
    assert forall|i: int| 0 <= i < ops.len() implies #[trigger] steps::undoable(c.map(), ops[i]) by {
        steps::record_facts(c, x, i);
    }
    assert forall|q: Place| #[trigger] c.rows.dom().contains(q) implies c.live.contains(q.table) by {
        assert(mvcc::row_ok(c, q, c.rows[q]));
    }
    steps::revert_unseen(c.map(), c.txns, Viewer::Latest, c.rows, c.live, ops, x);
    assert(mvcc::look_at(c.map(), c.txns, Viewer::Latest, back, p) == c.look(Viewer::Latest, p));
    steps::revert_all_clears(c.rows, c.live, ops, x);
    if back.dom().contains(p) {
        steps::revert_all_rows(c.rows, c.live, ops, x, p);
        assert(back[p].txn_id != Some(TransactionId(x)));
        let i = choose|i: int|
            0 <= i < ops.len() && mvcc::op_place((#[trigger] ops[i]).op) == p && !(
            ops[i].op is Add) && mvcc::data_op(ops[i].op) && back[p] == mvcc::pre_image(
                ops[i].op,
            )->0;
        steps::record_facts(c, x, i);
        let w = (back[p].txn_id->0).0;
        assert(TransactionId(w) == back[p].txn_id->0);
        assert(c.txns.is_committed(w));
    }
}

/// What recovery gives back at a place where the data file holds `b`.
proof fn recovery_at(
    s: State,
    evs: Seq<Event>,
    m: int,
    k: int,
    keep: Set<u64>,
    p: Place,
    file: Map<Place, Row>,
)
    requires
        sound(s, evs),
        saved_at(s, evs, m),
        m <= k <= evs.len(),
        state_at(s, evs, m).core.live.contains(p.table),
        decided(state_at(s, evs, k), keep),
        in_hand(s, evs, m, k, keep, p, history::row_at(file, p)),
    ensures
        ({
            let now = state_at(s, evs, k);
            let b = history::row_at(file, p);
            let got = history::row_at(history::recovered(now, file), p);
            &&& caught_up_from(s, evs, m, k, keep, p, b) ==> got == truth(now.core, keep, p)
            &&& !caught_up_from(s, evs, m, k, keep, p, b) ==> exists|j: int|
                b == history::row_at(state_at(s, evs, j).core.rows, p) && #[trigger] left_over(
                    s,
                    evs,
                    m,
                    j,
                    k,
                    keep,
                    p,
                ) && got == truth(state_at(s, evs, j).core, keep, p)
            &&& got matches Some(row) ==> history::sound_row(now, p, row)
        }),
{
    let now = state_at(s, evs, k);
    let b = history::row_at(file, p);
    assert(history::inv(now, s.core.counter));
    saved_stays(s, evs, m, k);
    let es = recovery::above(now.log, now.floor);
    let said = recovery::committed_in(es);
    log_decides(now, s.core.counter, keep);
    let mid = recovery::redo(file, now.core.live, said, es);
    redo_by_place(file, now.core.live, said, es, p);
    agreeing_is_enough(said, keep, es, b, p);
    undo_by_place(mid, now.core.live, said, es, p);
    let r = redone_from(s, evs, m, k, keep, p, b);
    assert(history::row_at(mid, p) == r);
    agreeing_is_enough(said, keep, es, r, p);
    look_finds_sound(now, s.core.counter, p);
    if caught_up_from(s, evs, m, k, keep, p, b) {
        assert(stays_put(r, keep));
        undo_keeps(r, keep, es, p);
    } else {
        let j = choose|j: int|
            b == history::row_at(state_at(s, evs, j).core.rows, p) && #[trigger] left_over(
                s,
                evs,
                m,
                j,
                k,
                keep,
                p,
            );
        let at = state_at(s, evs, j);
        assert(history::inv(at, s.core.counter));
        look_finds_sound(at, s.core.counter, p);
        done_between(s, evs, j, k);
        saved_stays(s, evs, m, j);
        undo_gives_truth(s, evs, m, j, k, keep, p);
        clock_grows(s, evs, j, k);
    }
}

/// What has committed at one time has at every later one.
proof fn done_between(s: State, evs: Seq<Event>, j: int, k: int)
    requires
        sound(s, evs),
        0 <= j <= k <= evs.len(),
    ensures
        state_at(s, evs, j).done.subset_of(state_at(s, evs, k).done),
    decreases k - j,
{
    if j < k {
        state_step(s, evs, k - 1);
        done_between(s, evs, j, k - 1);
    }
}

/// Does redo leave a row that it begins with, or has it caught up, or is the
/// row a deletion mark that is purged and came back?
pub open spec fn followed(
    s: State,
    evs: Seq<Event>,
    m: int,
    k: int,
    keep: Set<u64>,
    p: Place,
    r: Option<Row>,
) -> bool {
    let got = redone_from(s, evs, m, k, keep, p, r);
    ||| got == r
    ||| caught_up_from(s, evs, m, k, keep, p, r)
    ||| got is None && history::came_back(
        r,
        recovery::above(state_at(s, evs, k).log, state_at(s, evs, m).floor),
        p,
    )
}

/// One more event that is no crash, whatever row redo begins with.
proof fn followed_past(
    s: State,
    evs: Seq<Event>,
    m: int,
    k: int,
    keep: Set<u64>,
    p: Place,
    r: Option<Row>,
)
    requires
        sound(s, evs),
        saved_at(s, evs, m),
        m <= k < evs.len(),
        !(evs[k] is Crash),
        respects(evs[k], keep),
        followed(s, evs, m, k, keep, p, r),
    ensures
        followed(s, evs, m, k + 1, keep, p, r),
{
    state_step(s, evs, k);
    redone_step(s, evs, m, k, keep, p, r);
    clock_grows(s, evs, m, k);
    assert(!history::saves(evs[k]));
    let now = state_at(s, evs, k);
    let then = state_at(s, evs, k + 1);
    let floor = state_at(s, evs, m).floor;
    if redone_from(s, evs, m, k, keep, p, r) == r {
        redo_from_start(s, evs, m, k, keep, p, r);
    } else if caught_up_from(s, evs, m, k, keep, p, r) {
        truth_step(now, evs[k], s.core.counter, keep, p);
    } else {
        let es = recovery::above(now.log, floor);
        let more = recovery::above(then.log, floor);
        match history::logged(evs[k], LsnId(now.core.counter as u64)) {
            Some(e) => recovery::above_push(now.log, e, floor),
            None => {},
        }
        let w = r->0.txn_id->0;
        let i = choose|i: int|
            0 <= i < es.len() && (#[trigger] es[i]).op == (Op::Purge {
                txn: w,
                table_id: p.table,
                key: p.key,
            });
        assert(more[i] == es[i]);
        assert(history::came_back(r, more, p));
        match evs[k] {
            Event::Write(op, row) => {
                if mvcc::op_place(op) == p && keep.contains(mvcc::op_txn(op)) && op is Add {
                    assert(then.core.rows.dom().contains(p));
                    assert(then.core.txns.unfinished(mvcc::op_txn(op)));
                }
            },
            _ => {},
        }
    }
}

/// A crash, whatever row redo begins with.
proof fn followed_past_crash(
    s: State,
    evs: Seq<Event>,
    m: int,
    k: int,
    keep: Set<u64>,
    p: Place,
    r: Option<Row>,
)
    requires
        sound(s, evs),
        saved_at(s, evs, m),
        m <= k < evs.len(),
        s.log.len() == 0,
        state_at(s, evs, m).core.live.contains(p.table),
        evs[k] is Crash,
        decided(state_at(s, evs, k), keep),
        in_hand(s, evs, m, k, keep, p, history::row_at(evs[k]->Crash_1, p)),
        followed(s, evs, m, k, keep, p, r),
    ensures
        followed(s, evs, m, k + 1, keep, p, r),
{
    state_step(s, evs, k);
    redone_step(s, evs, m, k, keep, p, r);
    clock_grows(s, evs, m, k);
    let now = state_at(s, evs, k);
    let then = state_at(s, evs, k + 1);
    let file = evs[k]->Crash_1;
    let b = history::row_at(file, p);
    recovery_at(s, evs, m, k, keep, p, file);
    assert(truth(then.core, keep, p) == history::row_at(then.core.rows, p));
    let got = redone_from(s, evs, m, k, keep, p, r);
    if got != r && caught_up_from(s, evs, m, k, keep, p, r) && !caught_up_from(
        s,
        evs,
        m,
        k,
        keep,
        p,
        b,
    ) {
        // Redo leaves a row that has to be undone, so no record in the log
        // writes here but such as are undone too.
        let j = choose|j: int|
            b == history::row_at(state_at(s, evs, j).core.rows, p) && #[trigger] left_over(
                s,
                evs,
                m,
                j,
                k,
                keep,
                p,
            ) && history::row_at(history::recovered(now, file), p) == truth(
                state_at(s, evs, j).core,
                keep,
                p,
            );
        let at = state_at(s, evs, j);
        assert(history::inv(at, s.core.counter));
        assert(mvcc::row_ok(at.core, p, at.core.rows[p]));
        let floor = state_at(s, evs, m).floor;
        let es = recovery::above(now.log, floor);
        signed_above(s, evs, k, floor);
        untouched(at.core.rows[p], r, keep, es, p);
    }
}

/// What the data file can hold at a place is in hand, and redo is followed from
/// any row, from the last save on.
proof fn pages_to_the_end(s: State, evs: Seq<Event>, m: int, k: int, p: Place)
    requires
        sound(s, evs),
        saved_at(s, evs, m),
        m <= k <= evs.len(),
        s.log.len() == 0,
        state_at(s, evs, m).core.live.contains(p.table),
    ensures
        ({
            let keep = history::run(s, evs).done;
            &&& forall|b: Option<Row>|
                state_at(s, evs, k).held.contains((p, b)) ==> #[trigger] in_hand(
                    s,
                    evs,
                    m,
                    k,
                    keep,
                    p,
                    b,
                )
            &&& forall|r: Option<Row>| #[trigger] followed(s, evs, m, k, keep, p, r)
        }),
    decreases k - m,
{
    let keep = history::run(s, evs).done;
    assert forall|j: int| 0 <= j < evs.len() implies respects(#[trigger] evs[j], keep) by {
        end_is_respected(s, evs, j);
    }
    assert forall|j: int| 0 <= j <= evs.len() implies (#[trigger] state_at(
        s,
        evs,
        j,
    )).done.subset_of(keep) by {
        done_grows(s, evs, j);
    }
    let here = history::row_at(state_at(s, evs, k).core.rows, p);
    if k == m {
        assert forall|r: Option<Row>| #[trigger] followed(s, evs, m, k, keep, p, r) by {
            redo_until_saved(s, evs, m, m, keep, p, r);
        }
        redo_until_saved(s, evs, m, m, keep, p, here);
        row_is_in_hand(s, evs, m, m, keep, p);
    } else {
        let i = k - 1;
        pages_to_the_end(s, evs, m, i, p);
        state_step(s, evs, i);
        let now = state_at(s, evs, i);
        let then = state_at(s, evs, k);
        saved_stays(s, evs, m, i);
        saved_stays(s, evs, m, k);
        if evs[i] is Crash {
            let file = evs[i]->Crash_1;
            crash_decides(s, evs, i);
            assert(now.held.contains((p, history::row_at(file, p))));
            assert(in_hand(s, evs, m, i, keep, p, history::row_at(file, p)));
            assert forall|r: Option<Row>| #[trigger] followed(s, evs, m, k, keep, p, r) by {
                assert(followed(s, evs, m, i, keep, p, r));
                followed_past_crash(s, evs, m, i, keep, p, r);
            }
            file_past_crash(s, evs, m, i, keep, p);
        } else {
            assert forall|r: Option<Row>| #[trigger] followed(s, evs, m, k, keep, p, r) by {
                assert(followed(s, evs, m, i, keep, p, r));
                followed_past(s, evs, m, i, keep, p, r);
            }
        }
        assert forall|b: Option<Row>| then.held.contains((p, b)) implies #[trigger] in_hand(
            s,
            evs,
            m,
            k,
            keep,
            p,
            b,
        ) by {
            if history::can_go(then.core, then.log, then.floor).contains((p, b)) {
                assert(followed(s, evs, m, k, keep, p, b));
                row_is_in_hand(s, evs, m, k, keep, p);
            } else if !(evs[i] is Crash) {
                assert(!history::saves(evs[i]));
                assert(now.held.contains((p, b)));
                assert(in_hand(s, evs, m, i, keep, p, b));
                redo_past(s, evs, m, i, keep, p, b);
            }
        }
    }
}

/// A crash leaves what was in the data file in hand.
proof fn file_past_crash(s: State, evs: Seq<Event>, m: int, k: int, keep: Set<u64>, p: Place)
    requires
        sound(s, evs),
        saved_at(s, evs, m),
        m <= k < evs.len(),
        state_at(s, evs, m).core.live.contains(p.table),
        evs[k] is Crash,
        decided(state_at(s, evs, k), keep),
        in_hand(s, evs, m, k, keep, p, history::row_at(evs[k]->Crash_1, p)),
    ensures
        in_hand(s, evs, m, k + 1, keep, p, history::row_at(evs[k]->Crash_1, p)),
{
    state_step(s, evs, k);
    let file = evs[k]->Crash_1;
    let b = history::row_at(file, p);
    redone_step(s, evs, m, k, keep, p, b);
    clock_grows(s, evs, m, k);
    recovery_at(s, evs, m, k, keep, p, file);
    let now = state_at(s, evs, k);
    let then = state_at(s, evs, k + 1);
    assert(truth(then.core, keep, p) == history::row_at(then.core.rows, p));
    if !caught_up_from(s, evs, m, k, keep, p, b) {
        let j = choose|j: int|
            b == history::row_at(state_at(s, evs, j).core.rows, p) && #[trigger] left_over(
                s,
                evs,
                m,
                j,
                k,
                keep,
                p,
            ) && history::row_at(history::recovered(now, file), p) == truth(
                state_at(s, evs, j).core,
                keep,
                p,
            );
        assert(left_over(s, evs, m, j, k + 1, keep, p));
    }
}

/// A crash settles which of the transactions so far commit.
proof fn crash_decides(s: State, evs: Seq<Event>, k: int)
    requires
        sound(s, evs),
        0 <= k < evs.len(),
        evs[k] is Crash,
    ensures
        decided(state_at(s, evs, k), history::run(s, evs).done),
{
    let keep = history::run(s, evs).done;
    state_step(s, evs, k);
    let now = state_at(s, evs, k);
    let then = state_at(s, evs, k + 1);
    assert forall|x: u64| #[trigger] now.core.txns.unfinished(x) implies !keep.contains(x) by {
        assert(lost(then, x));
        lost_stays(s, evs, k + 1, x);
    }
    assert forall|i: int| 0 <= i < now.log.len() && mvcc::data_op(
        (#[trigger] now.log[i]).op,
    ) && keep.contains(mvcc::op_txn(now.log[i].op)) implies now.done.contains(
        mvcc::op_txn(now.log[i].op),
    ) by {
        let x = mvcc::op_txn(now.log[i].op);
        if !now.done.contains(x) {
            assert(lost(then, x));
            lost_stays(s, evs, k + 1, x);
        }
    }
    done_grows(s, evs, k);
}

/// What a read gives of a row.
pub open spec fn read_of(rows: Map<Place, Row>, p: Place) -> Option<Row> {
    if rows.dom().contains(p) && !rows[p].tombstone {
        Some(rows[p])
    } else {
        None
    }
}

/// Recovery has no rows in tables that do not exist.
proof fn recovered_is_live(now: State, file: Map<Place, Row>, p: Place)
    requires
        history::recovered(now, file).dom().contains(p),
        file.dom().contains(p) ==> now.core.live.contains(p.table),
    ensures
        now.core.live.contains(p.table),
{
    let es = recovery::above(now.log, now.floor);
    let said = recovery::committed_in(es);
    let mid = recovery::redo(file, now.core.live, said, es);
    undo_is_live(mid, now.core.live, said, es, p);
    redo_is_live(file, now.core.live, said, es, p);
}

/// Whatever the data file can hold at a place was there since the last save.
proof fn held_was_there(s: State, evs: Seq<Event>, m: int, k: int, p: Place, b: Option<Row>)
    requires
        sound(s, evs),
        saved_at(s, evs, m),
        m <= k <= evs.len(),
        state_at(s, evs, k).held.contains((p, b)),
    ensures
        exists|j: int|
            m <= j <= k && b == history::row_at((#[trigger] state_at(s, evs, j)).core.rows, p),
    decreases k - m,
{
    if k == m {
        assert(b == history::row_at(state_at(s, evs, m).core.rows, p));
    } else {
        state_step(s, evs, k - 1);
        let now = state_at(s, evs, k - 1);
        if b == history::row_at(state_at(s, evs, k).core.rows, p) {
        } else {
            assert(!history::saves(evs[k - 1]));
            if evs[k - 1] is Crash {
                assert(b == history::row_at(evs[k - 1]->Crash_1, p));
            }
            assert(now.held.contains((p, b)));
            held_was_there(s, evs, m, k - 1, p, b);
            let j = choose|j: int|
                m <= j <= k - 1 && b == history::row_at(
                    (#[trigger] state_at(s, evs, j)).core.rows,
                    p,
                );
            assert(b == history::row_at(state_at(s, evs, j).core.rows, p));
        }
    }
}

/// Redo puts rows into tables that exist.
proof fn redo_is_live(
    rows: Map<Place, Row>,
    live: Set<TableIdType>,
    keep: Set<u64>,
    es: Seq<Entry>,
    p: Place,
)
    ensures
        recovery::redo(rows, live, keep, es).dom().contains(p) ==> live.contains(p.table)
            || rows.dom().contains(p),
    decreases es.len(),
{
    if es.len() > 0 {
        redo_is_live(rows, live, keep, es.drop_last(), p);
    }
}

/// Undo puts no rows where there were none.
proof fn undo_is_live(
    rows: Map<Place, Row>,
    live: Set<TableIdType>,
    keep: Set<u64>,
    es: Seq<Entry>,
    p: Place,
)
    ensures
        recovery::undo(rows, live, keep, es).dom().contains(p) ==> rows.dom().contains(p),
    decreases es.len(),
{
    if es.len() > 0 {
        undo_is_live(
            recovery::undo_one(rows, live, keep, es.last()),
            live,
            keep,
            es.drop_last(),
            p,
        );
    }
}

/// What recovery gives back, if what holds after any events held all along.
proof fn recovered_reads(s: State, evs: Seq<Event>, file: Map<Place, Row>, p: Place)
    requires
        history::fresh(s),
        sound(s, evs),
        history::in_file(history::run(s, evs), file),
    ensures
        ({
            let end = history::run(s, evs);
            let rows = history::recovered(end, file);
            &&& read_of(rows, p) == end.core.read(Viewer::Latest, p)
            &&& rows.dom().contains(p) ==> history::sound_row(end, p, rows[p])
        }),
{
    let end = history::run(s, evs);
    let n = evs.len() as int;
    assert(evs.take(n) =~= evs);
    assert(state_at(s, evs, n) == end);
    assert(history::inv(end, s.core.counter));
    let m = last_save(s, evs);
    saved_stays(s, evs, m, n);
    let b = history::row_at(file, p);
    assert(end.held.contains((p, b)));
    if end.core.live.contains(p.table) {
        pages_to_the_end(s, evs, m, n, p);
        assert(in_hand(s, evs, m, n, end.done, p, b));
        recovery_at(s, evs, m, n, end.done, p, file);
        if end.core.rows.dom().contains(p) {
            let w = (end.core.rows[p].txn_id->0).0;
            assert(!(end.core.txns.unfinished(w) && end.done.contains(w)));
        }
    } else {
        if file.dom().contains(p) {
            held_was_there(s, evs, m, n, p, b);
            let j = choose|j: int|
                m <= j <= n && b == history::row_at((#[trigger] state_at(s, evs, j)).core.rows, p);
            saved_stays(s, evs, m, j);
            let at = state_at(s, evs, j);
            assert(history::inv(at, s.core.counter));
            assert(mvcc::row_ok(at.core, p, at.core.rows[p]));
        }
        if history::recovered(end, file).dom().contains(p) {
            recovered_is_live(end, file, p);
        }
        nothing_there(end, s.core.counter, end.done, p);
    }
}

/// Whatever happens, what holds after any events holds after each of them.
proof fn always_sound(s: State, evs: Seq<Event>)
    requires
        history::fresh(s),
        s.core.counter <= u64::MAX,
        history::possible(s, evs),
    ensures
        sound(s, evs),
    decreases evs.len(),
{
    if evs.len() == 0 {
        history::inv_at_first(s);
        assert forall|k: int| 0 <= k <= evs.len() implies history::inv(
            #[trigger] state_at(s, evs, k),
            s.core.counter,
        ) by {
            assert(evs.take(k) =~= evs);
        }
    } else {
        let front = evs.drop_last();
        always_sound(s, front);
        let before = history::run(s, front);
        assert(front.take(front.len() as int) =~= front);
        assert(state_at(s, front, front.len() as int) == before);
        assert(history::inv(before, s.core.counter));
        if evs.last() is Crash {
            let file = evs.last()->Crash_1;
            assert forall|p: Place| #[trigger] history::recovered(before, file).dom().contains(
                p,
            ) implies history::sound_row(before, p, history::recovered(before, file)[p]) by {
                recovered_reads(s, front, file, p);
            }
            history::inv_after_crash(before, s.core.counter, evs.last()->Crash_0, file);
        } else {
            history::inv_stays(before, evs.last(), s.core.counter);
        }
        assert forall|k: int| 0 <= k <= evs.len() implies history::inv(
            #[trigger] state_at(s, evs, k),
            s.core.counter,
        ) by {
            if k == evs.len() {
                assert(evs.take(k) =~= evs);
            } else {
                assert(evs.take(k) =~= front.take(k));
                assert(history::inv(state_at(s, front, k), s.core.counter));
            }
        }
    }
}

/// Whatever has happened, however often the power was cut before, wherever the
/// last checkpoint was, and whichever pages went to the data file since: if the
/// power is cut now, recovery gives back at every place exactly what a
/// transaction would read that begins now. Nothing that committed is lost, and
/// nothing else comes back.
pub proof fn recovery_gives_back_what_committed(
    s: State,
    evs: Seq<Event>,
    file: Map<Place, Row>,
    p: Place,
)
    requires
        history::fresh(s),
        s.core.counter <= u64::MAX,
        history::possible(s, evs),
        history::in_file(history::run(s, evs), file),
    ensures
        read_of(history::recovered(history::run(s, evs), file), p) == history::run(
            s,
            evs,
        ).core.read(Viewer::Latest, p),
{
    always_sound(s, evs);
    recovered_reads(s, evs, file, p);
}

/// Whatever the data file can hold, the engine can work with the rows that
/// recovery gives back: they are in tables that exist and say who wrote them,
/// and their numbers were handed out.
pub proof fn recovered_rows_are_usable(s: State, evs: Seq<Event>, file: Map<Place, Row>)
    requires
        history::fresh(s),
        s.core.counter <= u64::MAX,
        history::possible(s, evs),
        history::in_file(history::run(s, evs), file),
    ensures
        ({
            let end = history::run(s, evs);
            let rows = history::recovered(end, file);
            forall|p: Place| #[trigger]
                rows.dom().contains(p) ==> recovery::usable(
                    p,
                    rows[p],
                    end.core.live,
                    end.core.counter,
                )
        }),
{
    always_sound(s, evs);
    let end = history::run(s, evs);
    let rows = history::recovered(end, file);
    assert forall|p: Place| #[trigger] rows.dom().contains(p) implies recovery::usable(
        p,
        rows[p],
        end.core.live,
        end.core.counter,
    ) by {
        recovered_reads(s, evs, file, p);
    }
}

/// Whatever has happened, crashes among it, every reader can read every row,
/// and every transaction in flight can be undone.
pub proof fn promises_are_always_kept(s: State, evs: Seq<Event>)
    requires
        history::fresh(s),
        s.core.counter <= u64::MAX,
        history::possible(s, evs),
    ensures
        history::run(s, evs).core.wf(),
        history::inv(history::run(s, evs), s.core.counter),
{
    always_sound(s, evs);
    assert(evs.take(evs.len() as int) =~= evs);
    assert(history::inv(state_at(s, evs, evs.len() as int), s.core.counter));
}

/// The floor is at or below every transaction in flight, and never falls.
pub proof fn floor_never_falls(s: State, evs: Seq<Event>)
    requires
        history::fresh(s),
        s.core.counter <= u64::MAX,
        history::possible(s, evs),
    ensures
        ({
            let now = history::run(s, evs);
            &&& now.floor <= checkpoint::floor_of(now.core)
            &&& forall|x: u64| #[trigger] now.core.txns.unfinished(x) ==> now.floor <= x
        }),
{
    always_sound(s, evs);
    let n = evs.len() as int;
    assert(evs.take(n) =~= evs);
    let m = last_save(s, evs);
    let at = state_at(s, evs, m);
    saved_stays(s, evs, m, n);
    assert(history::inv(state_at(s, evs, n), s.core.counter));
    young_after(s, evs, m, n, at.floor as nat);
    floor_fits(state_at(s, evs, n).core, at.floor as nat);
}

// ---------------------------------------------------------------------------
// Replaying once more
// ---------------------------------------------------------------------------

/// Does the record say who wrote its new version?
pub open spec fn signed_one(e: Entry) -> bool {
    match e.op {
        Op::Add { txn, post } => post.tuple.txn_id == Some(txn),
        Op::Mod { txn, post, .. } => post.tuple.txn_id == Some(txn),
        _ => true,
    }
}

/// Is that so of every record?
pub open spec fn signed(es: Seq<Entry>) -> bool {
    forall|i: int| 0 <= i < es.len() ==> signed_one(#[trigger] es[i])
}

/// Does the record replace no version, or one of its own transaction, or one of
/// a transaction that these do not hold?
pub open spec fn replaces_none_of(e: Entry, losers: Set<u64>) -> bool {
    mvcc::data_op(e.op) && !(e.op is Add) ==> ((mvcc::pre_image(e.op)->0).txn_id matches Some(w)
        ==> w.0 == mvcc::op_txn(e.op) || !losers.contains(w.0))
}

/// The transactions that wrote something here and did not commit.
pub open spec fn losers(es: Seq<Entry>) -> Set<u64> {
    Set::new(
        |x: u64|
            !recovery::committed_in(es).contains(x) && exists|i: int|
                0 <= i < es.len() && mvcc::data_op((#[trigger] es[i]).op) && mvcc::op_txn(es[i].op)
                    == x,
    )
}

/// Are the records such as transactions write that respect each other? Each
/// says who wrote its new version, and none replaces a version that another
/// transaction wrote here and did not commit.
pub open spec fn honest(es: Seq<Entry>) -> bool {
    signed(es) && forall|i: int|
        0 <= i < es.len() ==> replaces_none_of(#[trigger] es[i], losers(es))
}

/// Redo leaves a row as it is, or replaces it by versions that commit.
proof fn redo_signs(b: Row, keep: Set<u64>, es: Seq<Entry>, p: Place)
    requires
        signed(es),
    ensures
        redo_at(Some(b), keep, es, p) == Some(b) || stays_put(redo_at(Some(b), keep, es, p), keep),
    decreases es.len(),
{
    if es.len() > 0 {
        assert(signed_one(es[es.len() - 1]));
        signed_front(es);
        redo_signs(b, keep, es.drop_last(), p);
    }
}

/// All but the last of such records are such records.
proof fn signed_front(es: Seq<Entry>)
    requires
        signed(es),
        es.len() > 0,
    ensures
        signed(es.drop_last()),
{
    assert forall|i: int| 0 <= i < es.drop_last().len() implies signed_one(
        #[trigger] es.drop_last()[i],
    ) by {
        assert(signed_one(es[i]));
    }
}

/// A deletion mark that is purged by some of the records is purged by all.
proof fn purged_by_more(r: Option<Row>, es: Seq<Entry>, p: Place)
    requires
        es.len() > 0,
        history::came_back(r, es.drop_last(), p),
    ensures
        history::came_back(r, es, p),
{
    let w = r->0.txn_id->0;
    let front = es.drop_last();
    let i = choose|i: int|
        0 <= i < front.len() && (#[trigger] front[i]).op == (Op::Purge {
            txn: w,
            table_id: p.table,
            key: p.key,
        });
    assert(es[i] == front[i]);
}

/// Where redo leaves a row whose writer does not commit, the same records
/// leave any other row as well, or purge it.
proof fn untouched(b: Row, r: Option<Row>, keep: Set<u64>, es: Seq<Entry>, p: Place)
    requires
        signed(es),
        !stays_put(Some(b), keep),
        redo_at(Some(b), keep, es, p) == Some(b),
    ensures
        redo_at(r, keep, es, p) == r || (redo_at(r, keep, es, p) is None && history::came_back(
            r,
            es,
            p,
        )),
    decreases es.len(),
{
    if es.len() > 0 {
        let front = es.drop_last();
        let e = es[es.len() - 1];
        assert(signed_one(e));
        signed_front(es);
        redo_signs(b, keep, front, p);
        untouched(b, r, keep, front, p);
        if redo_at(r, keep, front, p) == r {
            if redo_at(r, keep, es, p) != r {
                assert(es[es.len() - 1].op == (Op::Purge {
                    txn: r->0.txn_id->0,
                    table_id: p.table,
                    key: p.key,
                }));
            }
        } else {
            purged_by_more(r, es, p);
        }
    }
}

/// Is the record an insert at the place that is redone?
pub open spec fn redone_insert(e: Entry, keep: Set<u64>, p: Place) -> bool {
    e.op is Add && keep.contains(mvcc::op_txn(e.op)) && mvcc::op_place(e.op) == p
}

/// Behind an insert that is redone it does not matter what was there.
proof fn insert_forgets(a: Option<Row>, b: Option<Row>, keep: Set<u64>, es: Seq<Entry>, p: Place, i: int)
    requires
        0 <= i < es.len(),
        redone_insert(es[i], keep, p),
    ensures
        redo_at(a, keep, es, p) == redo_at(b, keep, es, p),
    decreases es.len(),
{
    if i < es.len() - 1 {
        assert(es.drop_last()[i] == es[i]);
        insert_forgets(a, b, keep, es.drop_last(), p, i);
    }
}

/// Without an insert that is redone, a row that redo does not lose is what it
/// makes of any other, or that other is left, or purged.
proof fn redo_side_by_side(a: Option<Row>, b: Row, keep: Set<u64>, es: Seq<Entry>, p: Place)
    requires
        forall|i: int| 0 <= i < es.len() ==> !redone_insert(#[trigger] es[i], keep, p),
    ensures
        redo_at(a, keep, es, p) is Some ==> ({
            let got = redo_at(Some(b), keep, es, p);
            got == redo_at(a, keep, es, p) || got == Some(b) || (got is None && history::came_back(
                Some(b),
                es,
                p,
            ))
        }),
        a is None ==> redo_at(a, keep, es, p) is None,
    decreases es.len(),
{
    if es.len() > 0 {
        let front = es.drop_last();
        let e = es[es.len() - 1];
        assert(!redone_insert(e, keep, p));
        assert forall|i: int| 0 <= i < front.len() implies !redone_insert(
            #[trigger] front[i],
            keep,
            p,
        ) by {
            assert(!redone_insert(es[i], keep, p));
        }
        redo_side_by_side(a, b, keep, front, p);
        if redo_at(a, keep, es, p) is Some {
            let got = redo_at(Some(b), keep, front, p);
            assert(redo_at(a, keep, front, p) is Some);
            if got == Some(b) {
                if redo_at(Some(b), keep, es, p) is None {
                    assert(es[es.len() - 1].op == (Op::Purge {
                        txn: b.txn_id->0,
                        table_id: p.table,
                        key: p.key,
                    }));
                }
            } else if got is None && history::came_back(Some(b), front, p) {
                purged_by_more(Some(b), es, p);
            }
        }
    }
}

/// Undo makes the same of any two versions of one transaction, or leaves both.
proof fn undo_side_by_side(a: Row, b: Row, keep: Set<u64>, es: Seq<Entry>, p: Place)
    requires
        a.txn_id == b.txn_id,
    ensures
        undo_at(Some(a), keep, es, p) == undo_at(Some(b), keep, es, p) || (undo_at(
            Some(a),
            keep,
            es,
            p,
        ) == Some(a) && undo_at(Some(b), keep, es, p) == Some(b)),
    decreases es.len(),
{
    if es.len() > 0 {
        let e = es.last();
        if undo_step(Some(a), keep, e, p) == Some(a) && undo_step(Some(b), keep, e, p) == Some(b) {
            undo_side_by_side(a, b, keep, es.drop_last(), p);
        }
    }
}

/// Undo leaves no row, or one of the same writer, or one of somebody who wrote
/// nothing here that did not commit; and such a row it leaves.
proof fn undo_ends(r: Option<Row>, keep: Set<u64>, bad: Set<u64>, es: Seq<Entry>, p: Place)
    requires
        forall|i: int|
            0 <= i < es.len() ==> replaces_none_of(#[trigger] es[i], bad) && (mvcc::data_op(
                es[i].op,
            ) && !keep.contains(mvcc::op_txn(es[i].op)) ==> bad.contains(mvcc::op_txn(es[i].op))),
    ensures
        undo_at(r, keep, es, p) matches Some(q) ==> r is Some && (q.txn_id == r->0.txn_id || !(
        q.txn_id matches Some(w) && bad.contains(w.0))),
        !(r matches Some(row) && (row.txn_id matches Some(w) && bad.contains(w.0))) ==> undo_at(
            r,
            keep,
            es,
            p,
        ) == r,
    decreases es.len(),
{
    if es.len() > 0 {
        let front = es.drop_last();
        assert(replaces_none_of(es[es.len() - 1], bad));
        assert forall|i: int| 0 <= i < front.len() implies replaces_none_of(
            #[trigger] front[i],
            bad,
        ) && (mvcc::data_op(front[i].op) && !keep.contains(mvcc::op_txn(front[i].op))
            ==> bad.contains(mvcc::op_txn(front[i].op))) by {
            assert(replaces_none_of(es[i], bad));
        }
        undo_ends(undo_step(r, keep, es.last(), p), keep, bad, front, p);
        undo_ends(r, keep, bad, front, p);
    }
}

/// Undoing twice is undoing once.
proof fn undo_twice(r: Option<Row>, keep: Set<u64>, bad: Set<u64>, es: Seq<Entry>, p: Place)
    requires
        forall|i: int|
            0 <= i < es.len() ==> replaces_none_of(#[trigger] es[i], bad) && (mvcc::data_op(
                es[i].op,
            ) && !keep.contains(mvcc::op_txn(es[i].op)) ==> bad.contains(mvcc::op_txn(es[i].op))),
    ensures
        undo_at(undo_at(r, keep, es, p), keep, es, p) == undo_at(r, keep, es, p),
{
    let q = undo_at(r, keep, es, p);
    undo_ends(r, keep, bad, es, p);
    undo_ends(q, keep, bad, es, p);
    if q is Some && q->0.txn_id == r->0.txn_id {
        undo_side_by_side(r->0, q->0, keep, es, p);
    }
}

/// Replaying records a second time, on what the first time gave, changes
/// nothing that can be read, whatever the rows were. At every place it gives the
/// same row again, or no row where the first time left a deletion mark.
pub proof fn replaying_again_changes_no_read(
    rows: Map<Place, Row>,
    live: Set<TableIdType>,
    es: Seq<Entry>,
    p: Place,
)
    requires
        honest(es),
    ensures
        ({
            let once = recovery::recovered(rows, live, es);
            let twice = recovery::recovered(once, live, es);
            &&& read_of(twice, p) == read_of(once, p)
            &&& history::row_at(twice, p) == history::row_at(once, p) || (history::row_at(
                twice,
                p,
            ) is None && (history::row_at(once, p) matches Some(row) && row.tombstone))
        }),
{
    let keep = recovery::committed_in(es);
    let bad = losers(es);
    let once = recovery::recovered(rows, live, es);
    let twice = recovery::recovered(once, live, es);
    if live.contains(p.table) {
        let r = history::row_at(rows, p);
        let v = redo_at(r, keep, es, p);
        let q = undo_at(v, keep, es, p);
        redo_by_place(rows, live, keep, es, p);
        undo_by_place(recovery::redo(rows, live, keep, es), live, keep, es, p);
        redo_by_place(once, live, keep, es, p);
        undo_by_place(recovery::redo(once, live, keep, es), live, keep, es, p);
        let again = redo_at(q, keep, es, p);
        assert(history::row_at(once, p) == q);
        assert(history::row_at(twice, p) == undo_at(again, keep, es, p));
        assert forall|i: int| 0 <= i < es.len() implies replaces_none_of(#[trigger] es[i], bad) && (
        mvcc::data_op(es[i].op) && !keep.contains(mvcc::op_txn(es[i].op)) ==> bad.contains(
            mvcc::op_txn(es[i].op),
        )) by {}
        undo_ends(None, keep, bad, es, p);
        undo_twice(v, keep, bad, es, p);
        if exists|i: int| 0 <= i < es.len() && redone_insert(#[trigger] es[i], keep, p) {
            let i = choose|i: int| 0 <= i < es.len() && redone_insert(#[trigger] es[i], keep, p);
            insert_forgets(r, q, keep, es, p, i);
        } else {
            match v {
                None => {
                    redo_side_by_side(None, arbitrary(), keep, es, p);
                },
                Some(row) => {
                    if stays_put(v, keep) {
                        undo_keeps(v, keep, es, p);
                        redo_side_by_side(r, row, keep, es, p);
                    } else {
                        if r is None {
                            redo_side_by_side(r, row, keep, es, p);
                        }
                        redo_signs(r->0, keep, es, p);
                        untouched(row, q, keep, es, p);
                    }
                },
            }
        }
    } else {
        replay_leaves_the_rest(rows, live, es, p);
        replay_leaves_the_rest(once, live, es, p);
    }
}

/// Redo leaves a place alone whose table does not exist, or that no record
/// names.
proof fn redo_elsewhere(
    rows: Map<Place, Row>,
    live: Set<TableIdType>,
    keep: Set<u64>,
    es: Seq<Entry>,
    p: Place,
)
    requires
        !live.contains(p.table) || forall|i: int|
            0 <= i < es.len() ==> !names(#[trigger] es[i], p),
    ensures
        history::row_at(recovery::redo(rows, live, keep, es), p) == history::row_at(rows, p),
    decreases es.len(),
{
    if es.len() > 0 {
        assert(live.contains(p.table) ==> !names(es[es.len() - 1], p));
        assert(live.contains(p.table) ==> forall|i: int|
            0 <= i < es.drop_last().len() ==> !names(#[trigger] es.drop_last()[i], p)) by {
            if live.contains(p.table) {
                assert forall|i: int| 0 <= i < es.drop_last().len() implies !names(
                    #[trigger] es.drop_last()[i],
                    p,
                ) by {
                    assert(!names(es[i], p));
                }
            }
        }
        redo_elsewhere(rows, live, keep, es.drop_last(), p);
    }
}

/// Undo leaves a place alone whose table does not exist, or that no record
/// names.
proof fn undo_elsewhere(
    rows: Map<Place, Row>,
    live: Set<TableIdType>,
    keep: Set<u64>,
    es: Seq<Entry>,
    p: Place,
)
    requires
        !live.contains(p.table) || forall|i: int|
            0 <= i < es.len() ==> !names(#[trigger] es[i], p),
    ensures
        history::row_at(recovery::undo(rows, live, keep, es), p) == history::row_at(rows, p),
    decreases es.len(),
{
    if es.len() > 0 {
        assert(live.contains(p.table) ==> !names(es[es.len() - 1], p));
        assert(live.contains(p.table) ==> forall|i: int|
            0 <= i < es.drop_last().len() ==> !names(#[trigger] es.drop_last()[i], p)) by {
            if live.contains(p.table) {
                assert forall|i: int| 0 <= i < es.drop_last().len() implies !names(
                    #[trigger] es.drop_last()[i],
                    p,
                ) by {
                    assert(!names(es[i], p));
                }
            }
        }
        undo_elsewhere(
            recovery::undo_one(rows, live, keep, es.last()),
            live,
            keep,
            es.drop_last(),
            p,
        );
    }
}

/// Does the record name the place?
pub open spec fn names(e: Entry, p: Place) -> bool {
    ||| (mvcc::data_op(e.op) || e.op is Purge) && mvcc::op_place(e.op) == p
    ||| e.op matches Op::Mod { post, .. } && p == (Place {
        table: post.table_id,
        key: post.tuple.id,
    })
}

/// Replay leaves every place alone that no record names, and every place whose
/// table does not exist.
pub proof fn replay_leaves_the_rest(
    rows: Map<Place, Row>,
    live: Set<TableIdType>,
    es: Seq<Entry>,
    p: Place,
)
    requires
        !live.contains(p.table) || forall|i: int|
            0 <= i < es.len() ==> !names(#[trigger] es[i], p),
    ensures
        history::row_at(recovery::recovered(rows, live, es), p) == history::row_at(rows, p),
{
    let keep = recovery::committed_in(es);
    redo_elsewhere(rows, live, keep, es, p);
    undo_elsewhere(recovery::redo(rows, live, keep, es), live, keep, es, p);
}

/// What a record leaves at its place once it is redone.
pub open spec fn outcome(e: Entry) -> Option<Row> {
    match e.op {
        Op::Add { post, .. } => Some(post.tuple),
        Op::Mod { post, .. } => Some(post.tuple),
        Op::Del { txn, pre } => Some(recovery::marked(pre.tuple, txn, e.lsn)),
        _ => None,
    }
}

/// Where a record goes when it is redone.
pub open spec fn redo_place(op: Op) -> Place {
    match op {
        Op::Mod { post, .. } => Place { table: post.table_id, key: post.tuple.id },
        _ => mvcc::op_place(op),
    }
}

/// Records that redo skips at the place change nothing there.
proof fn redo_skips(r: Option<Row>, keep: Set<u64>, es: Seq<Entry>, p: Place, i: int)
    requires
        0 <= i <= es.len(),
        forall|j: int|
            i <= j < es.len() ==> !((#[trigger] es[j]).op is Purge && mvcc::op_place(es[j].op) == p)
                && !(mvcc::data_op(es[j].op) && keep.contains(mvcc::op_txn(es[j].op)) && redo_place(
                es[j].op,
            ) == p),
    ensures
        redo_at(r, keep, es, p) == redo_at(r, keep, es.take(i), p),
    decreases es.len() - i,
{
    if i == es.len() {
        assert(es.take(i) =~= es);
    } else {
        redo_skips(r, keep, es, p, i + 1);
        assert(es.take(i + 1).drop_last() =~= es.take(i));
        assert(es.take(i + 1).last() == es[i]);
    }
}

/// After replay a place holds what the last record of a transaction that
/// committed left there, whatever the rows were: an insert always, and an update
/// or a delete where redo finds the row.
pub proof fn last_committed_record_counts(
    rows: Map<Place, Row>,
    live: Set<TableIdType>,
    es: Seq<Entry>,
    p: Place,
    i: int,
)
    requires
        signed(es),
        live.contains(p.table),
        0 <= i < es.len(),
        mvcc::data_op(es[i].op),
        recovery::committed_in(es).contains(mvcc::op_txn(es[i].op)),
        redo_place(es[i].op) == p,
        es[i].op is Add || recovery::redo(
            rows,
            live,
            recovery::committed_in(es),
            es.take(i),
        ).dom().contains(p),
        forall|j: int|
            i < j < es.len() ==> !((#[trigger] es[j]).op is Purge && mvcc::op_place(es[j].op) == p)
                && !(mvcc::data_op(es[j].op) && recovery::committed_in(es).contains(
                mvcc::op_txn(es[j].op),
            ) && redo_place(es[j].op) == p),
    ensures
        history::row_at(recovery::recovered(rows, live, es), p) == outcome(es[i]),
{
    let keep = recovery::committed_in(es);
    let r = history::row_at(rows, p);
    redo_by_place(rows, live, keep, es.take(i), p);
    redo_by_place(rows, live, keep, es, p);
    undo_by_place(recovery::redo(rows, live, keep, es), live, keep, es, p);
    redo_skips(r, keep, es, p, i + 1);
    assert(es.take(i + 1).drop_last() =~= es.take(i));
    assert(es.take(i + 1).last() == es[i]);
    assert(signed_one(es[i]));
    undo_keeps(outcome(es[i]), keep, es, p);
}

/// Everything that is logged says who wrote it, and replaces versions of its
/// own transaction or such as have committed.
proof fn log_is_signed(s: State, evs: Seq<Event>, k: int)
    requires
        sound(s, evs),
        0 <= k <= evs.len(),
        s.log.len() == 0,
    ensures
        ({
            let now = state_at(s, evs, k);
            forall|i: int|
                0 <= i < now.log.len() ==> signed_one(#[trigger] now.log[i]) && (mvcc::data_op(
                    now.log[i].op,
                ) && !(now.log[i].op is Add) ==> ((mvcc::pre_image(
                    now.log[i].op,
                )->0).txn_id matches Some(w) && (w.0 == mvcc::op_txn(now.log[i].op)
                    || now.done.contains(w.0))))
        }),
    decreases k,
{
    if k == 0 {
        assert(evs.take(0) =~= seq![]);
    } else {
        log_is_signed(s, evs, k - 1);
        state_step(s, evs, k - 1);
        let now = state_at(s, evs, k - 1);
        let then = state_at(s, evs, k);
        assert forall|i: int| 0 <= i < then.log.len() implies signed_one(#[trigger] then.log[i])
            && (mvcc::data_op(then.log[i].op) && !(then.log[i].op is Add) ==> ((mvcc::pre_image(
            then.log[i].op,
        )->0).txn_id matches Some(w) && (w.0 == mvcc::op_txn(then.log[i].op)
            || then.done.contains(w.0)))) by {
            if i < now.log.len() {
                assert(signed_one(now.log[i]));
                assert(then.log[i] == now.log[i]);
            } else if evs[k - 1] is Write {
                let op = evs[k - 1]->Write_0;
                let q = mvcc::op_place(op);
                if !(op is Add) {
                    assert(mvcc::row_ok(now.core, q, now.core.rows[q]));
                    assert(history::known(now, (now.core.rows[q].txn_id->0).0));
                }
            }
        }
    }
}

/// The records at or above a floor say who wrote them.
proof fn signed_above(s: State, evs: Seq<Event>, k: int, floor: u64)
    requires
        sound(s, evs),
        0 <= k <= evs.len(),
        s.log.len() == 0,
    ensures
        signed(recovery::above(state_at(s, evs, k).log, floor)),
{
    let log = state_at(s, evs, k).log;
    let es = recovery::above(log, floor);
    log_is_signed(s, evs, k);
    above_members(log, floor);
    assert forall|i: int| 0 <= i < es.len() implies signed_one(#[trigger] es[i]) by {
        let a = choose|a: int| 0 <= a < log.len() && log[a] == es[i];
        assert(signed_one(log[a]));
    }
}

/// Whatever has happened, the records that are needed are such as transactions
/// write that respect each other. So the log may be replayed again and again.
pub proof fn logs_are_honest(s: State, evs: Seq<Event>)
    requires
        history::fresh(s),
        s.core.counter <= u64::MAX,
        history::possible(s, evs),
    ensures
        honest(recovery::above(history::run(s, evs).log, history::run(s, evs).floor)),
{
    always_sound(s, evs);
    let end = history::run(s, evs);
    let n = evs.len() as int;
    assert(evs.take(n) =~= evs);
    assert(state_at(s, evs, n) == end);
    assert(history::inv(end, s.core.counter));
    let es = recovery::above(end.log, end.floor);
    signed_above(s, evs, n, end.floor);
    log_is_signed(s, evs, n);
    above_members(end.log, end.floor);
    log_decides(end, s.core.counter, end.done);
    assert forall|i: int| 0 <= i < es.len() implies replaces_none_of(
        #[trigger] es[i],
        losers(es),
    ) by {
        let a = choose|a: int| 0 <= a < end.log.len() && end.log[a] == es[i];
        assert(signed_one(end.log[a]));
    }
}

} // verus!

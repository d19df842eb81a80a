//! Everything that can happen to a database, one event after the other, with
//! what each leaves in the log and in the data file.
use vstd::prelude::*;

use crate::checkpoint;
use crate::clock::LsnId;
use crate::mvcc;
use crate::mvcc::{Core, Place, Txns, Viewer};
use crate::operation::{Entry, Op};
use crate::recovery;
use crate::steps;
use crate::table::TableIdType;
use crate::tuple::Row;
use crate::txn::{ConflictPolicy, TransactionId};

verus! {

/// Something that happens.
pub enum Event {
    /// A number is handed out that nothing is logged under.
    Tick,
    Begin(ConflictPolicy),
    /// A write, and the row's new version.
    Write(Op, Row),
    Commit(u64),
    /// A transaction begins to abort.
    StartAbort(u64),
    /// An abort is finished.
    FinishAbort(u64),
    /// Commits that every reader sees are forgotten.
    Prune(Option<u64>),
    /// Records that nobody can need are dropped.
    Vacuum(Option<u64>),
    /// The deletion mark that a transaction left at a place is removed.
    Purge(Place, u64),
    /// A sequence's mark is logged.
    Mark(Op),
    Checkpoint,
    /// A table comes into being, and a checkpoint makes that durable.
    AddTable(TableIdType),
    /// A table goes, and a checkpoint makes that durable.
    DropTable(TableIdType),
    /// The power is cut right after the last record that became durable, and
    /// the database is opened again, with these rows in the data file. From
    /// here on tables get numbers at or above this one.
    Crash(u64, Map<Place, Row>),
}

/// The state of a database, which transactions have committed, everything that
/// was logged, and what can be in the data file.
pub struct State {
    pub core: Core,
    pub done: Set<u64>,
    pub log: Seq<Entry>,
    /// The rows that the last checkpoint left in the data file, or that were
    /// found there since.
    pub disk: Map<Place, Row>,
    /// What the data file can hold at each place. A page goes to the file at
    /// any time, so that is every row that was there since the last checkpoint.
    pub held: Set<(Place, Option<Row>)>,
    /// The number below which no record is needed.
    pub floor: u64,
}

/// The row at a place, if there is one.
pub open spec fn row_at(rows: Map<Place, Row>, p: Place) -> Option<Row> {
    if rows.dom().contains(p) {
        Some(rows[p])
    } else {
        None
    }
}

/// What recovery makes of a data file with these rows and the log.
pub open spec fn recovered(s: State, file: Map<Place, Row>) -> Map<Place, Row> {
    recovery::recovered(file, s.core.live, recovery::above(s.log, s.floor))
}

/// Can the data file hold these rows? Each place has one that it held since
/// the last checkpoint; so no row is in the file before its record is logged.
pub open spec fn in_file(s: State, file: Map<Place, Row>) -> bool {
    forall|p: Place| s.held.contains((p, #[trigger] row_at(file, p)))
}

/// These rows and nothing else.
pub open spec fn only(rows: Map<Place, Row>) -> Set<(Place, Option<Row>)> {
    Set::new(|h: (Place, Option<Row>)| h.1 == row_at(rows, h.0))
}

/// Do the records purge a deletion mark that `w` left at the place?
pub open spec fn purges(es: Seq<Entry>, p: Place, w: TransactionId) -> bool {
    exists|i: int|
        0 <= i < es.len() && (#[trigger] es[i]).op == (Op::Purge {
            txn: w,
            table_id: p.table,
            key: p.key,
        })
}

/// Is the row a deletion mark that came back? It was purged, and a power cut
/// before the next checkpoint brought it back, below a write that recovery took
/// back.
pub open spec fn came_back(r: Option<Row>, es: Seq<Entry>, p: Place) -> bool {
    r matches Some(row) && row.tombstone && (row.txn_id matches Some(w) && purges(es, p, w))
}

/// The rows that can go to the data file now: all but deletion marks that came
/// back.
pub open spec fn can_go(c: Core, log: Seq<Entry>, floor: u64) -> Set<(Place, Option<Row>)> {
    Set::new(
        |h: (Place, Option<Row>)|
            h.1 == row_at(c.rows, h.0) && !came_back(h.1, recovery::above(log, floor), h.0),
    )
}

/// Does the event end in a checkpoint?
pub open spec fn saves(ev: Event) -> bool {
    ev is Checkpoint || ev is AddTable || ev is DropTable
}

/// What an event leaves in the log.
pub open spec fn logged(ev: Event, lsn: LsnId) -> Option<Entry> {
    match ev {
        Event::Write(op, _) => Some(Entry { lsn, op }),
        Event::Commit(x) => Some(Entry { lsn, op: Op::Commit(TransactionId(x)) }),
        Event::FinishAbort(x) => Some(Entry { lsn, op: Op::Rollback(TransactionId(x)) }),
        Event::Purge(p, x) => Some(
            Entry {
                lsn,
                op: Op::Purge { txn: TransactionId(x), table_id: p.table, key: p.key },
            },
        ),
        Event::Mark(op) => Some(Entry { lsn, op }),
        _ => None,
    }
}

/// What an event does to the core.
pub open spec fn core_after(s: State, ev: Event) -> Core {
    let c = s.core;
    match ev {
        Event::Tick => c.tick(),
        Event::Begin(policy) => c.begun(policy),
        Event::Write(op, row) => c.wrote(op, row),
        Event::Commit(x) => c.did_commit(x),
        Event::StartAbort(x) => c.aborting_now(x),
        Event::FinishAbort(x) => c.aborted(x),
        Event::Prune(h) => c.pruned(h),
        Event::Vacuum(h) => c.vacuumed(h),
        Event::Purge(p, _) => c.tick().purged(p),
        Event::Mark(_) => c.tick(),
        Event::Checkpoint => c,
        Event::AddTable(id) => c.with_table(id),
        Event::DropTable(id) => c.without_table(id),
        Event::Crash(next_table, file) => Core {
            next_table,
            rows: recovered(s, file),
            txns: Txns::none(),
            records: seq![],
            pending: seq![],
            ..c
        },
    }
}

/// The state after an event.
pub open spec fn next(s: State, ev: Event) -> State {
    let c = core_after(s, ev);
    let log = match logged(ev, LsnId(s.core.counter as u64)) {
        Some(e) => s.log.push(e),
        None => s.log,
    };
    let floor = if saves(ev) {
        checkpoint::floor_of(c)
    } else {
        s.floor
    };
    State {
        core: c,
        done: if ev is Commit {
            s.done.insert(ev->Commit_0)
        } else {
            s.done
        },
        log,
        disk: if saves(ev) {
            c.rows
        } else {
            match ev {
                Event::Crash(_, file) => file,
                _ => s.disk,
            }
        },
        held: if saves(ev) {
            only(c.rows)
        } else {
            match ev {
                Event::Crash(_, file) => only(file).union(can_go(c, log, floor)),
                _ => s.held.union(can_go(c, log, floor)),
            }
        },
        floor,
    }
}

/// Can the event happen now?
pub open spec fn allowed(s: State, ev: Event) -> bool {
    let c = s.core;
    &&& c.counter < u64::MAX
    &&& match ev {
        Event::Tick => true,
        Event::Begin(_) => true,
        Event::Write(op, row) => steps::write_ok(c, op, row) && written_as(op, row, c.counter),
        Event::Commit(x) => c.txns.active.dom().contains(x),
        Event::StartAbort(x) => c.txns.active.dom().contains(x),
        Event::FinishAbort(x) => c.txns.aborting.contains(x),
        Event::Prune(h) => steps::horizon_ok(c.txns, h),
        Event::Vacuum(h) => steps::horizon_ok(c.txns, h),
        Event::Purge(p, x) => s.done.contains(x) && (c.rows.dom().contains(p)
            ==> c.rows[p].tombstone && c.rows[p].txn_id == Some(TransactionId(x)) && (forall|
            v: Viewer,
        | #[trigger]
            mvcc::may_look(c.txns, v) ==> mvcc::sees(c.txns, v, x))),
        Event::Mark(op) => op is Sequence,
        Event::Checkpoint => true,
        Event::AddTable(id) => c.next_table <= id.0 < u64::MAX,
        Event::DropTable(_) => true,
        Event::Crash(next_table, file) => c.next_table <= next_table && in_file(s, file),
    }
}

/// Is the new version what the operation says? A delete leaves the row it
/// found, marked.
pub open spec fn written_as(op: Op, row: Row, counter: nat) -> bool {
    match op {
        Op::Del { txn, pre } => row == (Row {
            txn_id: Some(txn),
            pre_lsn: Some(LsnId(counter as u64)),
            tombstone: true,
            ..pre.tuple
        }),
        Op::Mod { pre, post, .. } => post.tuple == row,
        _ => true,
    }
}

/// The state after a number of events.
pub open spec fn run(s: State, evs: Seq<Event>) -> State
    decreases evs.len(),
{
    if evs.len() == 0 {
        s
    } else {
        next(run(s, evs.drop_last()), evs.last())
    }
}

/// Can the events happen one after the other?
pub open spec fn possible(s: State, evs: Seq<Event>) -> bool
    decreases evs.len(),
{
    evs.len() == 0 || (possible(s, evs.drop_last()) && allowed(
        run(s, evs.drop_last()),
        evs.last(),
    ))
}

/// The state of a database that was just opened and saved: no transactions are
/// in flight, and all that were have committed or left nothing.
pub open spec fn fresh(s: State) -> bool {
    &&& s.core.wf()
    &&& s.core.txns == Txns::none()
    &&& s.core.records.len() == 0
    &&& s.core.pending.len() == 0
    &&& s.done == Set::new(|x: u64| x < s.core.counter)
    &&& s.log.len() == 0
    &&& s.disk == s.core.rows
    &&& s.held == only(s.core.rows)
    &&& s.floor == s.core.counter
}

// ---------------------------------------------------------------------------
// What holds after any events
// ---------------------------------------------------------------------------

/// The writes of a transaction among records.
pub open spec fn writes_of(es: Seq<Entry>, x: u64) -> Seq<Entry>
    decreases es.len(),
{
    if es.len() == 0 {
        seq![]
    } else if mvcc::data_op(es.last().op) && mvcc::op_txn(es.last().op) == x {
        writes_of(es.drop_last(), x).push(es.last())
    } else {
        writes_of(es.drop_last(), x)
    }
}

/// Is the transaction unfinished, or has it committed?
pub open spec fn known(s: State, x: u64) -> bool {
    s.core.txns.unfinished(x) || s.done.contains(x)
}

/// Is it known who wrote each row?
pub open spec fn rows_known(s: State) -> bool {
    forall|p: Place| #[trigger]
        s.core.rows.dom().contains(p) ==> known(s, (s.core.rows[p].txn_id->0).0)
}

/// Does each record replace a version of its own transaction, or one that has
/// committed?
pub open spec fn records_known(s: State) -> bool {
    forall|i: int|
        0 <= i < s.core.records.len() ==> {
            let e = #[trigger] s.core.records[i];
            &&& known(s, mvcc::op_txn(e.op))
            &&& !(e.op is Add) ==> ({
                let w = ((mvcc::pre_image(e.op)->0).txn_id->0).0;
                w == mvcc::op_txn(e.op) || s.done.contains(w)
            })
        }
}

/// Is every record that was logged older than the clock, and every write newer
/// than its transaction?
pub open spec fn log_known(s: State, first: nat) -> bool {
    &&& mvcc::ascending(s.log)
    &&& forall|i: int|
        0 <= i < s.log.len() ==> {
            let e = #[trigger] s.log[i];
            &&& e.lsn.0 < s.core.counter
            &&& mvcc::data_op(e.op) ==> first <= mvcc::op_txn(e.op) < e.lsn.0 && settled(s, i)
            &&& e.op matches Op::Commit(x) ==> s.done.contains(x.0)
        }
}

/// Is the transaction of a logged write unfinished, or did it not commit, or
/// is its commit logged behind the write?
pub open spec fn settled(s: State, i: int) -> bool {
    let x = mvcc::op_txn(s.log[i].op);
    ||| s.core.txns.unfinished(x)
    ||| !s.done.contains(x)
    ||| exists|j: int|
        i < j < s.log.len() && (#[trigger] s.log[j]).op == Op::Commit(TransactionId(x))
}

/// Are the transactions that have committed finished, and all those from
/// before the first event among them?
pub open spec fn done_known(s: State, first: nat) -> bool {
    &&& forall|x: u64| #[trigger] s.done.contains(x) ==> x < s.core.counter
        && !s.core.txns.unfinished(x)
    &&& forall|x: u64| x < first ==> #[trigger] s.done.contains(x)
}

/// Are all writes of unfinished transactions in the log?
pub open spec fn writes_known(s: State, first: nat) -> bool {
    forall|x: u64| #[trigger]
        s.core.txns.unfinished(x) ==> first <= x && mvcc::ops_of(s.core.records, x) == writes_of(
            s.log,
            x,
        )
}

/// What holds after any events.
pub open spec fn inv(s: State, first: nat) -> bool {
    &&& s.core.wf()
    &&& s.core.counter <= u64::MAX
    &&& first <= s.core.counter
    &&& s.floor <= s.core.counter
    &&& rows_known(s)
    &&& records_known(s)
    &&& log_known(s, first)
    &&& done_known(s, first)
    &&& writes_known(s, first)
    &&& in_file(s, s.disk)
}

/// It holds before any event.
pub proof fn inv_at_first(s: State)
    requires
        fresh(s),
        s.core.counter <= u64::MAX,
    ensures
        inv(s, s.core.counter),
{
}

/// Every event but a crash keeps the model's promises.
pub proof fn core_stays(s: State, ev: Event)
    requires
        s.core.wf(),
        allowed(s, ev),
        !(ev is Crash),
    ensures
        next(s, ev).core.wf(),
{
    let c = s.core;
    match ev {
        Event::Tick => steps::tick_keeps(c),
        Event::Begin(policy) => steps::begun_keeps(c, policy),
        Event::Write(op, row) => steps::wrote_keeps(c, op, row),
        Event::Commit(x) => steps::commit_keeps(c, x),
        Event::StartAbort(x) => steps::aborting_keeps(c, x),
        Event::FinishAbort(x) => steps::aborted_keeps(c, x),
        Event::Prune(h) => steps::pruned_keeps(c, h),
        Event::Vacuum(h) => steps::vacuumed_keeps(c, h),
        Event::Purge(p, x) => {
            steps::tick_keeps(c);
            if c.rows.dom().contains(p) {
                steps::purged_keeps(c.tick(), p);
            } else {
                assert(c.tick().purged(p).rows =~= c.tick().rows);
            }
        },
        Event::Mark(_) => steps::tick_keeps(c),
        Event::AddTable(id) => steps::with_table_keeps(c, id),
        Event::DropTable(id) => steps::without_table_keeps(c, id),
        _ => {},
    }
}

/// A transaction that is known stays known, unless its abort is finished.
proof fn known_stays(s: State, ev: Event, first: nat, x: u64)
    requires
        inv(s, first),
        allowed(s, ev),
        !(ev is Crash),
        known(s, x),
        ev != Event::FinishAbort(x),
    ensures
        known(next(s, ev), x),
{
}

/// It stays known who wrote each row.
proof fn rows_stay(s: State, ev: Event, first: nat)
    requires
        inv(s, first),
        allowed(s, ev),
        !(ev is Crash),
    ensures
        rows_known(next(s, ev)),
{
    let n = next(s, ev);
    let c = s.core;
    if ev is FinishAbort {
        let x = ev->FinishAbort_0;
        steps::aborted_keeps(c, x);
        let ops = mvcc::ops_of(c.records, x);
        assert forall|p: Place| #[trigger] n.core.rows.dom().contains(p) implies known(
            n,
            (n.core.rows[p].txn_id->0).0,
        ) by {
            steps::revert_all_rows(c.rows, c.live, ops, x, p);
            if n.core.rows[p] == c.rows[p] {
                assert(known(s, (c.rows[p].txn_id->0).0));
            } else {
                let i = choose|i: int|
                    0 <= i < ops.len() && mvcc::op_place((#[trigger] ops[i]).op) == p && !(
                    ops[i].op is Add) && mvcc::data_op(ops[i].op) && n.core.rows[p]
                        == mvcc::pre_image(ops[i].op)->0;
                mvcc::ops_of_members(c.records, x);
                assert(c.records.contains(ops[i]));
                let k = choose|k: int| 0 <= k < c.records.len() && c.records[k] == ops[i];
                assert(c.records[k] == ops[i]);
            }
        }
    } else {
        assert forall|p: Place| #[trigger] n.core.rows.dom().contains(p) implies known(
            n,
            (n.core.rows[p].txn_id->0).0,
        ) by {
            if c.rows.dom().contains(p) && n.core.rows[p] == c.rows[p] {
                known_stays(s, ev, first, (c.rows[p].txn_id->0).0);
            }
        }
    }
}

/// Each record goes on replacing a version of its own transaction, or one that
/// has committed.
proof fn records_stay(s: State, ev: Event, first: nat)
    requires
        inv(s, first),
        allowed(s, ev),
        !(ev is Crash),
    ensures
        records_known(next(s, ev)),
{
    let n = next(s, ev);
    let c = s.core;
    if ev is FinishAbort || ev is Vacuum {
        let gone = if ev is FinishAbort {
            set![ev->FinishAbort_0]
        } else {
            steps::released_txns(c.pending, ev->Vacuum_0)
        };
        mvcc::by_lsn_without(c.records, gone);
        assert(n.core.records == mvcc::without(c.records, gone));
        assert forall|i: int| 0 <= i < n.core.records.len() implies ({
            let e = #[trigger] n.core.records[i];
            &&& known(n, mvcc::op_txn(e.op))
            &&& !(e.op is Add) ==> ({
                let w = ((mvcc::pre_image(e.op)->0).txn_id->0).0;
                w == mvcc::op_txn(e.op) || n.done.contains(w)
            })
        }) by {
            let e = n.core.records[i];
            assert(c.records.contains(e) && !gone.contains(mvcc::op_txn(e.op)));
            let k = choose|k: int| 0 <= k < c.records.len() && c.records[k] == e;
            assert(c.records[k] == e);
            known_stays(s, ev, first, mvcc::op_txn(e.op));
        }
    } else {
        assert forall|i: int| 0 <= i < n.core.records.len() implies ({
            let e = #[trigger] n.core.records[i];
            &&& known(n, mvcc::op_txn(e.op))
            &&& !(e.op is Add) ==> ({
                let w = ((mvcc::pre_image(e.op)->0).txn_id->0).0;
                w == mvcc::op_txn(e.op) || n.done.contains(w)
            })
        }) by {
            if i < c.records.len() {
                assert(n.core.records[i] == c.records[i]);
                known_stays(s, ev, first, mvcc::op_txn(c.records[i].op));
            } else {
                let op = ev->Write_0;
                assert(n.core.records[i].op == op);
                let p = mvcc::op_place(op);
                if !(op is Add) {
                    assert(c.rows.dom().contains(p));
                    assert(known(s, (c.rows[p].txn_id->0).0));
                }
            }
        }
    }
}

/// The log goes on being older than the clock.
proof fn log_stays(s: State, ev: Event, first: nat)
    requires
        inv(s, first),
        allowed(s, ev),
        !(ev is Crash),
    ensures
        log_known(next(s, ev), first),
{
    let n = next(s, ev);
    let c = s.core;
    assert forall|i: int| 0 <= i < s.log.len() implies n.log[i] == s.log[i] by {}
    assert forall|i: int| 0 <= i < n.log.len() implies ({
        let e = #[trigger] n.log[i];
        &&& e.lsn.0 < n.core.counter
        &&& mvcc::data_op(e.op) ==> first <= mvcc::op_txn(e.op) < e.lsn.0 && settled(n, i)
        &&& e.op matches Op::Commit(x) ==> n.done.contains(x.0)
    }) by {
        if i < s.log.len() {
            let e = s.log[i];
            assert(n.log[i] == e);
            if mvcc::data_op(e.op) {
                let x = mvcc::op_txn(e.op);
                assert(settled(s, i));
                if !c.txns.unfinished(x) && s.done.contains(x) {
                    let j = choose|j: int|
                        i < j < s.log.len() && (#[trigger] s.log[j]).op == Op::Commit(
                            TransactionId(x),
                        );
                    assert(n.log[j].op == Op::Commit(TransactionId(x)));
                } else if ev == Event::Commit(x) {
                    assert(n.log[s.log.len() as int].op == Op::Commit(TransactionId(x)));
                } else if !c.txns.unfinished(x) {
                    // Only an active transaction can commit.
                    assert(!n.done.contains(x));
                }
            }
        } else {
            if ev is Write {
                let x = mvcc::op_txn(ev->Write_0);
                assert(c.txns.unfinished(x));
            }
        }
    }
}

/// What is known of the transactions that have committed stays so.
proof fn done_stays(s: State, ev: Event, first: nat)
    requires
        inv(s, first),
        allowed(s, ev),
        !(ev is Crash),
    ensures
        done_known(next(s, ev), first),
{
}

/// The writes of unfinished transactions stay in the log.
proof fn writes_stay(s: State, ev: Event, first: nat)
    requires
        inv(s, first),
        allowed(s, ev),
        !(ev is Crash),
    ensures
        writes_known(next(s, ev), first),
{
    let n = next(s, ev);
    let c = s.core;
    assert forall|x: u64| #[trigger] n.core.txns.unfinished(x) implies first <= x && mvcc::ops_of(
        n.core.records,
        x,
    ) == writes_of(n.log, x) by {
        if ev is Begin && x == c.counter {
            assert forall|i: int| 0 <= i < c.records.len() implies mvcc::op_txn(
                (#[trigger] c.records[i]).op,
            ) != x by {
                assert(mvcc::record_ok(c, c.records[i]));
            }
            mvcc::ops_of_none(c.records, x);
            no_writes(s, first, x);
        } else {
            assert(c.txns.unfinished(x));
            match logged(ev, LsnId(c.counter as u64)) {
                Some(e) => {
                    assert(n.log.drop_last() =~= s.log);
                    assert(n.log.last() == e);
                },
                None => {},
            }
            match ev {
                Event::Write(op, row) => {
                    mvcc::by_lsn_push(c.records, Entry { lsn: LsnId(c.counter as u64), op });
                },
                Event::FinishAbort(y) => {
                    mvcc::by_lsn_without(c.records, set![y]);
                },
                Event::Vacuum(h) => {
                    let gone = steps::released_txns(c.pending, h);
                    mvcc::by_lsn_without(c.records, gone);
                    if gone.contains(x) {
                        let i = choose|i: int|
                            0 <= i < c.pending.len() && (#[trigger] c.pending[i]).txn == x
                                && steps::released(h, c.pending[i].ts);
                        assert(c.txns.is_committed(c.pending[i].txn));
                    }
                },
                _ => {},
            }
        }
    }
}

/// A transaction that has not begun has written nothing.
proof fn no_writes(s: State, first: nat, x: u64)
    requires
        inv(s, first),
        x >= s.core.counter,
    ensures
        writes_of(s.log, x) == Seq::<Entry>::empty(),
{
    no_writes_in(s.log, x, s.core.counter);
}

/// Records whose transactions are all older hold no write of `x`.
proof fn no_writes_in(es: Seq<Entry>, x: u64, top: nat)
    requires
        x >= top,
        forall|i: int|
            0 <= i < es.len() ==> (#[trigger] es[i]).lsn.0 < top && (mvcc::data_op(es[i].op)
                ==> mvcc::op_txn(es[i].op) < es[i].lsn.0),
    ensures
        writes_of(es, x) == Seq::<Entry>::empty(),
    decreases es.len(),
{
    if es.len() > 0 {
        assert(es[es.len() - 1].lsn.0 < top);
        assert forall|i: int| 0 <= i < es.drop_last().len() implies (
        #[trigger] es.drop_last()[i]).lsn.0 < top && (mvcc::data_op(es.drop_last()[i].op)
            ==> mvcc::op_txn(es.drop_last()[i].op) < es.drop_last()[i].lsn.0) by {
            assert(es[i].lsn.0 < top);
        }
        no_writes_in(es.drop_last(), x, top);
    }
}

/// What holds after any events holds after one more that is no crash.
pub proof fn inv_stays(s: State, ev: Event, first: nat)
    requires
        inv(s, first),
        allowed(s, ev),
        !(ev is Crash),
    ensures
        inv(next(s, ev), first),
{
    core_stays(s, ev);
    rows_stay(s, ev, first);
    records_stay(s, ev, first);
    log_stays(s, ev, first);
    done_stays(s, ev, first);
    writes_stay(s, ev, first);
}

/// What holds after any events holds after a crash, if recovery leaves sound
/// rows of transactions that have committed.
pub proof fn inv_after_crash(s: State, first: nat, next_table: u64, file: Map<Place, Row>)
    requires
        inv(s, first),
        s.core.next_table <= next_table,
        forall|p: Place| #[trigger]
            recovered(s, file).dom().contains(p) ==> sound_row(s, p, recovered(s, file)[p]),
    ensures
        inv(next(s, Event::Crash(next_table, file)), first),
{
    let n = next(s, Event::Crash(next_table, file));
    steps::quiet_is_wf(n.core);
    assert forall|i: int| 0 <= i < n.log.len() implies ({
        let e = #[trigger] n.log[i];
        &&& e.lsn.0 < n.core.counter
        &&& mvcc::data_op(e.op) ==> first <= mvcc::op_txn(e.op) < e.lsn.0 && settled(n, i)
        &&& e.op matches Op::Commit(x) ==> n.done.contains(x.0)
    }) by {
        let e = s.log[i];
        assert(n.log[i] == e);
        if mvcc::data_op(e.op) {
            assert(settled(s, i));
            let x = mvcc::op_txn(e.op);
            if s.done.contains(x) && !s.core.txns.unfinished(x) {
                let j = choose|j: int|
                    i < j < s.log.len() && (#[trigger] s.log[j]).op == Op::Commit(
                        TransactionId(x),
                    );
                assert(n.log[j].op == Op::Commit(TransactionId(x)));
            }
        }
    }
}

/// Is the row one that can be at the place, by a transaction that has
/// committed?
pub open spec fn sound_row(s: State, p: Place, row: Row) -> bool {
    &&& s.core.live.contains(p.table)
    &&& row.id == p.key
    &&& row.txn_id matches Some(w) && w.0 < s.core.counter && s.done.contains(w.0)
    &&& row.pre_lsn matches Some(l) ==> l.0 < s.core.counter
}

// ---------------------------------------------------------------------------
// A reader's snapshot
// ---------------------------------------------------------------------------

/// Does the event leave the place, as the reader `r` sees it, alone? The reader
/// does not write there and does not end, its table is not dropped, and it is
/// no crash.
pub open spec fn leaves_alone(ev: Event, r: u64, p: Place) -> bool {
    match ev {
        Event::Write(op, _) => mvcc::op_txn(op) != r || mvcc::op_place(op) != p,
        Event::Commit(x) => x != r,
        Event::StartAbort(x) => x != r,
        Event::DropTable(id) => id != p.table,
        Event::Crash(..) => false,
        _ => true,
    }
}

/// A reader reads after such an event what it read before.
proof fn reader_is_undisturbed(s: State, ev: Event, r: u64, p: Place)
    requires
        s.core.wf(),
        allowed(s, ev),
        s.core.txns.active.dom().contains(r),
        leaves_alone(ev, r, p),
    ensures
        next(s, ev).core.txns.active.dom().contains(r),
        next(s, ev).core.read(Viewer::Reader(r), p) == s.core.read(Viewer::Reader(r), p),
{
    let c = s.core;
    let v = Viewer::Reader(r);
    match ev {
        Event::Tick => steps::tick_keeps(c),
        Event::Begin(policy) => steps::begun_keeps(c, policy),
        Event::Write(op, row) => steps::wrote_keeps(c, op, row),
        Event::Commit(x) => steps::commit_keeps(c, x),
        Event::StartAbort(x) => steps::aborting_keeps(c, x),
        Event::FinishAbort(x) => steps::aborted_keeps(c, x),
        Event::Prune(h) => steps::pruned_keeps(c, h),
        Event::Vacuum(h) => steps::vacuumed_keeps(c, h),
        Event::Purge(q, x) => {
            steps::tick_keeps(c);
            assert(c.tick().look(v, p) == c.look(v, p));
            if c.rows.dom().contains(q) {
                steps::purged_keeps(c.tick(), q);
                assert(c.tick().purged(q).read(v, p) == c.tick().read(v, p));
            } else {
                assert(c.tick().purged(q).rows =~= c.tick().rows);
            }
        },
        Event::Mark(_) => steps::tick_keeps(c),
        Event::AddTable(id) => steps::with_table_keeps(c, id),
        Event::DropTable(id) => steps::without_table_keeps(c, id),
        _ => {},
    }
    assert(next(s, ev).core.look(v, p) == c.look(v, p) || ev is Purge);
}

/// A reader keeps its snapshot: whatever others do meanwhile, commits and
/// vacuums and purges among it, and whatever it writes elsewhere itself, it
/// reads at a place what it read there before.
pub proof fn snapshot_outlasts_others(s: State, evs: Seq<Event>, r: u64, p: Place)
    requires
        s.core.wf(),
        possible(s, evs),
        s.core.txns.active.dom().contains(r),
        forall|i: int| 0 <= i < evs.len() ==> leaves_alone(#[trigger] evs[i], r, p),
    ensures
        run(s, evs).core.wf(),
        run(s, evs).core.txns.active.dom().contains(r),
        run(s, evs).core.read(Viewer::Reader(r), p) == s.core.read(Viewer::Reader(r), p),
    decreases evs.len(),
{
    if evs.len() > 0 {
        let front = evs.drop_last();
        assert forall|i: int| 0 <= i < front.len() implies leaves_alone(
            #[trigger] front[i],
            r,
            p,
        ) by {
            assert(front[i] == evs[i]);
        }
        snapshot_outlasts_others(s, front, r, p);
        assert(leaves_alone(evs[evs.len() - 1], r, p));
        reader_is_undisturbed(run(s, front), evs.last(), r, p);
        core_stays(run(s, front), evs.last());
    }
}

} // verus!

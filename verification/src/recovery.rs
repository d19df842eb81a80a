//! Crash recovery: what the log makes of the rows that the data file holds.
use std::collections::HashSet;

use vstd::prelude::*;

use crate::clock;
use crate::clock::LsnId;
use crate::engine::Engine;
use crate::generator;
use crate::generator::Generator;
use crate::mvcc;
use crate::mvcc::{Core, Place, Txns};
use crate::operation;
use crate::operation::{Entry, LogRecord, Op, Operation};
use crate::steps;
use crate::table::TableIdType;
use crate::tuple::{Row, Tuple};
use crate::txn::TransactionId;

verus! {

/// The transactions that the log says committed.
pub open spec fn committed_in(es: Seq<Entry>) -> Set<u64> {
    Set::new(|x: u64| exists|i: int| 0 <= i < es.len() && (#[trigger] es[i]).op == Op::Commit(
        TransactionId(x),
    ))
}

/// A row as a redone delete leaves it: a deletion mark in its place.
pub open spec fn marked(pre: Row, txn: TransactionId, lsn: LsnId) -> Row {
    Row { txn_id: Some(txn), pre_lsn: Some(lsn), tombstone: true, ..pre }
}

/// The rows after one record is redone. Only what committed transactions
/// wrote is redone, and a purge, which is only ever logged for a delete that
/// committed; nothing is done in a table that was dropped.
pub open spec fn redo_one(
    rows: Map<Place, Row>,
    live: Set<TableIdType>,
    committed: Set<u64>,
    e: Entry,
) -> Map<Place, Row> {
    match e.op {
        Op::Add { txn, post } => {
            let p = Place { table: post.table_id, key: post.tuple.id };
            if committed.contains(txn.0) && live.contains(p.table) {
                rows.insert(p, post.tuple)
            } else {
                rows
            }
        },
        Op::Mod { txn, pre, post } => {
            let p = Place { table: post.table_id, key: post.tuple.id };
            if committed.contains(txn.0) && live.contains(p.table) && rows.dom().contains(p) {
                rows.insert(p, post.tuple)
            } else {
                rows
            }
        },
        Op::Del { txn, pre } => {
            let p = Place { table: pre.table_id, key: pre.tuple.id };
            if committed.contains(txn.0) && live.contains(p.table) && rows.dom().contains(p) {
                rows.insert(p, marked(pre.tuple, txn, e.lsn))
            } else {
                rows
            }
        },
        Op::Purge { txn, table_id, key } => {
            let p = Place { table: table_id, key };
            if live.contains(table_id) && rows.dom().contains(p) && rows[p].tombstone
                && rows[p].txn_id == Some(txn) {
                rows.remove(p)
            } else {
                rows
            }
        },
        _ => rows,
    }
}

/// The rows after the records are redone, in the log's order.
pub open spec fn redo(
    rows: Map<Place, Row>,
    live: Set<TableIdType>,
    committed: Set<u64>,
    es: Seq<Entry>,
) -> Map<Place, Row>
    decreases es.len(),
{
    if es.len() == 0 {
        rows
    } else {
        redo_one(redo(rows, live, committed, es.drop_last()), live, committed, es.last())
    }
}

/// The rows after one record is undone, if its transaction never committed.
pub open spec fn undo_one(
    rows: Map<Place, Row>,
    live: Set<TableIdType>,
    committed: Set<u64>,
    e: Entry,
) -> Map<Place, Row> {
    if mvcc::data_op(e.op) && !committed.contains(mvcc::op_txn(e.op)) {
        mvcc::revert_one(rows, live, e.op, mvcc::op_txn(e.op))
    } else {
        rows
    }
}

/// The rows after the records are undone, the newest first.
pub open spec fn undo(
    rows: Map<Place, Row>,
    live: Set<TableIdType>,
    committed: Set<u64>,
    es: Seq<Entry>,
) -> Map<Place, Row>
    decreases es.len(),
{
    if es.len() == 0 {
        rows
    } else {
        undo(undo_one(rows, live, committed, es.last()), live, committed, es.drop_last())
    }
}

/// The records at or above the floor, in order.
pub open spec fn above(es: Seq<Entry>, floor: u64) -> Seq<Entry>
    decreases es.len(),
{
    if es.len() == 0 {
        es
    } else if es.last().lsn.0 >= floor {
        above(es.drop_last(), floor).push(es.last())
    } else {
        above(es.drop_last(), floor)
    }
}

/// One more record is replayed if it is at or above the floor.
pub proof fn above_push(es: Seq<Entry>, e: Entry, floor: u64)
    ensures
        above(es.push(e), floor) == if e.lsn.0 >= floor {
            above(es, floor).push(e)
        } else {
            above(es, floor)
        },
{
    assert(es.push(e).drop_last() =~= es);
}

/// Of records below the floor, none is replayed.
pub proof fn none_above(es: Seq<Entry>, floor: u64)
    requires
        forall|i: int| 0 <= i < es.len() ==> (#[trigger] es[i]).lsn.0 < floor,
    ensures
        above(es, floor).len() == 0,
    decreases es.len(),
{
    if es.len() > 0 {
        assert(es[es.len() - 1].lsn.0 < floor);
        assert forall|i: int| 0 <= i < es.drop_last().len() implies (
        #[trigger] es.drop_last()[i]).lsn.0 < floor by {
            assert(es[i].lsn.0 < floor);
        }
        none_above(es.drop_last(), floor);
    }
}

/// The records of two logs at or above the floor, one behind the other.
pub proof fn above_join(a: Seq<Entry>, b: Seq<Entry>, floor: u64)
    ensures
        above(a + b, floor) == above(a, floor) + above(b, floor),
    decreases b.len(),
{
    if b.len() == 0 {
        assert(a + b =~= a);
    } else {
        above_join(a, b.drop_last(), floor);
        assert((a + b).drop_last() =~= a + b.drop_last());
    }
}

/// What recovery makes of the rows: what committed is redone in the log's
/// order, and then what did not is undone in reverse.
pub open spec fn recovered(
    rows: Map<Place, Row>,
    live: Set<TableIdType>,
    es: Seq<Entry>,
) -> Map<Place, Row> {
    undo(redo(rows, live, committed_in(es), es), live, committed_in(es), es)
}

/// The larger of two numbers.
pub open spec fn most(a: nat, b: nat) -> nat {
    if a < b {
        b
    } else {
        a
    }
}

/// The largest number in a version.
pub open spec fn row_top(row: Row) -> nat {
    most(
        match row.txn_id {
            Some(w) => w.0 as nat,
            None => 0,
        },
        match row.pre_lsn {
            Some(l) => l.0 as nat,
            None => 0,
        },
    )
}

/// The larger of a record's own number and its transaction's, which come from
/// one clock.
pub open spec fn entry_top(e: Entry) -> nat {
    most(e.lsn.0 as nat, mvcc::op_txn(e.op) as nat)
}

/// The largest number in a log, if there is a record.
pub open spec fn log_top(es: Seq<Entry>) -> Option<nat>
    decreases es.len(),
{
    if es.len() == 0 {
        None
    } else {
        match log_top(es.drop_last()) {
            None => Some(entry_top(es.last())),
            Some(m) => Some(most(m, entry_top(es.last()))),
        }
    }
}

/// Where the clock stands after the records are replayed: past all of their
/// numbers.
pub open spec fn clock_after(counter: nat, es: Seq<Entry>) -> nat {
    match log_top(es) {
        Some(m) => most(counter, m + 1),
        None => counter,
    }
}

/// Does a version say who wrote it, its numbers being below `top`?
pub open spec fn version_ok(row: Row, top: nat) -> bool {
    row.txn_id is Some && row_top(row) < top
}

/// Are all versions in the record of that kind?
pub open spec fn versions_ok(e: Entry, top: nat) -> bool {
    match e.op {
        Op::Add { post, .. } => version_ok(post.tuple, top),
        Op::Mod { pre, post, .. } => version_ok(pre.tuple, top) && version_ok(post.tuple, top),
        Op::Del { pre, .. } => version_ok(pre.tuple, top),
        _ => true,
    }
}

/// The operations of records, in order.
pub open spec fn entry_ops(es: Seq<Entry>) -> Seq<Op> {
    es.map_values(|e: Entry| e.op)
}

// ---------------------------------------------------------------------------
// The passes
// ---------------------------------------------------------------------------

/// The larger of two numbers.
fn max2(a: u64, b: u64) -> (m: u64)
    ensures
        m == most(a as nat, b as nat),
{
    if a < b {
        b
    } else {
        a
    }
}

/// The larger of a record's own number and its transaction's.
fn record_top(r: &LogRecord) -> (m: u64)
    ensures
        m == entry_top(r@),
{
    let inner: u64 = match &r.operation {
        Operation::Add { txn, .. } => txn.0,
        Operation::Mod { txn, .. } => txn.0,
        Operation::Del { txn, .. } => txn.0,
        Operation::Commit(txn) => txn.0,
        Operation::Rollback(txn) => txn.0,
        Operation::Purge { txn, .. } => txn.0,
        Operation::Sequence { .. } => 0,
    };
    max2(r.lsn.0, inner)
}

/// Do the numbers of all records leave room for more?
pub fn leave_room(records: &Vec<LogRecord>) -> (r: bool)
    ensures
        r == forall|i: int|
            0 <= i < records@.len() ==> entry_top(#[trigger] operation::entries(records@)[i])
                < u64::MAX,
{
    let ghost es = operation::entries(records@);
    for i in 0..records.len()
        invariant
            es == operation::entries(records@),
            forall|j: int| 0 <= j < i ==> entry_top(#[trigger] es[j]) < u64::MAX,
    {
        assert(es[i as int] == records@[i as int]@);
        if record_top(&records[i]) == u64::MAX {
            assert(entry_top(es[i as int]) == u64::MAX);
            return false;
        }
    }
    true
}

/// Does a version say who wrote it, its numbers being below `top`?
pub fn is_version_ok(t: &Tuple, top: u64) -> (ok: bool)
    ensures
        ok == version_ok(t@, top as nat),
{
    let writer: bool = match t.txn_id {
        Some(w) => w.0 < top,
        None => false,
    };
    let link: bool = match t.pre_lsn {
        Some(l) => l.0 < top,
        None => true,
    };
    writer && link
}

/// Analysis: which transactions committed, the largest number of all, and the
/// sequences' marks, which are not transactional and applied right here.
fn analyse(records: &Vec<LogRecord>, generator: &mut Generator) -> (r: (HashSet<u64>, Option<u64>))
    requires
        old(generator).wf(),
    ensures
        r.0@ == committed_in(operation::entries(records@)),
        match r.1 {
            Some(m) => log_top(operation::entries(records@)) == Some(m as nat),
            None => log_top(operation::entries(records@)) is None,
        },
        final(generator).wf(),
        final(generator)@ == generator::replay_marks(
            old(generator)@,
            entry_ops(operation::entries(records@)),
        ),
        final(generator).attached == old(generator).attached,
        final(generator).outbox == old(generator).outbox,
{
    broadcast use vstd::std_specs::hash::group_hash_axioms;

    let ghost es = operation::entries(records@);
    let ghost ops = entry_ops(es);
    let mut committed: HashSet<u64> = HashSet::new();
    let mut top: Option<u64> = None;
    proof {
        assert(committed@ =~= committed_in(es.take(0)));
        assert(generator::replay_marks(generator@, ops.take(0)) == generator@);
    }
    for i in 0..records.len()
        invariant
            es == operation::entries(records@),
            ops == entry_ops(es),
            committed@ == committed_in(es.take(i as int)),
            match top {
                Some(m) => log_top(es.take(i as int)) == Some(m as nat),
                None => log_top(es.take(i as int)) is None,
            },
            generator.wf(),
            generator@ == generator::replay_marks(old(generator)@, ops.take(i as int)),
            generator.attached == old(generator).attached,
            generator.outbox == old(generator).outbox,
    {
        let record = &records[i];
        let ghost e = es[i as int];
        assert(e == record@);
        proof {
            assert(es.take(i + 1).drop_last() =~= es.take(i as int));
            assert(es.take(i + 1).last() == e);
            assert(ops.take(i + 1).drop_last() =~= ops.take(i as int));
            assert(ops.take(i + 1).last() == e.op);
        }
        let here: u64 = record_top(record);
        top =
        match top {
            Some(m) => Some(max2(m, here)),
            None => Some(here),
        };
        let ghost before = committed@;
        match &record.operation {
            Operation::Commit(t) => {
                committed.insert(t.0);
                proof {
                    committed_push(es, i as int);
                    assert(committed@ =~= before.insert(t.0));
                }
            },
            Operation::Sequence { name, high_water, dropped } => {
                if *dropped {
                    generator.remove_unlogged(name.as_str());
                } else {
                    generator.ensure_at_least(name.as_str(), *high_water);
                }
                proof {
                    committed_push(es, i as int);
                }
            },
            _ => {
                proof {
                    committed_push(es, i as int);
                }
            },
        }
    }
    proof {
        assert(es.take(es.len() as int) =~= es);
        assert(ops.take(ops.len() as int) =~= ops);
    }
    (committed, top)
}

/// One more record says at most one more transaction committed.
proof fn committed_push(es: Seq<Entry>, i: int)
    requires
        0 <= i < es.len(),
    ensures
        committed_in(es.take(i + 1)) == match es[i].op {
            Op::Commit(t) => committed_in(es.take(i)).insert(t.0),
            _ => committed_in(es.take(i)),
        },
{
    let a = es.take(i);
    let b = es.take(i + 1);
    let want = match es[i].op {
        Op::Commit(t) => committed_in(a).insert(t.0),
        _ => committed_in(a),
    };
    assert forall|x: u64| committed_in(b).contains(x) <==> want.contains(x) by {
        if committed_in(b).contains(x) {
            let k = choose|k: int|
                0 <= k < b.len() && (#[trigger] b[k]).op == Op::Commit(TransactionId(x));
            if k < i {
                assert(a[k].op == Op::Commit(TransactionId(x)));
            }
        }
        if committed_in(a).contains(x) {
            let k = choose|k: int|
                0 <= k < a.len() && (#[trigger] a[k]).op == Op::Commit(TransactionId(x));
            assert(b[k].op == Op::Commit(TransactionId(x)));
        }
        assert(b[i].op == es[i].op);
    }
    assert(committed_in(b) =~= want);
}

/// Puts a version in its row's place, if the row is there.
fn put_if_present(engine: &mut Engine, table: TableIdType, t: Tuple)
    requires
        old(engine).rows.wf(),
    ensures
        final(engine).rows.wf(),
        final(engine).rows@ == ({
            let p = Place { table, key: t@.id };
            if old(engine)@.live.contains(table) && old(engine).rows@.dom().contains(p) {
                old(engine).rows@.insert(p, t@)
            } else {
                old(engine).rows@
            }
        }),
        *final(engine) == (Engine { rows: final(engine).rows, ..*old(engine) }),
{
    if engine.has_table(table) {
        let present: bool = engine.rows.get(table, &t.id).is_some();
        if present {
            engine.rows.put(table, t);
        }
    }
}

/// Redoes one record.
fn redo_record(engine: &mut Engine, committed: &HashSet<u64>, record: &LogRecord)
    requires
        old(engine).rows.wf(),
    ensures
        final(engine).rows.wf(),
        final(engine).rows@ == redo_one(
            old(engine).rows@,
            old(engine)@.live,
            committed@,
            record@,
        ),
        *final(engine) == (Engine { rows: final(engine).rows, ..*old(engine) }),
{
    broadcast use vstd::std_specs::hash::group_hash_axioms;

    match &record.operation {
        Operation::Add { txn, post } => {
            if committed.contains(&txn.0) && engine.has_table(post.table_id) {
                engine.rows.put(post.table_id, post.tuple.clone());
            }
        },
        Operation::Mod { txn, pre: _, post } => {
            if committed.contains(&txn.0) {
                put_if_present(engine, post.table_id, post.tuple.clone());
            }
        },
        Operation::Del { txn, pre } => {
            if committed.contains(&txn.0) {
                let mut t = pre.tuple.clone();
                t.set_txn_id(*txn);
                t.set_pre_lsn(record.lsn);
                t.set_tombstone();
                put_if_present(engine, pre.table_id, t);
            }
        },
        Operation::Purge { txn, table_id, key } => {
            if engine.has_table(*table_id) {
                let go: bool = match engine.rows.get(*table_id, key) {
                    Some(cur) => cur.is_tombstoned() && match cur.txn_id {
                        Some(w) => w.0 == txn.0,
                        None => false,
                    },
                    None => false,
                };
                if go {
                    engine.rows.remove(*table_id, key);
                }
            }
        },
        _ => {},
    }
}

/// Undoes one record, if its transaction never committed.
fn undo_record(engine: &mut Engine, committed: &HashSet<u64>, record: &LogRecord)
    requires
        old(engine).rows.wf(),
    ensures
        final(engine).rows.wf(),
        final(engine).rows@ == undo_one(
            old(engine).rows@,
            old(engine)@.live,
            committed@,
            record@,
        ),
        *final(engine) == (Engine { rows: final(engine).rows, ..*old(engine) }),
{
    broadcast use vstd::std_specs::hash::group_hash_axioms;

    let txn: Option<TransactionId> = match &record.operation {
        Operation::Add { txn, .. } => Some(*txn),
        Operation::Mod { txn, .. } => Some(*txn),
        Operation::Del { txn, .. } => Some(*txn),
        _ => None,
    };
    match txn {
        Some(id) => {
            if !committed.contains(&id.0) {
                engine.revert_one(&record.operation, &id);
            }
        },
        None => {},
    }
}

/// Are there rows and tables, but no transactions?
pub open spec fn quiet(engine: Engine) -> bool {
    &&& engine.wf()
    &&& engine@.txns == Txns::none()
    &&& engine@.records.len() == 0
    &&& engine@.pending.len() == 0
}

/// Is the engine as it stands when a data file was just loaded? There are no
/// transactions, and the numbers in the rows are below `top`. The clock may be
/// behind them: what a page took to the file since the header was written is
/// newer than the header.
pub open spec fn loaded(engine: Engine, top: nat) -> bool {
    &&& engine.rows.wf()
    &&& engine.txns.wf()
    &&& engine.versions.wf()
    &&& engine@.txns == Txns::none()
    &&& engine@.records.len() == 0
    &&& engine@.pending.len() == 0
    &&& forall|x: TableIdType| #[trigger] engine@.live.contains(x) ==> x.0 < engine@.next_table
    &&& forall|p: Place| #[trigger]
        engine@.rows.dom().contains(p) ==> usable(p, engine@.rows[p], engine@.live, top)
}

/// Replays the log over the rows of the data file: analysis, redo, undo. The
/// rows may already be what any of the records made of them. After it, no
/// number that the log mentions is handed out again, and everything handed out
/// so far counts as durable. Returns how many records there were.
pub fn process_log(engine: &mut Engine, generator: &mut Generator, records: &Vec<LogRecord>) -> (n:
    usize)
    requires
        old(engine).rows.wf(),
        old(generator).wf(),
        forall|i: int|
            0 <= i < records@.len() ==> entry_top(#[trigger] operation::entries(records@)[i])
                < u64::MAX,
    ensures
        n == records@.len(),
        *final(engine) == (Engine {
            rows: final(engine).rows,
            clock: final(engine).clock,
            ..*old(engine)
        }),
        final(engine).rows.wf(),
        final(engine)@ == (Core {
            rows: recovered(
                old(engine)@.rows,
                old(engine)@.live,
                operation::entries(records@),
            ),
            counter: clock_after(old(engine)@.counter, operation::entries(records@)),
            ..old(engine)@
        }),
        final(engine).clock.last_written == clock::larger(
            old(engine).clock.last_written,
            if final(engine).clock.counter == 0 {
                0
            } else {
                (final(engine).clock.counter - 1) as u64
            },
        ),
        ({
            let es = operation::entries(records@);
            let top = clock_after(old(engine)@.counter, es);
            loaded(*old(engine), top) && (forall|i: int|
                0 <= i < es.len() ==> versions_ok(#[trigger] es[i], top)) ==> quiet(*final(engine))
        }),
        final(generator).wf(),
        final(generator)@ == generator::replay_marks(
            old(generator)@,
            entry_ops(operation::entries(records@)),
        ),
        final(generator).attached == old(generator).attached,
        final(generator).outbox == old(generator).outbox,
{
    let ghost es = operation::entries(records@);
    let ghost live = engine@.live;
    let ghost done = committed_in(es);
    let (committed, top) = analyse(records, generator);
    assert(redo(engine.rows@, live, done, es.take(0)) == engine.rows@);
    for i in 0..records.len()
        invariant
            es == operation::entries(records@),
            done == committed@,
            live == old(engine)@.live,
            engine.rows.wf(),
            engine.rows@ == redo(old(engine).rows@, live, done, es.take(i as int)),
            *engine == (Engine { rows: engine.rows, ..*old(engine) }),
    {
        assert(es.take(i + 1).drop_last() =~= es.take(i as int));
        assert(es.take(i + 1).last() == es[i as int]);
        redo_record(engine, &committed, &records[i]);
    }
    assert(es.take(es.len() as int) =~= es);
    let ghost redone = engine.rows@;
    let mut i: usize = records.len();
    while i > 0
        invariant
            i <= records@.len(),
            es == operation::entries(records@),
            done == committed@,
            live == old(engine)@.live,
            engine.rows.wf(),
            undo(redone, live, done, es) == undo(engine.rows@, live, done, es.take(i as int)),
            *engine == (Engine { rows: engine.rows, ..*old(engine) }),
        decreases i,
    {
        i = i - 1;
        assert(es.take(i + 1).drop_last() =~= es.take(i as int));
        assert(es.take(i + 1).last() == es[i as int]);
        undo_record(engine, &committed, &records[i]);
    }
    assert(es.take(0) =~= seq![]);
    proof {
        log_top_bound(es);
    }
    match top {
        Some(m) => {
            engine.clock.advance_counter_past(LsnId(m));
        },
        None => {},
    }
    let next: u64 = engine.clock.next_value();
    engine.clock.mark_written(LsnId(next.saturating_sub(1)));
    proof {
        let end = engine@.counter;
        if loaded(*old(engine), end) && forall|i: int|
            0 <= i < es.len() ==> versions_ok(#[trigger] es[i], end) {
            recovered_rows_ok(old(engine)@.rows, live, es, end);
            usable_is_wf(engine@);
        }
    }
    records.len()
}

/// No number in a record is above the log's largest.
pub proof fn log_top_bound(es: Seq<Entry>)
    requires
        forall|i: int| 0 <= i < es.len() ==> entry_top(#[trigger] es[i]) < u64::MAX,
    ensures
        log_top(es) matches Some(m) ==> m < u64::MAX && forall|i: int|
            0 <= i < es.len() ==> entry_top(#[trigger] es[i]) <= m,
        log_top(es) is None <==> es.len() == 0,
    decreases es.len(),
{
    if es.len() > 0 {
        let front = es.drop_last();
        assert forall|i: int| 0 <= i < front.len() implies entry_top(#[trigger] front[i])
            < u64::MAX by {
            assert(front[i] == es[i]);
        }
        log_top_bound(front);
        assert forall|i: int| 0 <= i < es.len() implies entry_top(#[trigger] es[i]) <= (log_top(
            es,
        )->0) by {
            if i < front.len() {
                assert(front[i] == es[i]);
            }
        }
        assert(entry_top(es[es.len() - 1]) < u64::MAX);
    }
}

/// Is the row one that the engine can work with, numbers up to `top`?
pub open spec fn usable(p: Place, row: Row, live: Set<TableIdType>, top: nat) -> bool {
    live.contains(p.table) && row.id == p.key && version_ok(row, top)
}

/// An engine without transactions whose rows can all be worked with is in order.
pub proof fn usable_is_wf(c: Core)
    requires
        c.txns == Txns::none(),
        c.records.len() == 0,
        c.pending.len() == 0,
        forall|x: TableIdType| #[trigger] c.live.contains(x) ==> x.0 < c.next_table,
        forall|p: Place| #[trigger]
            c.rows.dom().contains(p) ==> usable(p, c.rows[p], c.live, c.counter),
    ensures
        c.wf(),
{
    assert forall|p: Place| #[trigger] c.rows.dom().contains(p) implies c.live.contains(p.table)
        && c.rows[p].id == p.key && (c.rows[p].txn_id matches Some(w) && w.0 < c.counter) && (
    c.rows[p].pre_lsn matches Some(l) ==> l.0 < c.counter) by {
        assert(usable(p, c.rows[p], c.live, c.counter));
    }
    steps::quiet_is_wf(c);
}

/// Whatever recovery leaves as a row can be worked with, if the rows and the
/// versions in the records could.
pub proof fn recovered_rows_ok(
    rows: Map<Place, Row>,
    live: Set<TableIdType>,
    es: Seq<Entry>,
    top: nat,
)
    requires
        forall|p: Place| #[trigger] rows.dom().contains(p) ==> usable(p, rows[p], live, top),
        forall|i: int|
            0 <= i < es.len() ==> versions_ok(#[trigger] es[i], top) && entry_top(es[i]) < top,
    ensures
        forall|p: Place| #[trigger]
            recovered(rows, live, es).dom().contains(p) ==> usable(
                p,
                recovered(rows, live, es)[p],
                live,
                top,
            ),
{
    let done = committed_in(es);
    redo_usable(rows, live, done, es, top);
    undo_usable(redo(rows, live, done, es), live, done, es, top);
}

/// Redo leaves usable rows.
proof fn redo_usable(
    rows: Map<Place, Row>,
    live: Set<TableIdType>,
    done: Set<u64>,
    es: Seq<Entry>,
    top: nat,
)
    requires
        forall|p: Place| #[trigger] rows.dom().contains(p) ==> usable(p, rows[p], live, top),
        forall|i: int|
            0 <= i < es.len() ==> versions_ok(#[trigger] es[i], top) && entry_top(es[i]) < top,
    ensures
        forall|p: Place| #[trigger]
            redo(rows, live, done, es).dom().contains(p) ==> usable(
                p,
                redo(rows, live, done, es)[p],
                live,
                top,
            ),
    decreases es.len(),
{
    if es.len() > 0 {
        let front = es.drop_last();
        assert forall|i: int| 0 <= i < front.len() implies versions_ok(#[trigger] front[i], top)
            && entry_top(front[i]) < top by {
            assert(front[i] == es[i]);
        }
        redo_usable(rows, live, done, front, top);
        let before = redo(rows, live, done, front);
        let e = es[es.len() - 1];
        assert(versions_ok(e, top));
        assert forall|p: Place| #[trigger]
            redo(rows, live, done, es).dom().contains(p) implies usable(
            p,
            redo(rows, live, done, es)[p],
            live,
            top,
        ) by {
            if before.dom().contains(p) {
                assert(usable(p, before[p], live, top));
            }
        }
    }
}

/// Undo leaves usable rows.
proof fn undo_usable(
    rows: Map<Place, Row>,
    live: Set<TableIdType>,
    done: Set<u64>,
    es: Seq<Entry>,
    top: nat,
)
    requires
        forall|p: Place| #[trigger] rows.dom().contains(p) ==> usable(p, rows[p], live, top),
        forall|i: int|
            0 <= i < es.len() ==> versions_ok(#[trigger] es[i], top) && entry_top(es[i]) < top,
    ensures
        forall|p: Place| #[trigger]
            undo(rows, live, done, es).dom().contains(p) ==> usable(
                p,
                undo(rows, live, done, es)[p],
                live,
                top,
            ),
    decreases es.len(),
{
    if es.len() > 0 {
        let front = es.drop_last();
        assert forall|i: int| 0 <= i < front.len() implies versions_ok(#[trigger] front[i], top)
            && entry_top(front[i]) < top by {
            assert(front[i] == es[i]);
        }
        let e = es[es.len() - 1];
        assert(versions_ok(e, top));
        let after = undo_one(rows, live, done, e);
        assert forall|p: Place| #[trigger] after.dom().contains(p) implies usable(
            p,
            after[p],
            live,
            top,
        ) by {
            if rows.dom().contains(p) {
                assert(usable(p, rows[p], live, top));
            }
        }
        undo_usable(after, live, done, front, top);
        assert(undo(rows, live, done, es) == undo(after, live, done, front));
    }
}

// ---------------------------------------------------------------------------
// Record by record
// ---------------------------------------------------------------------------

/// Redoing one record does to its row what the transaction did, and nothing to
/// any other: what was added or changed has the contents that were logged, what
/// was removed is a deletion mark of that transaction, and a purge takes away
/// the mark that it was logged for and nothing else. A change or a removal of a
/// row that is not there leaves none; what did not commit, and what was in a
/// table that is gone, leaves everything as it is.
pub proof fn redo_does_what_was_logged(
    rows: Map<Place, Row>,
    live: Set<TableIdType>,
    committed: Set<u64>,
    e: Entry,
    p: Place,
)
    requires
        mvcc::data_op(e.op) || e.op is Purge,
        e.op matches Op::Mod { pre, post, .. } ==> post.table_id == pre.table_id && post.tuple.id
            == pre.tuple.id,
    ensures
        ({
            let now = redo_one(rows, live, committed, e);
            let done = live.contains(mvcc::op_place(e.op).table) && (e.op is Purge
                || committed.contains(mvcc::op_txn(e.op)));
            &&& p != mvcc::op_place(e.op) || !done ==> now.dom().contains(p) == rows.dom().contains(
                p,
            ) && (rows.dom().contains(p) ==> now[p] == rows[p])
            &&& p == mvcc::op_place(e.op) && done ==> match e.op {
                Op::Add { post, .. } => now.dom().contains(p) && now[p].data == post.tuple.data
                    && now[p].tombstone == post.tuple.tombstone && now[p].txn_id
                    == post.tuple.txn_id,
                Op::Mod { post, .. } => now.dom().contains(p) == rows.dom().contains(p) && (
                rows.dom().contains(p) ==> now[p].data == post.tuple.data && now[p].tombstone
                    == post.tuple.tombstone && now[p].txn_id == post.tuple.txn_id),
                Op::Del { txn, pre } => now.dom().contains(p) == rows.dom().contains(p) && (
                rows.dom().contains(p) ==> now[p].tombstone && now[p].txn_id == Some(txn)
                    && now[p].data == pre.tuple.data),
                Op::Purge { txn, .. } => now.dom().contains(p) <==> rows.dom().contains(p) && !(
                rows[p].tombstone && rows[p].txn_id == Some(txn)),
                _ => true,
            }
        }),
{
}

/// The records that are replayed are exactly those at or above the floor.
pub proof fn replay_starts_at_the_floor(es: Seq<Entry>, floor: u64, e: Entry)
    ensures
        above(es, floor).contains(e) <==> es.contains(e) && e.lsn.0 >= floor,
    decreases es.len(),
{
    if es.len() > 0 {
        let front = es.drop_last();
        let rest = above(front, floor);
        let more = rest.push(es.last());
        replay_starts_at_the_floor(front, floor, e);
        assert(es.contains(e) <==> front.contains(e) || e == es.last()) by {
            if es.contains(e) {
                let i = es.index_of(e);
                if i < front.len() {
                    assert(front[i] == e);
                }
            }
            if front.contains(e) {
                assert(es[front.index_of(e)] == e);
            }
            if e == es.last() {
                assert(es[es.len() - 1] == e);
            }
        }
        assert(more.contains(e) <==> rest.contains(e) || e == es.last()) by {
            if more.contains(e) {
                let i = more.index_of(e);
                if i < rest.len() {
                    assert(rest[i] == e);
                }
            }
            if rest.contains(e) {
                assert(more[rest.index_of(e)] == e);
            }
            if e == es.last() {
                assert(more[rest.len() as int] == e);
            }
        }
    }
}

/// The clock stands past every number in the log once that is replayed, and
/// past where it was; and it is no further than it has to be.
pub proof fn clock_is_past_the_log(counter: nat, es: Seq<Entry>, i: int)
    requires
        0 <= i < es.len(),
    ensures
        clock_after(counter, es) > es[i].lsn.0,
        clock_after(counter, es) > mvcc::op_txn(es[i].op),
        clock_after(counter, es) >= counter,
        clock_after(counter, es) == counter || exists|k: int|
            0 <= k < es.len() && (clock_after(counter, es) == (#[trigger] es[k]).lsn.0 + 1
                || clock_after(counter, es) == mvcc::op_txn(es[k].op) + 1),
{
    top_is_reached(es, i);
}

/// The largest number in a log is in it, and no other is larger.
proof fn top_is_reached(es: Seq<Entry>, i: int)
    requires
        0 <= i < es.len(),
    ensures
        log_top(es) matches Some(m) && m >= entry_top(es[i]) && exists|k: int|
            0 <= k < es.len() && m == entry_top(#[trigger] es[k]),
    decreases es.len(),
{
    let front = es.drop_last();
    let n = es.len() - 1;
    assert(es.last() == es[n]);
    if front.len() > 0 {
        let j = if i < n {
            i
        } else {
            0
        };
        top_is_reached(front, j);
        assert(front[j] == es[j]);
        let m = log_top(front)->0;
        let k = choose|k: int| 0 <= k < front.len() && m == entry_top(#[trigger] front[k]);
        assert(front[k] == es[k]);
        if most(m, entry_top(es.last())) == m {
            assert(log_top(es)->0 == entry_top(es[k]));
        } else {
            assert(log_top(es)->0 == entry_top(es[n]));
        }
    } else {
        assert(log_top(es)->0 == entry_top(es[n]));
    }
}

} // verus!

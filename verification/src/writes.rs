//! What a transaction can rely on when it writes and reads rows: how the answer
//! of a write follows from what a read would have given just before it, and
//! what reads give just after it.
use vstd::prelude::*;

use crate::db;
use crate::db::{Db, Durability};
use crate::engine;
use crate::error::Fault;
use crate::mvcc;
use crate::mvcc::{Core, Grave, Place, Sight, Viewer};
use crate::operation::{Entry, Op};
use crate::steps;
use crate::table;
use crate::table::{Table, TableIdType};
use crate::tuple;
use crate::tuple::{Key, Row};
use crate::txn::{ConflictPolicy, TransactionId};
use crate::version;

verus! {

/// Is what the transaction sees at the place the newest version? It is where
/// there is no version, and where the newest is its own or one that it sees.
pub open spec fn up_to_date(c: Core, x: u64, p: Place) -> bool {
    c.rows.dom().contains(p) ==> (c.rows[p].txn_id matches Some(w) && (w.0 == x || c.txns.visible(
        w.0,
        x,
    )))
}

/// May the transaction write to the table: is it active, does the table exist,
/// and are writes not refused?
pub open spec fn may_write(db: Db, table: TableIdType, x: u64) -> bool {
    db.engine@.txns.active.dom().contains(x) && db.engine@.live.contains(table)
        && db.degraded is None
}

/// What a transaction reads under a key.
pub open spec fn found(db: Db, x: u64, table: TableIdType, key: Key) -> Option<Row> {
    db.engine@.read(Viewer::Reader(x), Place { table, key })
}

/// Where the newest version is seen, it is what a look finds.
proof fn newest_is_found(c: Core, x: u64, p: Place)
    requires
        c.wf(),
        up_to_date(c, x, p),
    ensures
        c.look(Viewer::Reader(x), p) == if c.rows.dom().contains(p) {
            Sight::Found(c.rows[p])
        } else {
            Sight::NoAncestor
        },
{
    if c.rows.dom().contains(p) {
        assert(mvcc::row_ok(c, p, c.rows[p]));
    }
}

/// What a write that came off leaves for its own transaction to read: the
/// version that it wrote, and at every other place what was there.
proof fn written_is_read(before: Db, after: Db, op: Op, new: Row, p: Place)
    requires
        before.wf(),
        steps::write_ok(before.engine@, op, new),
        after.engine@ == before.engine@.wrote(op, new),
        p == mvcc::op_place(op),
    ensures
        ({
            let x = mvcc::op_txn(op);
            &&& after.engine@.read(Viewer::Reader(x), p) == if new.tombstone {
                None
            } else {
                Some(new)
            }
            &&& forall|q: Place|
                q != p ==> #[trigger] after.engine@.read(Viewer::Reader(x), q)
                    == before.engine@.read(Viewer::Reader(x), q)
            &&& forall|v: Viewer, q: Place|
                mvcc::may_look(before.engine@.txns, v) && v != Viewer::Reader(x)
                    ==> #[trigger] after.engine@.read(v, q) == before.engine@.read(v, q)
        }),
{
    let c = before.engine@;
    let d = after.engine@;
    let x = mvcc::op_txn(op);
    steps::wrote_keeps(c, op, new);
    assert forall|q: Place| q != p implies #[trigger] d.read(Viewer::Reader(x), q) == c.read(
        Viewer::Reader(x),
        q,
    ) by {
        assert(c.wrote(op, new).look(Viewer::Reader(x), q) == c.look(Viewer::Reader(x), q));
    }
    assert forall|v: Viewer, q: Place|
        mvcc::may_look(c.txns, v) && v != Viewer::Reader(x) implies #[trigger] d.read(v, q)
        == c.read(v, q) by {
        assert(c.wrote(op, new).look(v, q) == c.look(v, q));
    }
}

// ---------------------------------------------------------------------------
// Inserts
// ---------------------------------------------------------------------------

/// A key under which the transaction reads nothing, and whose newest version it
/// sees, can be inserted, whether the key was never there, was removed long ago
/// or was removed by the transaction itself a moment before. From then on the
/// transaction reads under it exactly what it handed in.
pub proof fn absent_row_is_inserted(
    before: Db,
    after: Db,
    table: TableIdType,
    row: Row,
    x: u64,
    failed: Option<Fault>,
)
    requires
        before.wf(),
        before.room(2),
        may_write(before, table, x),
        db::key_fault(before, table, row.id) is None,
        found(before, x, table, row.id) is None,
        up_to_date(before.engine@, x, Place { table, key: row.id }),
        db::wrote_row(before, after, table, x, db::insert_plan(before, table, row, x), failed),
    ensures
        failed is None,
        found(after, x, table, row.id) matches Some(r) && r.id == row.id && r.data == row.data,
{
    let c = before.engine@;
    let p = Place { table, key: row.id };
    newest_is_found(c, x, p);
    engine::insert_plan_ok(c, table, row, x);
    if c.rows.dom().contains(p) {
        assert(mvcc::row_ok(c, p, c.rows[p]));
    }
    let plan = engine::insert_plan(c, table, row, x);
    assert(plan is Ok);
    let (op, new) = plan->Ok_0;
    written_is_read(before, after, op, new, p);
}

/// A key under which the transaction reads a row cannot be inserted, and what
/// the transaction reads stays as it is. The answer is that the key is there,
/// unless another transaction has removed the row since.
pub proof fn present_row_is_not_inserted(
    before: Db,
    after: Db,
    table: TableIdType,
    row: Row,
    x: u64,
    failed: Option<Fault>,
)
    requires
        before.wf(),
        before.room(2),
        may_write(before, table, x),
        found(before, x, table, row.id) is Some,
        db::wrote_row(before, after, table, x, db::insert_plan(before, table, row, x), failed),
    ensures
        failed is Some,
        up_to_date(before.engine@, x, Place { table, key: row.id }) ==> failed == Some(
            Fault::DuplicateKey(row.id),
        ),
        failed == Some(Fault::DuplicateKey(row.id)) ==> found(after, x, table, row.id) == found(
            before,
            x,
            table,
            row.id,
        ),
{
    let c = before.engine@;
    let p = Place { table, key: row.id };
    assert(c.rows.dom().contains(p));
    assert(mvcc::row_ok(c, p, c.rows[p]));
    steps::tick_keeps(c);
    assert(c.tick().look(Viewer::Reader(x), p) == c.look(Viewer::Reader(x), p));
    if up_to_date(c, x, p) {
        newest_is_found(c, x, p);
    }
}

/// That a key is there is said only where it is: where its newest version is a
/// row and not a deletion mark, whoever wrote it.
pub proof fn duplicate_is_a_row(
    before: Db,
    after: Db,
    table: TableIdType,
    row: Row,
    x: u64,
    key: Key,
)
    requires
        before.wf(),
        before.room(2),
        may_write(before, table, x),
        db::wrote_row(
            before,
            after,
            table,
            x,
            db::insert_plan(before, table, row, x),
            Some(Fault::DuplicateKey(key)),
        ),
        db::key_fault(before, table, row.id) is None,
    ensures
        key == row.id,
        before.engine@.rows.dom().contains(Place { table, key }),
        !before.engine@.rows[Place { table, key }].tombstone,
{
}

// ---------------------------------------------------------------------------
// Updates
// ---------------------------------------------------------------------------

/// Where the transaction reads a row whose newest version it sees, an update
/// comes off, and from then on the transaction reads the contents that it
/// handed in, under a key of either kind.
pub proof fn present_row_is_updated(
    before: Db,
    after: Db,
    table: TableIdType,
    row: Row,
    x: u64,
    failed: Option<Fault>,
)
    requires
        before.wf(),
        before.room(2),
        may_write(before, table, x),
        found(before, x, table, row.id) is Some,
        up_to_date(before.engine@, x, Place { table, key: row.id }),
        db::wrote_row(
            before,
            after,
            table,
            x,
            engine::update_plan(before.engine@, table, row, x),
            failed,
        ),
    ensures
        failed is None,
        found(after, x, table, row.id) matches Some(r) && r.id == row.id && r.data == row.data,
{
    let c = before.engine@;
    let p = Place { table, key: row.id };
    newest_is_found(c, x, p);
    assert(mvcc::row_ok(c, p, c.rows[p]));
    engine::update_plan_ok(c, table, row, x);
    let plan = engine::update_plan(c, table, row, x);
    assert(plan is Ok);
    let (op, new) = plan->Ok_0;
    written_is_read(before, after, op, new, p);
}

/// Whenever an update comes off, the transaction read a row before, and reads
/// the contents after that it handed in.
pub proof fn update_is_read(before: Db, after: Db, table: TableIdType, row: Row, x: u64)
    requires
        before.wf(),
        before.room(2),
        db::wrote_row(
            before,
            after,
            table,
            x,
            engine::update_plan(before.engine@, table, row, x),
            None,
        ),
    ensures
        may_write(before, table, x),
        found(before, x, table, row.id) is Some,
        found(after, x, table, row.id) matches Some(r) && r.id == row.id && r.data == row.data,
{
    let c = before.engine@;
    let p = Place { table, key: row.id };
    engine::update_plan_ok(c, table, row, x);
    assert(engine::update_plan(c, table, row, x) is Ok);
    assert(mvcc::row_ok(c, p, c.rows[p]));
    newest_is_found(c, x, p);
    present_row_is_updated(before, after, table, row, x, None);
}

/// An update of a row that the transaction does not read changes nothing, and
/// says so, as long as nobody else has written there since.
pub proof fn absent_row_is_not_updated(
    before: Db,
    after: Db,
    table: TableIdType,
    row: Row,
    x: u64,
    failed: Option<Fault>,
)
    requires
        before.wf(),
        before.room(2),
        may_write(before, table, x),
        db::wrote_row(
            before,
            after,
            table,
            x,
            engine::update_plan(before.engine@, table, row, x),
            failed,
        ),
    ensures
        found(before, x, table, row.id) is None && up_to_date(
            before.engine@,
            x,
            Place { table, key: row.id },
        ) <==> failed == Some(Fault::KeyNotFound(row.id)),
        failed == Some(Fault::KeyNotFound(row.id)) ==> found(after, x, table, row.id) is None,
{
    let c = before.engine@;
    let p = Place { table, key: row.id };
    if c.rows.dom().contains(p) {
        assert(mvcc::row_ok(c, p, c.rows[p]));
    }
    steps::tick_keeps(c);
    assert(c.tick().look(Viewer::Reader(x), p) == c.look(Viewer::Reader(x), p));
    if up_to_date(c, x, p) {
        newest_is_found(c, x, p);
    }
}

// ---------------------------------------------------------------------------
// Removals
// ---------------------------------------------------------------------------

/// Where the transaction reads a row whose newest version it sees, its own
/// among them, a removal comes off, returns the row that was read, and leaves
/// nothing to read.
pub proof fn present_row_is_removed(
    before: Db,
    after: Db,
    table: TableIdType,
    key: Key,
    x: u64,
    failed: Option<Fault>,
    out: Row,
)
    requires
        before.wf(),
        before.room(2),
        may_write(before, table, x),
        found(before, x, table, key) is Some,
        up_to_date(before.engine@, x, Place { table, key }),
        db::wrote_row(
            before,
            after,
            table,
            x,
            engine::remove_plan(before.engine@, table, key, x),
            failed,
        ),
        failed is None ==> db::removed(before, table, key, out),
    ensures
        failed is None,
        found(before, x, table, key) == Some(out),
        found(after, x, table, key) is None,
{
    let c = before.engine@;
    let p = Place { table, key };
    newest_is_found(c, x, p);
    assert(mvcc::row_ok(c, p, c.rows[p]));
    engine::remove_plan_ok(c, table, key, x);
    let plan = engine::remove_plan(c, table, key, x);
    assert(plan is Ok);
    let (op, new) = plan->Ok_0;
    written_is_read(before, after, op, new, p);
}

/// Whenever a removal comes off, what it returns is the row that the
/// transaction read just before, and nothing is left to read.
pub proof fn removal_returns_what_was_read(
    before: Db,
    after: Db,
    table: TableIdType,
    key: Key,
    x: u64,
    out: Row,
)
    requires
        before.wf(),
        before.room(2),
        db::wrote_row(
            before,
            after,
            table,
            x,
            engine::remove_plan(before.engine@, table, key, x),
            None,
        ),
        db::removed(before, table, key, out),
    ensures
        may_write(before, table, x),
        found(before, x, table, key) == Some(out),
        found(after, x, table, key) is None,
{
    let c = before.engine@;
    let p = Place { table, key };
    engine::remove_plan_ok(c, table, key, x);
    assert(engine::remove_plan(c, table, key, x) is Ok);
    assert(mvcc::row_ok(c, p, c.rows[p]));
    newest_is_found(c, x, p);
    present_row_is_removed(before, after, table, key, x, None, out);
}

/// A removal of a row that the transaction does not read changes nothing, and
/// says so, as long as nobody else has written there since: that a key is not
/// found is said only where nothing is read.
pub proof fn absent_row_is_not_removed(
    before: Db,
    after: Db,
    table: TableIdType,
    key: Key,
    x: u64,
    failed: Option<Fault>,
)
    requires
        before.wf(),
        before.room(2),
        may_write(before, table, x),
        db::wrote_row(
            before,
            after,
            table,
            x,
            engine::remove_plan(before.engine@, table, key, x),
            failed,
        ),
    ensures
        found(before, x, table, key) is None && up_to_date(before.engine@, x, Place { table, key })
            <==> failed == Some(Fault::KeyNotFound(key)),
        failed == Some(Fault::KeyNotFound(key)) ==> found(after, x, table, key) is None,
{
    let c = before.engine@;
    let p = Place { table, key };
    if c.rows.dom().contains(p) {
        assert(mvcc::row_ok(c, p, c.rows[p]));
    }
    steps::tick_keeps(c);
    assert(c.tick().look(Viewer::Reader(x), p) == c.look(Viewer::Reader(x), p));
    if up_to_date(c, x, p) {
        newest_is_found(c, x, p);
    }
}

// ---------------------------------------------------------------------------
// Writes of every kind
// ---------------------------------------------------------------------------

/// Whenever an insert comes off, the transaction read nothing before, and reads
/// after exactly what it handed in.
pub proof fn insert_is_read(before: Db, after: Db, table: TableIdType, row: Row, x: u64)
    requires
        before.wf(),
        before.room(2),
        db::wrote_row(before, after, table, x, db::insert_plan(before, table, row, x), None),
    ensures
        may_write(before, table, x),
        found(before, x, table, row.id) is None,
        up_to_date(before.engine@, x, Place { table, key: row.id }),
        found(after, x, table, row.id) matches Some(r) && r.id == row.id && r.data == row.data,
{
    let c = before.engine@;
    let p = Place { table, key: row.id };
    engine::insert_plan_ok(c, table, row, x);
    assert(engine::insert_plan(c, table, row, x) is Ok);
    if c.rows.dom().contains(p) {
        assert(mvcc::row_ok(c, p, c.rows[p]));
    }
    newest_is_found(c, x, p);
    absent_row_is_inserted(before, after, table, row, x, None);
}

/// Is this what an insert, an update or a removal under the key came to?
pub open spec fn some_write(
    before: Db,
    after: Db,
    table: TableIdType,
    key: Key,
    x: u64,
    failed: Option<Fault>,
) -> bool {
    ||| exists|row: Row|
        row.id == key && db::wrote_row(
            before,
            after,
            table,
            x,
            #[trigger] db::insert_plan(before, table, row, x),
            failed,
        )
    ||| exists|row: Row|
        row.id == key && db::wrote_row(
            before,
            after,
            table,
            x,
            #[trigger] engine::update_plan(before.engine@, table, row, x),
            failed,
        )
    ||| db::wrote_row(
        before,
        after,
        table,
        x,
        engine::remove_plan(before.engine@, table, key, x),
        failed,
    )
}

/// The plan behind a write, and that it is sound.
proof fn plan_of(
    before: Db,
    after: Db,
    table: TableIdType,
    key: Key,
    x: u64,
    failed: Option<Fault>,
) -> (plan: Result<(Op, Row), Fault>)
    requires
        before.wf(),
        before.room(2),
        some_write(before, after, table, key, x, failed),
    ensures
        db::wrote_row(before, after, table, x, plan, failed),
        before.engine@.txns.active.dom().contains(x) && before.engine@.live.contains(table) ==> (
        plan matches Ok((op, new)) ==> steps::write_ok(before.engine@, op, new) && mvcc::op_place(
            op,
        ) == (Place { table, key }) && mvcc::op_txn(op) == x),
        plan matches Err(Fault::WriteConflict(k)) ==> k == key && before.engine@.rows.dom().contains(
            Place { table, key },
        ) && !before.engine@.txns.visible(
            (before.engine@.rows[Place { table, key }].txn_id->0).0,
            x,
        ),
{
    let c = before.engine@;
    let may = c.txns.active.dom().contains(x) && c.live.contains(table);
    if exists|row: Row|
        row.id == key && db::wrote_row(
            before,
            after,
            table,
            x,
            #[trigger] db::insert_plan(before, table, row, x),
            failed,
        ) {
        let row = choose|row: Row|
            row.id == key && db::wrote_row(
                before,
                after,
                table,
                x,
                #[trigger] db::insert_plan(before, table, row, x),
                failed,
            );
        if may {
            engine::insert_plan_ok(c, table, row, x);
        }
        db::insert_plan(before, table, row, x)
    } else if exists|row: Row|
        row.id == key && db::wrote_row(
            before,
            after,
            table,
            x,
            #[trigger] engine::update_plan(c, table, row, x),
            failed,
        ) {
        let row = choose|row: Row|
            row.id == key && db::wrote_row(
                before,
                after,
                table,
                x,
                #[trigger] engine::update_plan(c, table, row, x),
                failed,
            );
        if may {
            engine::update_plan_ok(c, table, row, x);
        }
        engine::update_plan(c, table, row, x)
    } else {
        if may {
            engine::remove_plan_ok(c, table, key, x);
        }
        engine::remove_plan(c, table, key, x)
    }
}

/// A write is its transaction's own affair: whatever came of it, every other
/// reader reads at every place what it read before, and so does who looks for
/// what has committed.
pub proof fn write_is_unseen_by_others(
    before: Db,
    after: Db,
    table: TableIdType,
    key: Key,
    x: u64,
    failed: Option<Fault>,
    v: Viewer,
    p: Place,
)
    requires
        before.wf(),
        before.room(2),
        some_write(before, after, table, key, x, failed),
        mvcc::may_look(before.engine@.txns, v),
        v != Viewer::Reader(x),
    ensures
        after.engine@.read(v, p) == before.engine@.read(v, p),
{
    let c = before.engine@;
    let plan = plan_of(before, after, table, key, x, failed);
    steps::tick_keeps(c);
    assert(c.tick().look(v, p) == c.look(v, p));
    if c.txns.active.dom().contains(x) && c.live.contains(table) && before.degraded is None {
        match plan {
            Ok((op, new)) => {
                written_is_read(before, after, op, new, Place { table, key });
            },
            Err(Fault::WriteConflict(k)) => {
                let d = c.tick();
                steps::aborting_keeps(d, x);
                assert(d.aborting_now(x).look(v, p) == d.look(v, p));
                let e = d.aborting_now(x);
                steps::aborted_keeps(e, x);
                assert(mvcc::may_look(e.txns, v));
                assert(e.aborted(x).look(v, p) == e.look(v, p));
            },
            Err(_) => {},
        }
    }
}

/// A write changes nothing for its own transaction but the row that it is
/// about, and that only if it comes off, as long as the transaction goes on.
pub proof fn write_touches_one_row(
    before: Db,
    after: Db,
    table: TableIdType,
    key: Key,
    x: u64,
    failed: Option<Fault>,
    p: Place,
)
    requires
        before.wf(),
        before.room(2),
        some_write(before, after, table, key, x, failed),
        after.engine@.txns.active.dom().contains(x),
        p != (Place { table, key }) || failed is Some,
    ensures
        after.engine@.read(Viewer::Reader(x), p) == before.engine@.read(Viewer::Reader(x), p),
{
    let c = before.engine@;
    let v = Viewer::Reader(x);
    let plan = plan_of(before, after, table, key, x, failed);
    steps::tick_keeps(c);
    assert(c.tick().look(v, p) == c.look(v, p));
    if c.txns.active.dom().contains(x) && c.live.contains(table) && before.degraded is None {
        if let Ok((op, new)) = plan {
            written_is_read(before, after, op, new, Place { table, key });
        }
    }
}

/// Who may not write is told why, and nothing is written: the transaction has
/// finished, or the engine took it down, which is said once and with the
/// reason; or the table does not exist; or writes are refused.
pub proof fn refused_write_says_why(
    before: Db,
    after: Db,
    table: TableIdType,
    key: Key,
    x: u64,
    failed: Option<Fault>,
)
    requires
        before.wf(),
        before.room(2),
        some_write(before, after, table, key, x, failed),
        !may_write(before, table, x),
    ensures
        after.engine@.rows == before.engine@.rows,
        after.engine@.txns == before.engine@.txns,
        after.queued() == before.queued(),
        if !before.engine@.txns.active.dom().contains(x) {
            &&& if before.forced().dom().contains(x) {
                failed == Some(Fault::SnapshotTooOld(before.forced()[x]))
            } else {
                failed == Some(Fault::TransactionAlreadyFinished)
            }
            &&& !after.forced().dom().contains(x)
        } else if !before.engine@.live.contains(table) {
            failed is Some && failed->0 is TableNotFound
        } else {
            before.degraded matches Some(why) && failed == Some(Fault::EngineDegraded(why@))
        },
{
    let _ = plan_of(before, after, table, key, x, failed);
}

/// A row whose newest version the transaction does not see can be neither
/// updated nor removed. What the transaction said when it began decides what
/// that does to it: only the write fails and it goes on as it was, or it is
/// rolled back and leaves no row behind.
pub proof fn conflict_is_settled_by_policy(
    before: Db,
    after: Db,
    table: TableIdType,
    key: Key,
    x: u64,
    failed: Option<Fault>,
)
    requires
        before.wf(),
        before.room(2),
        may_write(before, table, x),
        !up_to_date(before.engine@, x, Place { table, key }),
        some_write(before, after, table, key, x, failed),
    ensures
        failed is Some,
        failed == Some(Fault::DuplicateKey(key)) || match before.engine@.txns.active[x] {
            ConflictPolicy::ContinueOnConflict => {
                &&& failed == Some(Fault::WriteConflict(key))
                &&& after.engine@.txns == before.engine@.txns
                &&& after.engine@.rows == before.engine@.rows
            },
            ConflictPolicy::AbortOnConflict => {
                &&& !after.engine@.txns.active.dom().contains(x)
                &&& if before.fail_reverts {
                    failed->0 is Unknown && after.engine@.txns.aborting.contains(x)
                } else {
                    &&& failed == Some(Fault::WriteConflictTransactionAborted(key))
                    &&& !after.engine@.txns.aborting.contains(x)
                    &&& mvcc::none_by(after.engine@.rows, x)
                }
            },
        },
        failed == Some(Fault::DuplicateKey(key)) ==> !before.engine@.rows[Place {
            table,
            key,
        }].tombstone && after.engine@.txns == before.engine@.txns && after.engine@.rows
            == before.engine@.rows,
{
    let c = before.engine@;
    let p = Place { table, key };
    assert(mvcc::row_ok(c, p, c.rows[p]));
    let plan = plan_of(before, after, table, key, x, failed);
    steps::tick_keeps(c);
    let d = c.tick();
    steps::aborting_keeps(d, x);
    steps::aborted_keeps(d.aborting_now(x), x);
}

// ---------------------------------------------------------------------------
// Transactions
// ---------------------------------------------------------------------------

/// A commit publishes what the transaction wrote, and nothing else: where the
/// newest version is the transaction's, whoever looks for what has committed
/// reads what the transaction read; everywhere else it reads what it read
/// before, and so does every other reader at every place.
pub proof fn commit_publishes(before: Db, after: Db, x: u64, durability: Durability, p: Place)
    requires
        before.wf(),
        before.room(1),
        db::committed(before, after, x, durability, None),
    ensures
        before.engine@.txns.active.dom().contains(x),
        before.degraded is None,
        !after.engine@.txns.unfinished(x),
        after.engine@.read(Viewer::Latest, p) == if before.engine@.rows.dom().contains(p)
            && before.engine@.rows[p].txn_id == Some(TransactionId(x)) {
            before.engine@.read(Viewer::Reader(x), p)
        } else {
            before.engine@.read(Viewer::Latest, p)
        },
        forall|r: u64|
            r != x && #[trigger] before.engine@.txns.active.dom().contains(r) ==> {
                &&& after.engine@.txns.active.dom().contains(r)
                &&& after.engine@.read(Viewer::Reader(r), p) == before.engine@.read(
                    Viewer::Reader(r),
                    p,
                )
            },
{
    let c = before.engine@;
    let d = after.engine@;
    steps::commit_keeps(c, x);
    assert forall|r: u64| r != x && #[trigger] c.txns.active.dom().contains(r) implies {
        &&& d.txns.active.dom().contains(r)
        &&& d.read(Viewer::Reader(r), p) == c.read(Viewer::Reader(r), p)
    } by {
        assert(c.did_commit(x).look(Viewer::Reader(r), p) == c.look(Viewer::Reader(r), p));
    }
    if c.rows.dom().contains(p) {
        assert(mvcc::row_ok(c, p, c.rows[p]));
        if c.rows[p].txn_id == Some(TransactionId(x)) {
            assert(d.look(Viewer::Latest, p) == Sight::Found(c.rows[p]));
            newest_is_found(c, x, p);
        } else {
            committed_walk(c, x, p);
        }
    }
}

/// A commit changes nothing where the newest version is another's.
proof fn committed_walk(c: Core, x: u64, p: Place)
    requires
        c.wf(),
        c.txns.active.dom().contains(x),
        c.rows.dom().contains(p),
        c.rows[p].txn_id != Some(TransactionId(x)),
    ensures
        c.did_commit(x).look(Viewer::Latest, p) == c.look(Viewer::Latest, p),
{
    let d = c.did_commit(x);
    assert(mvcc::row_ok(c, p, c.rows[p]));
    let w = (c.rows[p].txn_id->0).0;
    if !c.txns.is_committed(w) {
        latest_walk(c, x, w, c.rows[p], c.counter);
    }
}

/// Behind a version of one unfinished transaction there is none of another.
proof fn latest_walk(c: Core, x: u64, w: u64, row: Row, limit: nat)
    requires
        c.wf(),
        c.txns.active.dom().contains(x),
        w != x,
        row.txn_id == Some(TransactionId(w)),
        mvcc::link_ok(c.map(), row, limit),
    ensures
        mvcc::walk(c.map(), c.did_commit(x).txns, Viewer::Latest, row) == mvcc::walk(
            c.map(),
            c.txns,
            Viewer::Latest,
            row,
        ),
    decreases
            (match row.pre_lsn {
                Some(l) => l.0 as int + 1,
                None => 0,
            }),
{
    let m = c.map();
    if let Some(l) = row.pre_lsn {
        if m.dom().contains(l.0) {
            let i = mvcc::by_lsn_find(c.records, l.0);
            assert(mvcc::record_ok(c, c.records[i]));
            if let Some(next) = mvcc::pre_image(m[l.0]) {
                if let Some(u) = next.txn_id {
                    if !c.txns.is_committed(u.0) && !(next.pre_lsn matches Some(k) && k.0 >= l.0) {
                        latest_walk(c, x, w, next, l.0 as nat);
                    }
                }
            }
        }
    }
}

/// Whoever begins reads at every place what has committed by then, under the
/// policy that was asked for; those who began before notice nothing of it.
pub proof fn beginner_reads_what_has_committed(c: Core, policy: ConflictPolicy, p: Place)
    requires
        c.wf(),
        c.counter < u64::MAX,
    ensures
        c.begun(policy).txns.active.dom() == c.txns.active.dom().insert(c.counter as u64),
        c.begun(policy).txns.active[c.counter as u64] == policy,
        c.begun(policy).read(Viewer::Reader(c.counter as u64), p) == c.read(Viewer::Latest, p),
        forall|v: Viewer|
            mvcc::may_look(c.txns, v) ==> #[trigger] c.begun(policy).read(v, p) == c.read(v, p),
{
    steps::begun_keeps(c, policy);
    assert(c.begun(policy).look(Viewer::Reader(c.counter as u64), p) == c.look(Viewer::Latest, p));
    assert forall|v: Viewer| mvcc::may_look(c.txns, v) implies #[trigger] c.begun(policy).read(
        v,
        p,
    ) == c.read(v, p) by {
        assert(c.begun(policy).look(v, p) == c.look(v, p));
    }
}

/// A rollback takes the transaction down and changes nothing for anybody else,
/// whether its writes could be taken back at once or not. Where they could, no
/// row of its own is left.
pub proof fn rollback_is_unseen(before: Db, after: Db, x: u64, failed: Option<Fault>)
    requires
        before.wf(),
        before.room(1),
        db::rolled_back(before, after, x, failed),
    ensures
        !after.engine@.txns.active.dom().contains(x),
        forall|r: u64|
            r != x ==> (#[trigger] after.engine@.txns.active.dom().contains(r)
                <==> before.engine@.txns.active.dom().contains(r)),
        failed is Some <==> before.fail_reverts && before.engine@.txns.active.dom().contains(x),
        before.engine@.txns.active.dom().contains(x) ==> (failed is Some
            <==> after.engine@.txns.aborting.contains(x)),
        !before.engine@.txns.active.dom().contains(x) ==> after.engine == before.engine
            && !after.forced().dom().contains(x),
        before.engine@.txns.active.dom().contains(x) && failed is None ==> mvcc::none_by(
            after.engine@.rows,
            x,
        ),
        forall|v: Viewer, p: Place|
            mvcc::may_look(before.engine@.txns, v) && v != Viewer::Reader(x)
                ==> #[trigger] after.engine@.read(v, p) == before.engine@.read(v, p),
{
    let c = before.engine@;
    if c.txns.active.dom().contains(x) {
        steps::aborting_keeps(c, x);
        let e = c.aborting_now(x);
        steps::aborted_keeps(e, x);
        assert forall|v: Viewer, p: Place|
            mvcc::may_look(c.txns, v) && v != Viewer::Reader(
                x,
            ) implies #[trigger] after.engine@.read(v, p) == c.read(v, p) by {
            assert(e.look(v, p) == c.look(v, p));
            assert(mvcc::may_look(e.txns, v));
            assert(e.aborted(x).look(v, p) == e.look(v, p));
        }
    }
}

// ---------------------------------------------------------------------------
// Scans
// ---------------------------------------------------------------------------

/// A scan and a read agree on every key: a row is in the scan exactly where the
/// viewer reads it under its key, and it is there once.
pub proof fn scan_agrees_with_reads(
    c: Core,
    table: TableIdType,
    v: Viewer,
    out: Seq<Row>,
    key: Key,
    row: Row,
)
    requires
        c.wf(),
        engine::scan_of(c, table, v, out),
    ensures
        c.read(v, Place { table, key }) == Some(row) <==> row.id == key && out.contains(row),
        out.no_duplicates(),
{
    let p = Place { table, key };
    engine::look_keeps_key(c, v, p);
    if c.read(v, p) == Some(row) {
        let k = choose|k: int| 0 <= k < out.len() && (#[trigger] out[k]).id == p.key;
        assert(out[k] == row);
    }
    if row.id == key && out.contains(row) {
        let k = choose|k: int| 0 <= k < out.len() && out[k] == row;
        assert(c.read(v, Place { table, key: out[k].id }) == Some(out[k]));
    }
    assert forall|a: int, b: int| 0 <= a < b < out.len() implies out[a] != out[b] by {
        assert(tuple::key_before(out[a].id, out[b].id));
        tuple::key_before_total(out[a].id, out[a].id);
    }
}

// ---------------------------------------------------------------------------
// Locks
// ---------------------------------------------------------------------------

/// A lock that is not granted in time, or asked for out of order, takes the
/// transaction down whatever its policy is, is counted, and is what the caller
/// is told; nobody else notices.
pub proof fn failed_lock_ends_the_transaction(
    before: Db,
    after: Db,
    x: u64,
    fault: Fault,
    failed: Option<Fault>,
    v: Viewer,
    p: Place,
)
    requires
        before.wf(),
        before.room(1),
        fault is LockTimeout || fault is LockOrderViolation,
        db::settled(before, after, x, Some(fault), failed),
    ensures
        failed == Some(fault),
        !after.engine@.txns.active.dom().contains(x),
        after.lock_timeouts == before.lock_timeouts.wrapping_add(1),
        mvcc::may_look(before.engine@.txns, v) && v != Viewer::Reader(x) ==> after.engine@.read(v, p)
            == before.engine@.read(v, p),
{
    let counted = Db { lock_timeouts: before.lock_timeouts.wrapping_add(1), ..before };
    assert(counted.wf());
    rollback_is_unseen(counted, after, x, db::abort_fault(before, x));
}

/// An error that is neither a conflict nor a failed lock goes to the caller and
/// changes nothing, and so does a conflict of a transaction that goes on.
pub proof fn other_errors_change_nothing(
    before: Db,
    after: Db,
    x: u64,
    fault: Option<Fault>,
    failed: Option<Fault>,
)
    requires
        !(fault matches Some(f) && (f is LockTimeout || f is LockOrderViolation)),
        fault matches Some(f) ==> (f is WriteConflict ==> !(
        before.engine@.txns.active.dom().contains(x) && before.engine@.txns.active[x]
            == ConflictPolicy::AbortOnConflict)),
        db::settled(before, after, x, fault, failed),
    ensures
        failed == fault,
        after == before,
{
}

// ---------------------------------------------------------------------------
// From beginning to end
// ---------------------------------------------------------------------------

/// A transaction that begins is one that nobody ever was: its number is above
/// those of all that are active or aborting and of all that wrote a row. It is
/// active from then on under the policy that was asked for, reads what has
/// committed, and changes nothing for anybody.
pub proof fn beginning_is_fresh(
    before: Db,
    after: Db,
    policy: ConflictPolicy,
    x: u64,
    y: u64,
    p: Place,
)
    requires
        before.wf(),
        before.room(1),
        db::began(before, after, policy, x),
    ensures
        before.engine@.txns.unfinished(y) ==> y < x,
        before.engine@.rows.dom().contains(p) ==> (before.engine@.rows[p].txn_id matches Some(w)
            && w.0 < x),
        after.engine@.txns.active.dom().contains(y) <==> before.engine@.txns.active.dom().contains(
            y,
        ) || y == x,
        after.engine@.txns.active[x] == policy,
        after.engine@.read(Viewer::Reader(x), p) == before.engine@.read(Viewer::Latest, p),
        forall|v: Viewer|
            mvcc::may_look(before.engine@.txns, v) ==> #[trigger] after.engine@.read(v, p)
                == before.engine@.read(v, p),
        after.queued() == before.queued(),
        after.engine.clock.counter > x,
{
    beginner_reads_what_has_committed(before.engine@, policy, p);
    if before.engine@.rows.dom().contains(p) {
        assert(mvcc::row_ok(before.engine@, p, before.engine@.rows[p]));
    }
}

/// A commit comes off exactly where the transaction is active and writes are
/// not refused. Otherwise nothing changes but what is still to be said to the
/// owner of a transaction that the engine took down, which is said once.
pub proof fn commit_is_refused_with_a_reason(
    before: Db,
    after: Db,
    x: u64,
    durability: Durability,
    failed: Option<Fault>,
)
    requires
        db::committed(before, after, x, durability, failed),
    ensures
        failed is None <==> before.degraded is None && before.engine@.txns.active.dom().contains(x),
        before.degraded matches Some(why) ==> failed == Some(Fault::EngineDegraded(why@)),
        before.degraded is None && !before.engine@.txns.active.dom().contains(x) ==> {
            &&& failed == Some(
                if before.forced().dom().contains(x) {
                    Fault::SnapshotTooOld(before.forced()[x])
                } else {
                    Fault::TransactionAlreadyFinished
                },
            )
            &&& !after.forced().dom().contains(x)
        },
        failed is Some ==> after.engine == before.engine && after.ns == before.ns && after.wal
            == before.wal,
{
}

/// A transaction can be finished once: whoever commits or rolls back what has
/// committed is told that it has finished, or told nothing, and nothing
/// changes.
pub proof fn finished_once(
    a: Db,
    b: Db,
    c: Db,
    d: Db,
    x: u64,
    first: Durability,
    second: Durability,
    failed: Option<Fault>,
    undone: Option<Fault>,
)
    requires
        a.wf(),
        b.degraded is None,
        !b.forced().dom().contains(x),
        db::committed(a, b, x, first, None),
        db::committed(b, c, x, second, failed),
        db::rolled_back(b, d, x, undone),
    ensures
        failed == Some(Fault::TransactionAlreadyFinished),
        undone is None,
        c.engine == b.engine,
        d.engine == b.engine,
{
}

/// A commit that does not wait leaves the log and its files alone: its record
/// is the last of those that are queued. One that waits leaves nothing queued.
pub proof fn only_a_waiting_commit_writes_the_log(
    before: Db,
    after: Db,
    x: u64,
    durability: Durability,
)
    requires
        db::committed(before, after, x, durability, None),
    ensures
        durability is Async ==> {
            &&& after.ns == before.ns
            &&& after.wal == before.wal
            &&& after.engine.clock.last_written == before.engine.clock.last_written
            &&& after.queued().len() == before.queued().len() + 1
            &&& after.queued().drop_last() == before.queued()
            &&& after.queued().last().op == Op::Commit(TransactionId(x))
        },
        durability is Sync ==> after.queued().len() == 0,
{
    if durability is Async {
        assert(after.queued().drop_last() =~= before.queued());
    }
}

/// A commit leaves one deletion mark to be purged for every removal of the
/// transaction, under the removed key and with the time of the commit, and none
/// for anything else.
pub proof fn commit_leaves_a_mark_for_every_removal(
    before: Db,
    after: Db,
    x: u64,
    durability: Durability,
    g: Grave,
)
    requires
        db::committed(before, after, x, durability, None),
    ensures
        after.graves().contains(g) <==> before.graves().contains(g) || (g.ts
            == before.engine.clock.counter && g.txn.0 == x && exists|i: int|
            0 <= i < before.engine@.records.len() && ((
            #[trigger] before.engine@.records[i]).op matches Op::Del { txn, pre } && txn == g.txn
                && pre.table_id == g.table_id && pre.tuple.id == g.key)),
{
    let records = before.engine@.records;
    let ts = before.engine.clock.counter;
    let ops = mvcc::ops_of(records, x);
    let more = version::graves_of(ops, ts);
    mvcc::ops_of_members(records, x);
    marks_of_removals(ops, ts, g);
    let all = before.graves() + more;
    if all.contains(g) {
        let i = all.index_of(g);
        if i < before.graves().len() {
            assert(before.graves()[i] == g);
        } else {
            assert(more[i - before.graves().len()] == g);
            let k = choose|k: int|
                0 <= k < ops.len() && ((#[trigger] ops[k]).op matches Op::Del { txn, pre } && txn
                    == g.txn && pre.table_id == g.table_id && pre.tuple.id == g.key);
            assert(records.contains(ops[k]));
            let j = records.index_of(ops[k]);
            assert(records[j] == ops[k]);
        }
    }
    if before.graves().contains(g) {
        assert(all[before.graves().index_of(g)] == g);
    }
    if g.ts == ts && g.txn.0 == x && exists|i: int|
        0 <= i < records.len() && ((#[trigger] records[i]).op matches Op::Del { txn, pre } && txn
            == g.txn && pre.table_id == g.table_id && pre.tuple.id == g.key) {
        let i = choose|i: int|
            0 <= i < records.len() && ((#[trigger] records[i]).op matches Op::Del { txn, pre }
                && txn == g.txn && pre.table_id == g.table_id && pre.tuple.id == g.key);
        own_record(records, x, i);
        let k = ops.index_of(records[i]);
        assert(ops[k] == records[i]);
        assert(more.contains(g));
        let m = more.index_of(g);
        assert(all[before.graves().len() + m] == g);
    }
}

/// A transaction's record is among its own.
proof fn own_record(records: Seq<Entry>, x: u64, i: int)
    requires
        0 <= i < records.len(),
        mvcc::op_txn(records[i].op) == x,
    ensures
        mvcc::ops_of(records, x).contains(records[i]),
    decreases records.len(),
{
    let front = records.drop_last();
    let ops = mvcc::ops_of(front, x);
    if i < front.len() {
        own_record(front, x, i);
        assert(front[i] == records[i]);
        let k = ops.index_of(records[i]);
        assert(mvcc::ops_of(records, x)[k] == records[i]);
    } else {
        assert(mvcc::ops_of(records, x)[ops.len() as int] == records[i]);
    }
}

/// The marks of removals are those of the records that are removals.
proof fn marks_of_removals(ops: Seq<Entry>, ts: u64, g: Grave)
    ensures
        version::graves_of(ops, ts).contains(g) <==> g.ts == ts && exists|k: int|
            0 <= k < ops.len() && ((#[trigger] ops[k]).op matches Op::Del { txn, pre } && txn
                == g.txn && pre.table_id == g.table_id && pre.tuple.id == g.key),
    decreases ops.len(),
{
    if ops.len() > 0 {
        let front = ops.drop_last();
        let rest = version::graves_of(front, ts);
        let all = version::graves_of(ops, ts);
        marks_of_removals(front, ts, g);
        let n = ops.len() - 1;
        assert(ops.last() == ops[n]);
        if all.contains(g) {
            let i = all.index_of(g);
            if i < rest.len() {
                assert(rest[i] == g);
                let k = choose|k: int|
                    0 <= k < front.len() && ((#[trigger] front[k]).op matches Op::Del { txn, pre }
                        && txn == g.txn && pre.table_id == g.table_id && pre.tuple.id == g.key);
                assert(ops[k] == front[k]);
            } else {
                assert(ops[n].op is Del);
            }
        }
        if g.ts == ts && exists|k: int|
            0 <= k < ops.len() && ((#[trigger] ops[k]).op matches Op::Del { txn, pre } && txn
                == g.txn && pre.table_id == g.table_id && pre.tuple.id == g.key) {
            let k = choose|k: int|
                0 <= k < ops.len() && ((#[trigger] ops[k]).op matches Op::Del { txn, pre } && txn
                    == g.txn && pre.table_id == g.table_id && pre.tuple.id == g.key);
            if k < n {
                assert(front[k] == ops[k]);
                assert(rest.contains(g));
                assert(all[rest.index_of(g)] == g);
            } else {
                assert(all[rest.len() as int] == g);
            }
        }
    }
}

// ---------------------------------------------------------------------------
// Reads that are refused, and keys that are too long
// ---------------------------------------------------------------------------

/// Who may not read is told why, and nothing changes: the transaction has
/// finished, or the engine took it down, which is said once and with the
/// reason; or the table does not exist.
pub proof fn refused_read_says_why(
    before: Db,
    after: Db,
    table: TableIdType,
    x: u64,
    e: Fault,
)
    requires
        !db::may_read(before, table, x),
        db::cannot_read(before, after, table, x, e),
    ensures
        after.engine == before.engine,
        if before.engine@.txns.active.dom().contains(x) {
            !before.engine@.live.contains(table) && e is TableNotFound && after == before
        } else {
            &&& e == if before.forced().dom().contains(x) {
                Fault::SnapshotTooOld(before.forced()[x])
            } else {
                Fault::TransactionAlreadyFinished
            }
            &&& !after.forced().dom().contains(x)
        },
{
}

/// Whether a key is too long is up to the table that it is to go to, and only
/// where the index has no entry for it yet.
pub proof fn key_room_is_the_tables_own(db: Db, i: int, key: Key)
    requires
        db.wf(),
        0 <= i < db.tables@.len(),
    ensures
        db::key_fault(db, db.tables@[i].id, key) == if db.engine@.rows.dom().contains(
            Place { table: db.tables@[i].id, key },
        ) {
            None
        } else {
            table::entry_fault(db.tables@[i]@, key)
        },
{
    listed_is_found(db.tables@, i);
}

/// A table is found by its number.
proof fn listed_is_found(s: Seq<Table>, i: int)
    requires
        db::tables_apart(s),
        0 <= i < s.len(),
    ensures
        db::listed(s, s[i].id) == Some(s[i]@),
    decreases s.len(),
{
    if i < s.len() - 1 {
        let front = s.drop_last();
        assert forall|a: int, b: int| 0 <= a < b < front.len() implies (#[trigger] front[a]).id != (
        #[trigger] front[b]).id && front[a].name@ != front[b].name@ by {
            assert(s[a].id != s[b].id);
        }
        listed_is_found(front, i);
        assert(s[i].id != s[s.len() - 1].id);
    }
}

// ---------------------------------------------------------------------------
// One call after the other
// ---------------------------------------------------------------------------

/// Whoever inserts a row finds it, with the contents that were handed in, and
/// finds it in a scan of the table.
pub proof fn inserted_row_is_found(
    before: Db,
    after: Db,
    table: TableIdType,
    row: Row,
    x: u64,
    out: Option<Row>,
    all: Seq<Row>,
)
    requires
        before.wf(),
        after.wf(),
        before.room(2),
        db::wrote_row(before, after, table, x, db::insert_plan(before, table, row, x), None),
        db::answered(after, table, row.id, x, out),
        engine::scan_of(after.engine@, table, Viewer::Reader(x), all),
    ensures
        out matches Some(r) && r.id == row.id && r.data == row.data && all.contains(r),
{
    insert_is_read(before, after, table, row, x);
    scan_agrees_with_reads(after.engine@, table, Viewer::Reader(x), all, row.id, out->0);
}

/// Whoever updates a row finds the contents that were handed in, and finds them
/// in a scan of the table.
pub proof fn updated_row_is_found(
    before: Db,
    after: Db,
    table: TableIdType,
    row: Row,
    x: u64,
    out: Option<Row>,
    all: Seq<Row>,
)
    requires
        before.wf(),
        after.wf(),
        before.room(2),
        db::wrote_row(
            before,
            after,
            table,
            x,
            engine::update_plan(before.engine@, table, row, x),
            None,
        ),
        db::answered(after, table, row.id, x, out),
        engine::scan_of(after.engine@, table, Viewer::Reader(x), all),
    ensures
        out matches Some(r) && r.id == row.id && r.data == row.data && all.contains(r),
{
    update_is_read(before, after, table, row, x);
    scan_agrees_with_reads(after.engine@, table, Viewer::Reader(x), all, row.id, out->0);
}

/// Whoever removes a row gets what a find gave just before, finds nothing just
/// after, and finds no row of that key in a scan of the table.
pub proof fn removed_row_is_not_found(
    before: Db,
    after: Db,
    table: TableIdType,
    key: Key,
    x: u64,
    first: Option<Row>,
    gone: Row,
    second: Option<Row>,
    all: Seq<Row>,
    r: Row,
)
    requires
        before.wf(),
        after.wf(),
        before.room(2),
        db::answered(before, table, key, x, first),
        db::wrote_row(
            before,
            after,
            table,
            x,
            engine::remove_plan(before.engine@, table, key, x),
            None,
        ),
        db::removed(before, table, key, gone),
        db::answered(after, table, key, x, second),
        engine::scan_of(after.engine@, table, Viewer::Reader(x), all),
    ensures
        first == Some(gone),
        second is None,
        all.contains(r) ==> r.id != key,
{
    removal_returns_what_was_read(before, after, table, key, x, gone);
    scan_agrees_with_reads(after.engine@, table, Viewer::Reader(x), all, key, r);
}

/// What a transaction wrote last under a key is what everybody finds there who
/// begins after it committed, and what a scan of the table gives: the row that
/// the transaction found itself, or none if it found none.
pub proof fn committed_row_is_found_later(
    a: Db,
    b: Db,
    c: Db,
    x: u64,
    y: u64,
    durability: Durability,
    policy: ConflictPolicy,
    table: TableIdType,
    key: Key,
    own: Option<Row>,
    out: Option<Row>,
    all: Seq<Row>,
    r: Row,
)
    requires
        a.wf(),
        a.room(2),
        b.wf(),
        a.engine@.rows.dom().contains(Place { table, key }),
        a.engine@.rows[Place { table, key }].txn_id == Some(TransactionId(x)),
        db::answered(a, table, key, x, own),
        db::committed(a, b, x, durability, None),
        engine::scan_of(b.engine@, table, Viewer::Latest, all),
        db::began(b, c, policy, y),
        db::answered(c, table, key, y, out),
        b.room(1),
    ensures
        out == own,
        own matches Some(row) ==> all.contains(row),
        own is None && all.contains(r) ==> r.id != key,
{
    let p = Place { table, key };
    commit_publishes(a, b, x, durability, p);
    beginning_is_fresh(b, c, policy, y, y, p);
    if let Some(row) = own {
        scan_agrees_with_reads(b.engine@, table, Viewer::Latest, all, key, row);
        engine::look_keeps_key(a.engine@, Viewer::Reader(x), p);
    } else {
        scan_agrees_with_reads(b.engine@, table, Viewer::Latest, all, key, r);
    }
}

// ---------------------------------------------------------------------------
// Which error it is
// ---------------------------------------------------------------------------

/// An insert under a key whose newest version is a row, whoever wrote it and
/// whether that has committed or not, is told that the key is there; it changes
/// nothing and ends nothing. One whose newest version is a deletion mark is
/// never told so.
pub proof fn insert_is_told_of_a_row(
    before: Db,
    after: Db,
    table: TableIdType,
    row: Row,
    x: u64,
    failed: Option<Fault>,
)
    requires
        before.wf(),
        before.room(2),
        may_write(before, table, x),
        db::wrote_row(before, after, table, x, db::insert_plan(before, table, row, x), failed),
        before.engine@.rows.dom().contains(Place { table, key: row.id }),
    ensures
        !before.engine@.rows[Place { table, key: row.id }].tombstone ==> failed == Some(
            Fault::DuplicateKey(row.id),
        ) && after.engine@.rows == before.engine@.rows && after.engine@.txns == before.engine@.txns
            && after.queued() == before.queued(),
        before.engine@.rows[Place { table, key: row.id }].tombstone ==> (failed is None
            <==> up_to_date(before.engine@, x, Place { table, key: row.id })),
        before.engine@.rows[Place { table, key: row.id }].tombstone ==> !(failed matches Some(f)
            && f is DuplicateKey),
{
    let p = Place { table, key: row.id };
    assert(mvcc::row_ok(before.engine@, p, before.engine@.rows[p]));
}

/// An update or a removal of a row whose newest version the transaction does
/// not see meets a conflict, and what that comes to is what the transaction
/// said when it began.
pub proof fn update_and_removal_meet_conflicts(
    before: Db,
    after: Db,
    table: TableIdType,
    row: Row,
    x: u64,
    failed: Option<Fault>,
)
    requires
        before.wf(),
        before.room(2),
        may_write(before, table, x),
        !up_to_date(before.engine@, x, Place { table, key: row.id }),
        db::wrote_row(
            before,
            after,
            table,
            x,
            engine::update_plan(before.engine@, table, row, x),
            failed,
        ) || db::wrote_row(
            before,
            after,
            table,
            x,
            engine::remove_plan(before.engine@, table, row.id, x),
            failed,
        ),
    ensures
        failed == Some(
            match before.engine@.txns.active[x] {
                ConflictPolicy::ContinueOnConflict => Fault::WriteConflict(row.id),
                ConflictPolicy::AbortOnConflict => if before.fail_reverts {
                    Fault::Unknown("test: revert failure injected"@)
                } else {
                    Fault::WriteConflictTransactionAborted(row.id)
                },
            },
        ),
        after.engine@.txns.active.dom().contains(x) <==> before.engine@.txns.active[x]
            == ConflictPolicy::ContinueOnConflict,
{
    let p = Place { table, key: row.id };
    assert(mvcc::row_ok(before.engine@, p, before.engine@.rows[p]));
}

} // verus!

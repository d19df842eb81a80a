//! Reading and writing rows under transactions.
use vstd::prelude::*;
use vstd::string::*;

use crate::assoc;
use crate::clock::{LsnClock, LsnId};
use crate::error::{Fault, StoreError};
use crate::mvcc;
use crate::mvcc::{Core, Grave, Place, Sight, Viewer};
use crate::operation;
use crate::operation::{Entry, Image, LogRecord, Op, Operation, Record};
use crate::rows;
use crate::rows::{Item, RowStore};
use crate::steps;
use crate::table::TableIdType;
use crate::text;
use crate::text::{push_byte_list, push_decimal};
use crate::tuple;
use crate::tuple::{DBIdType, Key, Row, Tuple};
use crate::txn::{ConflictPolicy, TransactionId, TransactionManager};
use crate::version;
use crate::version::{Tombstone, Vacuumed, VersionStore};

verus! {

/// Whose eyes a version is looked at with.
#[derive(Clone, Copy, Debug, PartialEq, Eq, Structural)]
pub enum Look {
    /// Everything that has committed is visible.
    Latest,
    /// What this transaction may see.
    Reader(TransactionId),
}

impl View for Look {
    type V = Viewer;

    open spec fn view(&self) -> Viewer {
        match *self {
            Look::Latest => Viewer::Latest,
            Look::Reader(id) => Viewer::Reader(id.0),
        }
    }
}

/// What looking for a visible version comes to.
pub enum Visibility {
    /// This version is the one to see.
    Found(Tuple),
    /// No earlier version ever existed.
    NoAncestor,
    /// An earlier version existed, but its record is gone.
    MissingUndoRecord,
}

/// Rows, transactions and versions, with the clock that orders them and the
/// records that are still to be logged.
pub struct Engine {
    pub rows: RowStore,
    pub txns: TransactionManager,
    pub versions: VersionStore,
    pub clock: LsnClock,
    /// The tables that exist.
    pub live: Vec<TableIdType>,
    /// No table has this number yet, nor any above it.
    pub next_table: Ghost<u64>,
    /// What has happened and is to be appended to the log, in order.
    pub out: Vec<LogRecord>,
}

/// The tables in a list.
pub open spec fn table_set(s: Seq<TableIdType>) -> Set<TableIdType> {
    Set::new(|x: TableIdType| s.contains(x))
}

impl View for Engine {
    type V = Core;

    open spec fn view(&self) -> Core {
        Core {
            live: table_set(self.live@),
            next_table: self.next_table@,
            rows: self.rows@,
            txns: self.txns@,
            records: self.versions@.records,
            pending: self.versions@.pending,
            counter: self.clock.counter as nat,
        }
    }
}

// ---------------------------------------------------------------------------
// What a write comes to
// ---------------------------------------------------------------------------

/// What an insert comes to: an operation and the row's new version, or why
/// not. A deletion mark that the transaction can see is built on.
pub open spec fn insert_plan(c: Core, table: TableIdType, row: Row, x: u64) -> Result<
    (Op, Row),
    Fault,
> {
    let p = Place { table, key: row.id };
    let txn = TransactionId(x);
    if !c.rows.dom().contains(p) {
        let new = Row { txn_id: Some(txn), pre_lsn: None, tombstone: false, ..row };
        Ok((Op::Add { txn, post: Image { table_id: table, tuple: new, data_page: None } }, new))
    } else {
        let current = c.rows[p];
        if !current.tombstone {
            Err(Fault::DuplicateKey(row.id))
        } else if !c.txns.visible((current.txn_id->0).0, x) {
            Err(Fault::WriteConflict(row.id))
        } else {
            let revived = Row {
                txn_id: Some(txn),
                pre_lsn: Some(LsnId(c.counter as u64)),
                data: row.data,
                tombstone: false,
                ..current
            };
            Ok(
                (
                    Op::Mod {
                        txn,
                        pre: Image { table_id: table, tuple: current, data_page: None },
                        post: Image { table_id: table, tuple: revived, data_page: None },
                    },
                    revived,
                ),
            )
        }
    }
}

/// What an update comes to.
pub open spec fn update_plan(c: Core, table: TableIdType, row: Row, x: u64) -> Result<
    (Op, Row),
    Fault,
> {
    let p = Place { table, key: row.id };
    let txn = TransactionId(x);
    if !c.rows.dom().contains(p) {
        Err(Fault::KeyNotFound(row.id))
    } else {
        let current = c.rows[p];
        if !c.txns.visible((current.txn_id->0).0, x) {
            Err(Fault::WriteConflict(row.id))
        } else if current.tombstone {
            Err(Fault::KeyNotFound(row.id))
        } else {
            let updated = Row {
                txn_id: Some(txn),
                pre_lsn: Some(LsnId(c.counter as u64)),
                data: row.data,
                ..current
            };
            Ok(
                (
                    Op::Mod {
                        txn,
                        pre: Image { table_id: table, tuple: current, data_page: None },
                        post: Image { table_id: table, tuple: updated, data_page: None },
                    },
                    updated,
                ),
            )
        }
    }
}

/// What a removal comes to.
pub open spec fn remove_plan(c: Core, table: TableIdType, key: Key, x: u64) -> Result<
    (Op, Row),
    Fault,
> {
    let p = Place { table, key };
    let txn = TransactionId(x);
    if !c.rows.dom().contains(p) {
        Err(Fault::KeyNotFound(key))
    } else {
        let current = c.rows[p];
        if !c.txns.visible((current.txn_id->0).0, x) {
            Err(Fault::WriteConflict(key))
        } else if current.tombstone {
            Err(Fault::KeyNotFound(key))
        } else {
            let marked = Row {
                txn_id: Some(txn),
                pre_lsn: Some(LsnId(c.counter as u64)),
                tombstone: true,
                ..current
            };
            Ok(
                (
                    Op::Del {
                        txn,
                        pre: Image { table_id: table, tuple: current, data_page: None },
                    },
                    marked,
                ),
            )
        }
    }
}

/// May the transaction write to the table now?
pub open spec fn may_write(c: Core, table: TableIdType, x: u64) -> bool {
    c.wf() && c.counter < u64::MAX && c.txns.active.dom().contains(x) && c.live.contains(table)
}

/// Whatever an insert comes to is a write that may happen.
pub proof fn insert_plan_ok(c: Core, table: TableIdType, row: Row, x: u64)
    requires
        may_write(c, table, x),
    ensures
        insert_plan(c, table, row, x) matches Ok((op, new)) ==> steps::write_ok(c, op, new)
            && mvcc::op_place(op) == (Place { table, key: row.id }) && mvcc::op_txn(op) == x,
{
    let p = Place { table, key: row.id };
    if c.rows.dom().contains(p) {
        assert(mvcc::row_ok(c, p, c.rows[p]));
    }
}

/// Whatever an update comes to is a write that may happen.
pub proof fn update_plan_ok(c: Core, table: TableIdType, row: Row, x: u64)
    requires
        may_write(c, table, x),
    ensures
        update_plan(c, table, row, x) matches Ok((op, new)) ==> steps::write_ok(c, op, new)
            && mvcc::op_place(op) == (Place { table, key: row.id }) && mvcc::op_txn(op) == x,
{
    let p = Place { table, key: row.id };
    if c.rows.dom().contains(p) {
        assert(mvcc::row_ok(c, p, c.rows[p]));
    }
}

/// Whatever a removal comes to is a write that may happen.
pub proof fn remove_plan_ok(c: Core, table: TableIdType, key: Key, x: u64)
    requires
        may_write(c, table, x),
    ensures
        remove_plan(c, table, key, x) matches Ok((op, new)) ==> steps::write_ok(c, op, new)
            && mvcc::op_place(op) == (Place { table, key }) && mvcc::op_txn(op) == x,
{
    let p = Place { table, key };
    if c.rows.dom().contains(p) {
        assert(mvcc::row_ok(c, p, c.rows[p]));
    }
}

/// What a write did, as its plan says: the write, or the error and nothing but
/// a number gone.
pub open spec fn wrote_as_planned(
    before: Engine,
    after: Engine,
    plan: Result<(Op, Row), Fault>,
    failed: Option<Fault>,
) -> bool {
    match plan {
        Ok((op, new)) => failed is None && after@ == before@.wrote(op, new) && operation::entries(
            after.out@,
        ) == operation::entries(before.out@).push(
            Entry { lsn: LsnId(before.clock.counter), op },
        ),
        Err(f) => failed == Some(f) && after@ == before@.tick() && after.out@ == before.out@,
    }
}

/// The error of a result, if it is one.
pub open spec fn fault_of<T>(r: Result<T, StoreError>) -> Option<Fault> {
    match r {
        Ok(_) => None,
        Err(e) => Some(e@),
    }
}

/// A key, as it is printed for a developer.
pub open spec fn key_debug(k: Key) -> Seq<char> {
    match k {
        Key::Int(n) => "Int("@ + text::decimal(n as nat) + ")"@,
        Key::Bytes(b) => "Bytes("@ + text::byte_list(b) + ")"@,
    }
}

/// The message for a version that does not say who wrote it.
pub open spec fn no_writer_text(k: Key) -> Seq<char> {
    "tuple "@ + key_debug(k) + " has no txn_id"@
}

/// The message for a version record that is gone.
pub open spec fn missing_text(k: Key, reader: u64, oldest: Option<u64>) -> Seq<char> {
    "version record missing for pre_lsn of "@ + key_debug(k) + " (reader "@ + text::decimal(
        reader as nat,
    ) + ", oldest active "@ + opt_debug(oldest) + ")"@
}

/// An optional number, as it is printed for a developer.
pub open spec fn opt_debug(o: Option<u64>) -> Seq<char> {
    match o {
        None => "None"@,
        Some(n) => "Some("@ + text::decimal(n as nat) + ")"@,
    }
}

/// A key, as it is printed for a developer.
fn key_debug_text(k: &DBIdType) -> (out: String)
    ensures
        out@ == key_debug(k@),
{
    match k {
        DBIdType::Int(n) => {
            let mut out = "Int(".to_owned();
            push_decimal(&mut out, *n);
            out.append(")");
            out
        },
        DBIdType::Bytes(b) => {
            let mut out = "Bytes(".to_owned();
            push_byte_list(&mut out, b);
            out.append(")");
            out
        },
    }
}

/// The message for a version that does not say who wrote it.
fn no_writer_message(k: &DBIdType) -> (out: String)
    ensures
        out@ == no_writer_text(k@),
{
    let mut out = "tuple ".to_owned();
    out.append(key_debug_text(k).as_str());
    out.append(" has no txn_id");
    out
}

/// The message for a version record that is gone.
fn missing_message(k: &DBIdType, reader: u64, oldest: Option<u64>) -> (out: String)
    ensures
        out@ == missing_text(k@, reader, oldest),
{
    let mut out = "version record missing for pre_lsn of ".to_owned();
    out.append(key_debug_text(k).as_str());
    out.append(" (reader ");
    push_decimal(&mut out, reader);
    out.append(", oldest active ");
    match oldest {
        None => {
            out.append("None");
        },
        Some(n) => {
            let mut some = "Some(".to_owned();
            push_decimal(&mut some, n);
            some.append(")");
            out.append(some.as_str());
        },
    }
    out.append(")");
    out
}

impl Engine {
    /// Is everything in order?
    pub open spec fn wf(&self) -> bool {
        &&& self.rows.wf()
        &&& self.txns.wf()
        &&& self.versions.wf()
        &&& self@.wf()
    }

    /// Does the table exist?
    pub fn has_table(&self, table: TableIdType) -> (r: bool)
        ensures
            r == self@.live.contains(table),
    {
        for i in 0..self.live.len()
            invariant
                forall|k: int| 0 <= k < i ==> self.live@[k] != table,
        {
            if self.live[i].0 == table.0 {
                assert(self.live@.contains(self.live@[i as int]));
                return true;
            }
        }
        false
    }

    /// Does the viewer see what `writer` wrote?
    fn sees(&self, look: Look, writer: &TransactionId) -> (r: bool)
        requires
            self.txns.wf(),
        ensures
            r == mvcc::sees(self@.txns, look@, writer.0),
    {
        match look {
            Look::Latest => self.txns.is_committed(writer),
            Look::Reader(reader) => self.txns.is_visible(writer, &reader),
        }
    }

    /// Goes back from a version to the newest one that the viewer sees.
    pub fn resolve_visible(&self, tuple: &Tuple, look: Look) -> (r: Result<Visibility, StoreError>)
        requires
            self.wf(),
        ensures
            match mvcc::resolve(self@.map(), self@.txns, look@, tuple@) {
                Sight::Found(row) => r matches Ok(Visibility::Found(t)) && t@ == row,
                Sight::NoAncestor => r matches Ok(Visibility::NoAncestor),
                Sight::MissingUndoRecord => r matches Ok(Visibility::MissingUndoRecord),
                Sight::NoWriter => r matches Err(e) && e@ == Fault::Corruption(
                    no_writer_text(tuple@.id),
                ),
            },
    {
        let writer = match tuple.txn_id {
            Some(w) => w,
            None => {
                return Err(StoreError::Corruption(no_writer_message(&tuple.id)));
            },
        };
        if self.sees(look, &writer) {
            return Ok(Visibility::Found(tuple.clone()));
        }
        let mut pre: Option<LsnId> = tuple.pre_lsn;
        let ghost mut here = tuple@;
        loop
            invariant
                self.wf(),
                here.pre_lsn == pre,
                mvcc::resolve(self@.map(), self@.txns, look@, tuple@) == mvcc::walk(
                    self@.map(),
                    self@.txns,
                    look@,
                    here,
                ),
            decreases
                    (match pre {
                        Some(l) => l.0 as int + 1,
                        None => 0,
                    }),
        {
            let lsn = match pre {
                Some(l) => l,
                None => {
                    return Ok(Visibility::NoAncestor);
                },
            };
            let op = match self.versions.find(lsn) {
                Some(op) => op,
                None => {
                    return Ok(Visibility::MissingUndoRecord);
                },
            };
            let next: &Tuple = match op {
                Operation::Add { post, .. } => &post.tuple,
                Operation::Mod { pre: before, .. } => &before.tuple,
                Operation::Del { pre: before, .. } => &before.tuple,
                _ => {
                    return Ok(Visibility::MissingUndoRecord);
                },
            };
            let w = match next.txn_id {
                Some(w) => w,
                None => {
                    return Ok(Visibility::NoAncestor);
                },
            };
            if self.sees(look, &w) {
                return Ok(Visibility::Found(next.clone()));
            }
            proof {
                let i = mvcc::by_lsn_find(self@.records, lsn.0);
                assert(mvcc::record_ok(self@, self@.records[i]));
                here = next@;
            }
            pre = next.pre_lsn;
        }
    }

    /// The newest version that has committed, whoever is reading.
    pub fn find_last_committed(&self, tuple: &Tuple) -> (r: Result<Option<Tuple>, StoreError>)
        requires
            self.wf(),
        ensures
            match mvcc::resolve(self@.map(), self@.txns, Viewer::Latest, tuple@) {
                Sight::Found(row) => r matches Ok(Some(t)) && t@ == row,
                Sight::NoAncestor => r matches Ok(None),
                Sight::MissingUndoRecord => r matches Ok(None),
                Sight::NoWriter => r matches Err(e) && e@ == Fault::Corruption(
                    no_writer_text(tuple@.id),
                ),
            },
    {
        match self.resolve_visible(tuple, Look::Latest) {
            Ok(Visibility::Found(t)) => Ok(Some(t)),
            Ok(Visibility::NoAncestor) => Ok(None),
            Ok(Visibility::MissingUndoRecord) => Ok(None),
            Err(e) => Err(e),
        }
    }

    /// The version that belongs to the reader's snapshot.
    pub fn find_visible_to(&self, tuple: &Tuple, reader: &TransactionId) -> (r: Result<
        Option<Tuple>,
        StoreError,
    >)
        requires
            self.wf(),
        ensures
            match mvcc::resolve(self@.map(), self@.txns, Viewer::Reader(reader.0), tuple@) {
                Sight::Found(row) => r matches Ok(Some(t)) && t@ == row,
                Sight::NoAncestor => r matches Ok(None),
                Sight::MissingUndoRecord => r matches Err(e) && e@ == Fault::Corruption(
                    missing_text(tuple@.id, reader.0, self@.txns.oldest_active()),
                ),
                Sight::NoWriter => r matches Err(e) && e@ == Fault::Corruption(
                    no_writer_text(tuple@.id),
                ),
            },
    {
        match self.resolve_visible(tuple, Look::Reader(*reader)) {
            Ok(Visibility::Found(t)) => Ok(Some(t)),
            Ok(Visibility::NoAncestor) => Ok(None),
            Ok(Visibility::MissingUndoRecord) => Err(
                StoreError::Corruption(
                    missing_message(&tuple.id, reader.0, self.txns.oldest_active()),
                ),
            ),
            Err(e) => Err(e),
        }
    }

    /// What an active transaction reads under a key: never an error, since no
    /// version that it can need is ever dropped.
    pub fn read(&self, table: TableIdType, key: &DBIdType, reader: &TransactionId) -> (r: Result<
        Option<Tuple>,
        StoreError,
    >)
        requires
            self.wf(),
            self@.txns.active.dom().contains(reader.0),
        ensures
            r matches Ok(found) && match self@.read(
                Viewer::Reader(reader.0),
                Place { table, key: key@ },
            ) {
                Some(row) => found matches Some(t) && t@ == row,
                None => found is None,
            },
    {
        let ghost p = Place { table, key: key@ };
        let ghost v = Viewer::Reader(reader.0);
        proof {
            assert(mvcc::may_look(self@.txns, v));
            assert(mvcc::definite(self@.look(v, p)));
        }
        match self.rows.get(table, key) {
            None => Ok(None),
            Some(tuple) => match self.find_visible_to(tuple, reader) {
                Ok(Some(t)) => if t.is_tombstoned() {
                    Ok(None)
                } else {
                    Ok(Some(t))
                },
                Ok(None) => Ok(None),
                Err(e) => Err(e),
            },
        }
    }

    /// May `txn` not build on the row's current version?
    pub fn check_write_conflict(&self, current: &Tuple, txn: &TransactionId) -> (r: Result<
        (),
        StoreError,
    >)
        requires
            self.txns.wf(),
            current@.txn_id is Some,
        ensures
            match r {
                Ok(()) => self@.txns.visible((current@.txn_id->0).0, txn.0),
                Err(e) => !self@.txns.visible((current@.txn_id->0).0, txn.0) && e@
                    == Fault::WriteConflict(current@.id),
            },
    {
        let writer = match current.txn_id {
            Some(w) => w,
            None => TransactionId(0),
        };
        if self.txns.conflicts(&writer, txn) {
            Err(StoreError::WriteConflict(current.id.clone()))
        } else {
            Ok(())
        }
    }

    /// Takes the next number from the clock.
    pub fn next_lsn(&mut self) -> (lsn: LsnId)
        requires
            old(self).wf(),
            old(self).clock.counter < u64::MAX,
        ensures
            final(self).wf(),
            lsn.0 == old(self).clock.counter,
            final(self)@ == old(self)@.tick(),
            final(self).out == old(self).out,
            final(self).versions == old(self).versions,
            final(self).clock.last_written == old(self).clock.last_written,
            final(self).live == old(self).live,
            final(self).txns == old(self).txns,
            final(self).rows == old(self).rows,
    {
        proof {
            steps::tick_keeps(self@);
        }
        self.clock.next_lsn()
    }

    /// Writes a version under the number `lsn`, which was just taken: first
    /// the record that a reader goes back through, then the log, then the row.
    fn apply(&mut self, lsn: LsnId, table: TableIdType, op: Operation, new: Tuple)
        requires
            old(self).rows.wf(),
            old(self).txns.wf(),
            old(self).versions.wf(),
            lsn.0 + 1 == old(self).clock.counter,
            (Core { counter: lsn.0 as nat, ..old(self)@ }).wf(),
            steps::write_ok(Core { counter: lsn.0 as nat, ..old(self)@ }, op@, new@),
            mvcc::op_place(op@) == (Place { table, key: new@.id }),
        ensures
            final(self).wf(),
            final(self)@ == (Core { counter: lsn.0 as nat, ..old(self)@ }).wrote(op@, new@),
            operation::entries(final(self).out@) == operation::entries(old(self).out@).push(
                Entry { lsn, op: op@ },
            ),
            final(self).clock == old(self).clock,
            final(self).live == old(self).live,
            final(self).txns == old(self).txns,
            final(self).versions@.tombstones == old(self).versions@.tombstones,
    {
        let ghost c = Core { counter: lsn.0 as nat, ..self@ };
        proof {
            steps::wrote_keeps(c, op@, new@);
            assert forall|i: int| 0 <= i < self.versions@.records.len() implies (
            #[trigger] self.versions@.records[i]).lsn.0 < lsn.0 by {
                assert(mvcc::record_ok(c, c.records[i]));
            }
        }
        let ghost logged = self.out@;
        let record = LogRecord { lsn, operation: op.clone() };
        self.versions.insert(lsn, op);
        self.out.push(record);
        assert(operation::entries(self.out@) =~= operation::entries(logged).push(record@));
        self.rows.put(table, new);
    }

    /// Inserts a row. A key that exists is refused, unless all there is under
    /// it is a deletion mark.
    pub fn insert(&mut self, table: TableIdType, tuple: Tuple, txn: &TransactionId) -> (r: Result<
        (),
        StoreError,
    >)
        requires
            old(self).wf(),
            may_write(old(self)@, table, txn.0),
        ensures
            final(self).wf(),
            wrote_as_planned(
                *old(self),
                *final(self),
                insert_plan(old(self)@, table, tuple@, txn.0),
                fault_of(r),
            ),
            final(self).live == old(self).live,
            final(self).txns == old(self).txns,
            final(self).clock.last_written == old(self).clock.last_written,
            final(self).versions@.tombstones == old(self).versions@.tombstones,
    {
        let ghost c = self@;
        proof {
            insert_plan_ok(c, table, tuple@, txn.0);
        }
        let lsn = self.next_lsn();
        assert((Core { counter: lsn.0 as nat, ..self@ }) == c);
        let key = tuple.id.clone();
        let current = match self.rows.get(table, &tuple.id) {
            None => None,
            Some(t) => Some(t.clone()),
        };
        match current {
            None => {
                let mut new = tuple;
                new.set_txn_id(*txn);
                new.set_pre_lsn_none();
                new.clear_tombstone();
                let op = Operation::Add { txn: *txn, post: Record::new(table, new.clone(), None) };
                self.apply(lsn, table, op, new);
                Ok(())
            },
            Some(cur) => {
                proof {
                    assert(mvcc::row_ok(c, Place { table, key: key@ }, cur@));
                }
                if !cur.is_tombstoned() {
                    return Err(StoreError::DuplicateKey(key));
                }
                match self.check_write_conflict(&cur, txn) {
                    Err(e) => Err(e),
                    Ok(()) => {
                        let mut revived = cur.clone();
                        revived.set_txn_id(*txn);
                        revived.set_pre_lsn(lsn);
                        revived.set_data(&tuple.data);
                        revived.clear_tombstone();
                        let op = Operation::Mod {
                            txn: *txn,
                            pre: Record::new(table, cur, None),
                            post: Record::new(table, revived.clone(), None),
                        };
                        self.apply(lsn, table, op, revived);
                        Ok(())
                    },
                }
            },
        }
    }

    /// The version that a write of `txn` builds on: its own, or the newest
    /// that has committed.
    fn base_of(&self, current: Tuple, txn: &TransactionId) -> (r: Result<Option<Tuple>, StoreError>)
        requires
            self.wf(),
            current@.txn_id matches Some(w) && self@.txns.visible(w.0, txn.0),
        ensures
            r matches Ok(Some(t)) && t@ == current@,
    {
        let own: bool = match current.txn_id {
            Some(w) => w.0 == txn.0,
            None => false,
        };
        if own {
            Ok(Some(current))
        } else {
            self.find_last_committed(&current)
        }
    }

    /// Gives a row new contents.
    pub fn update(&mut self, table: TableIdType, tuple: Tuple, txn: &TransactionId) -> (r: Result<
        (),
        StoreError,
    >)
        requires
            old(self).wf(),
            may_write(old(self)@, table, txn.0),
        ensures
            final(self).wf(),
            wrote_as_planned(
                *old(self),
                *final(self),
                update_plan(old(self)@, table, tuple@, txn.0),
                fault_of(r),
            ),
            final(self).live == old(self).live,
            final(self).txns == old(self).txns,
            final(self).clock.last_written == old(self).clock.last_written,
            final(self).versions@.tombstones == old(self).versions@.tombstones,
    {
        let ghost c = self@;
        proof {
            update_plan_ok(c, table, tuple@, txn.0);
        }
        let lsn = self.next_lsn();
        assert((Core { counter: lsn.0 as nat, ..self@ }) == c);
        let key = tuple.id.clone();
        let current = match self.rows.get(table, &tuple.id) {
            None => {
                return Err(StoreError::KeyNotFound(key));
            },
            Some(t) => t.clone(),
        };
        proof {
            assert(mvcc::row_ok(c, Place { table, key: key@ }, current@));
        }
        match self.check_write_conflict(&current, txn) {
            Err(e) => {
                return Err(e);
            },
            Ok(()) => {},
        }
        let old_tuple = match self.base_of(current, txn) {
            Ok(Some(t)) => t,
            Ok(None) => {
                return Err(StoreError::KeyNotFound(key));
            },
            Err(e) => {
                return Err(e);
            },
        };
        if old_tuple.is_tombstoned() {
            return Err(StoreError::KeyNotFound(key));
        }
        let mut updated = old_tuple.clone();
        updated.set_txn_id(*txn);
        updated.set_pre_lsn(lsn);
        updated.set_data(&tuple.data);
        let op = Operation::Mod {
            txn: *txn,
            pre: Record::new(table, old_tuple, None),
            post: Record::new(table, updated.clone(), None),
        };
        self.apply(lsn, table, op, updated);
        Ok(())
    }

    /// Puts a deletion mark in a row's place and returns what was there.
    pub fn remove(&mut self, table: TableIdType, key: DBIdType, txn: &TransactionId) -> (r: Result<
        Tuple,
        StoreError,
    >)
        requires
            old(self).wf(),
            may_write(old(self)@, table, txn.0),
        ensures
            final(self).wf(),
            wrote_as_planned(
                *old(self),
                *final(self),
                remove_plan(old(self)@, table, key@, txn.0),
                fault_of(r),
            ),
            r matches Ok(t) ==> t@ == old(self)@.rows[Place { table, key: key@ }],
            final(self).live == old(self).live,
            final(self).txns == old(self).txns,
            final(self).clock.last_written == old(self).clock.last_written,
            final(self).versions@.tombstones == old(self).versions@.tombstones,
    {
        let ghost c = self@;
        proof {
            remove_plan_ok(c, table, key@, txn.0);
        }
        let lsn = self.next_lsn();
        assert((Core { counter: lsn.0 as nat, ..self@ }) == c);
        let current = match self.rows.get(table, &key) {
            None => {
                return Err(StoreError::KeyNotFound(key));
            },
            Some(t) => t.clone(),
        };
        proof {
            assert(mvcc::row_ok(c, Place { table, key: key@ }, current@));
        }
        match self.check_write_conflict(&current, txn) {
            Err(e) => {
                return Err(e);
            },
            Ok(()) => {},
        }
        let old_tuple = match self.base_of(current, txn) {
            Ok(Some(t)) => t,
            Ok(None) => {
                return Err(StoreError::KeyNotFound(key));
            },
            Err(e) => {
                return Err(e);
            },
        };
        if old_tuple.is_tombstoned() {
            return Err(StoreError::KeyNotFound(key));
        }
        let mut marked = old_tuple.clone();
        marked.set_txn_id(*txn);
        marked.set_tombstone();
        marked.set_pre_lsn(lsn);
        let before = old_tuple.clone();
        let op = Operation::Del { txn: *txn, pre: Record::new(table, old_tuple, None) };
        self.apply(lsn, table, op, marked);
        Ok(before)
    }

    /// A transaction begins.
    pub fn begin(&mut self, policy: ConflictPolicy) -> (id: TransactionId)
        requires
            old(self).wf(),
            old(self).clock.counter < u64::MAX,
        ensures
            final(self).wf(),
            id.0 == old(self).clock.counter,
            final(self)@ == old(self)@.begun(policy),
            final(self).out == old(self).out,
            final(self).live == old(self).live,
            final(self).versions == old(self).versions,
            final(self).clock.last_written == old(self).clock.last_written,
            final(self).txns.active@.len() == old(self).txns.active@.len() + 1,
            final(self).txns.aborting == old(self).txns.aborting,
            final(self).txns.committed == old(self).txns.committed,
    {
        proof {
            steps::begun_keeps(self@, policy);
            assert(!self@.txns.active.dom().contains(self.clock.counter));
        }
        let lsn = self.clock.next_lsn();
        self.txns.create_transaction(lsn.0, policy);
        TransactionId(lsn.0)
    }

    /// A transaction commits: the commit is logged, and from now on whoever
    /// begins sees its writes.
    pub fn commit(&mut self, id: TransactionId) -> (lsn: LsnId)
        requires
            old(self).wf(),
            old(self).clock.counter < u64::MAX,
            old(self)@.txns.active.dom().contains(id.0),
        ensures
            final(self).wf(),
            lsn.0 == old(self).clock.counter,
            final(self)@ == old(self)@.did_commit(id.0),
            operation::entries(final(self).out@) == operation::entries(old(self).out@).push(
                Entry { lsn, op: Op::Commit(id) },
            ),
            final(self).versions@.tombstones == old(self).versions@.tombstones + version::graves_of(
                mvcc::ops_of(old(self)@.records, id.0),
                lsn.0,
            ),
            final(self).live == old(self).live,
            final(self).clock.last_written == old(self).clock.last_written,
            final(self).txns.active@.len() == old(self).txns.active@.len() - 1,
            final(self).txns.aborting == old(self).txns.aborting,
    {
        proof {
            steps::commit_keeps(self@, id.0);
            assert(self@.txns.unfinished(id.0));
        }
        let lsn = self.clock.next_lsn();
        let ghost logged = self.out@;
        let record = LogRecord { lsn, operation: Operation::Commit(id) };
        self.out.push(record);
        assert(operation::entries(self.out@) =~= operation::entries(logged).push(record@));
        let _done = self.txns.commit(id, lsn.0);
        self.versions.mark_committed(id, lsn.0);
        lsn
    }

    /// Takes one write back, if the row still is what `id` wrote.
    pub fn revert_one(&mut self, op: &Operation, id: &TransactionId)
        requires
            old(self).rows.wf(),
        ensures
            final(self).rows.wf(),
            final(self).rows@ == mvcc::revert_one(old(self).rows@, old(self)@.live, op@, id.0),
            *final(self) == (Engine { rows: final(self).rows, ..*old(self) }),
    {
        match op {
            Operation::Add { post, .. } => {
                if self.has_table(post.table_id) {
                    let own: bool = match self.rows.get(post.table_id, &post.tuple.id) {
                        Some(t) => match t.txn_id {
                            Some(w) => w.0 == id.0,
                            None => false,
                        },
                        None => false,
                    };
                    if own {
                        self.rows.remove(post.table_id, &post.tuple.id);
                    }
                }
            },
            Operation::Mod { pre, .. } => {
                self.restore(pre, id);
            },
            Operation::Del { pre, .. } => {
                self.restore(pre, id);
            },
            _ => {},
        }
    }

    /// Brings a version back, if the row still is what `id` wrote.
    fn restore(&mut self, pre: &Record, id: &TransactionId)
        requires
            old(self).rows.wf(),
        ensures
            final(self).rows.wf(),
            final(self).rows@ == ({
                let p = Place { table: pre@.table_id, key: pre@.tuple.id };
                if old(self)@.live.contains(p.table) && old(self).rows@.dom().contains(p) && old(
                    self,
                ).rows@[p].txn_id == Some(*id) {
                    old(self).rows@.insert(p, pre@.tuple)
                } else {
                    old(self).rows@
                }
            }),
            *final(self) == (Engine { rows: final(self).rows, ..*old(self) }),
    {
        if self.has_table(pre.table_id) {
            let own: bool = match self.rows.get(pre.table_id, &pre.tuple.id) {
                Some(t) => match t.txn_id {
                    Some(w) => w.0 == id.0,
                    None => false,
                },
                None => false,
            };
            if own {
                self.rows.put(pre.table_id, pre.tuple.clone());
            }
        }
    }

    /// Takes all of a transaction's writes back, the newest first.
    fn revert(&mut self, id: &TransactionId)
        requires
            old(self).rows.wf(),
        ensures
            final(self).rows.wf(),
            final(self).rows@ == mvcc::revert_all(
                old(self).rows@,
                old(self)@.live,
                mvcc::ops_of(old(self)@.records, id.0),
                id.0,
            ),
            *final(self) == (Engine { rows: final(self).rows, ..*old(self) }),
    {
        let ops = self.versions.ops_of(id);
        let ghost es = operation::entries(ops@);
        let ghost live = self@.live;
        let mut i: usize = ops.len();
        assert(es.take(i as int) =~= es);
        while i > 0
            invariant
                i <= ops@.len(),
                es == operation::entries(ops@),
                live == old(self)@.live,
                self.rows.wf(),
                *self == (Engine { rows: self.rows, ..*old(self) }),
                mvcc::revert_all(old(self).rows@, live, es, id.0) == mvcc::revert_all(
                    self.rows@,
                    live,
                    es.take(i as int),
                    id.0,
                ),
            decreases i,
        {
            i = i - 1;
            proof {
                assert(es.take(i + 1).drop_last() =~= es.take(i as int));
                assert(es.take(i + 1).last() == es[i as int]);
                assert(es[i as int] == ops@[i as int]@);
            }
            self.revert_one(&ops[i].operation, id);
        }
        assert(es.take(0) =~= seq![]);
    }

    /// Finishes an abort: the writes are taken back, that is logged, and the
    /// transaction is forgotten.
    pub fn finish_abort(&mut self, id: TransactionId)
        requires
            old(self).wf(),
            old(self).clock.counter < u64::MAX,
            old(self)@.txns.aborting.contains(id.0),
        ensures
            final(self).wf(),
            final(self)@ == old(self)@.aborted(id.0),
            operation::entries(final(self).out@) == operation::entries(old(self).out@).push(
                Entry { lsn: LsnId(old(self).clock.counter), op: Op::Rollback(id) },
            ),
            final(self).live == old(self).live,
            final(self).clock.last_written == old(self).clock.last_written,
            final(self).versions@.tombstones == old(self).versions@.tombstones,
            final(self).txns.active == old(self).txns.active,
            final(self).txns.committed == old(self).txns.committed,
    {
        proof {
            steps::aborted_keeps(self@, id.0);
        }
        self.revert(&id);
        let lsn = self.clock.next_lsn();
        let ghost logged = self.out@;
        let record = LogRecord { lsn, operation: Operation::Rollback(id) };
        self.out.push(record);
        assert(operation::entries(self.out@) =~= operation::entries(logged).push(record@));
        self.versions.discard(&id);
        self.txns.abort_complete(&id);
    }

    /// Begins to roll an active transaction back: from here on nobody sees its
    /// writes.
    pub fn start_abort(&mut self, id: TransactionId)
        requires
            old(self).wf(),
            old(self)@.txns.active.dom().contains(id.0),
        ensures
            final(self).wf(),
            final(self)@ == old(self)@.aborting_now(id.0),
            *final(self) == (Engine { txns: final(self).txns, ..*old(self) }),
            final(self).txns.active@.len() == old(self).txns.active@.len() - 1,
            final(self).txns.aborting@.len() == old(self).txns.aborting@.len() + 1,
            final(self).txns.committed == old(self).txns.committed,
    {
        proof {
            steps::aborting_keeps(self@, id.0);
        }
        let _started = self.txns.abort(id);
    }

    /// Rolls an active transaction back.
    pub fn abort(&mut self, id: TransactionId)
        requires
            old(self).wf(),
            old(self).clock.counter < u64::MAX,
            old(self)@.txns.active.dom().contains(id.0),
        ensures
            final(self).wf(),
            final(self)@ == old(self)@.aborting_now(id.0).aborted(id.0),
            operation::entries(final(self).out@) == operation::entries(old(self).out@).push(
                Entry { lsn: LsnId(old(self).clock.counter), op: Op::Rollback(id) },
            ),
            final(self).live == old(self).live,
            final(self).clock.last_written == old(self).clock.last_written,
            final(self).versions@.tombstones == old(self).versions@.tombstones,
            final(self).txns.active@.len() == old(self).txns.active@.len() - 1,
            final(self).txns.committed == old(self).txns.committed,
    {
        self.start_abort(id);
        self.finish_abort(id);
    }

    /// Drops the records that no reader can need, and forgets the commits that
    /// every reader sees.
    pub fn vacuum(&mut self) -> (v: Vacuumed)
        requires
            old(self).wf(),
        ensures
            final(self).wf(),
            final(self)@ == old(self)@.pruned(old(self)@.txns.oldest_active()).vacuumed(
                old(self)@.txns.oldest_active(),
            ),
            version::graves(v.tombstones@) == version::released_graves(
                old(self).versions@.tombstones,
                old(self)@.txns.oldest_active(),
            ),
            final(self).versions@.tombstones == version::waiting_graves(
                old(self).versions@.tombstones,
                old(self)@.txns.oldest_active(),
            ),
            v.records_discarded == old(self)@.records.len() - final(self)@.records.len(),
            v.transactions_forgotten == old(self)@.pending.len() - final(self)@.pending.len(),
            final(self).out == old(self).out,
            final(self).clock == old(self).clock,
            final(self).live == old(self).live,
            final(self).txns.active == old(self).txns.active,
            final(self).txns.aborting == old(self).txns.aborting,
    {
        let horizon = self.txns.oldest_active();
        proof {
            steps::pruned_keeps(self@, horizon);
            steps::vacuumed_keeps(self@.pruned(horizon), horizon);
        }
        self.txns.prune_committed();
        self.versions.vacuum(horizon)
    }

    /// Physically removes a deletion mark, if the row still is that mark: a
    /// later insert may have brought the key back to life. Logged first.
    pub fn purge(&mut self, t: &Tombstone)
        requires
            old(self).wf(),
            old(self).clock.counter < u64::MAX - 1,
            forall|v: Viewer| #[trigger]
                mvcc::may_look(old(self)@.txns, v) ==> mvcc::sees(old(self)@.txns, v, t.txn.0),
        ensures
            final(self).wf(),
            final(self)@ == purge_core(old(self)@, t@),
            operation::entries(final(self).out@) == if old(self)@.live.contains(t.table_id)
                && purge_applies(old(self)@.rows, t@) {
                operation::entries(old(self).out@).push(
                    Entry {
                        lsn: LsnId((old(self).clock.counter + 1) as u64),
                        op: Op::Purge { txn: t.txn, table_id: t.table_id, key: t@.key },
                    },
                )
            } else {
                operation::entries(old(self).out@)
            },
            final(self).live == old(self).live,
            final(self).txns == old(self).txns,
            final(self).versions == old(self).versions,
            final(self).clock.last_written == old(self).clock.last_written,
    {
        let ghost c = self@;
        let ghost at = Place { table: t.table_id, key: t@.key };
        if !self.has_table(t.table_id) {
            return;
        }
        let _lsn = self.next_lsn();
        let present: bool = match self.rows.get(t.table_id, &t.key) {
            Some(_) => true,
            None => false,
        };
        let go: bool = match self.rows.get(t.table_id, &t.key) {
            Some(cur) => cur.is_tombstoned() && match cur.txn_id {
                Some(w) => w.0 == t.txn.0,
                None => false,
            },
            None => true,
        };
        if go {
            let ghost logged = self.out@;
            let lsn = self.next_lsn();
            let record = LogRecord {
                lsn,
                operation: Operation::Purge {
                    txn: t.txn,
                    table_id: t.table_id,
                    key: t.key.clone(),
                },
            };
            self.out.push(record);
            assert(operation::entries(self.out@) =~= operation::entries(logged).push(record@));
            proof {
                if present {
                    steps::purged_keeps(self@, at);
                } else {
                    assert(self@.rows.remove(at) =~= self@.rows);
                }
            }
            self.rows.remove(t.table_id, &t.key);
        }
    }

    /// A table comes into being, under a number that no table ever had.
    pub fn add_table(&mut self, id: TableIdType)
        requires
            old(self).wf(),
            old(self)@.next_table <= id.0 < u64::MAX,
        ensures
            final(self).wf(),
            final(self)@ == old(self)@.with_table(id),
            final(self).live@ == old(self).live@.push(id),
            *final(self) == (Engine {
                live: final(self).live,
                next_table: final(self).next_table,
                ..*old(self)
            }),
    {
        proof {
            steps::with_table_keeps(self@, id);
        }
        let ghost was = self.live@;
        self.live.push(id);
        self.next_table = Ghost((id.0 + 1) as u64);
        proof {
            assert forall|x: TableIdType| table_set(self.live@).contains(x) <==> table_set(
                was,
            ).insert(id).contains(x) by {
                if was.contains(x) {
                    let k = choose|k: int| 0 <= k < was.len() && was[k] == x;
                    assert(self.live@[k] == x);
                }
                assert(self.live@[was.len() as int] == id);
            }
            assert(table_set(self.live@) =~= table_set(was).insert(id));
        }
    }

    /// A table goes, with all its rows.
    pub fn drop_table(&mut self, id: TableIdType)
        requires
            old(self).wf(),
        ensures
            final(self).wf(),
            final(self)@ == old(self)@.without_table(id),
            *final(self) == (Engine {
                live: final(self).live,
                rows: final(self).rows,
                ..*old(self)
            }),
    {
        proof {
            steps::without_table_keeps(self@, id);
        }
        self.rows.remove_table(id);
        let ghost was = self.live@;
        let mut kept: Vec<TableIdType> = Vec::new();
        for i in 0..self.live.len()
            invariant
                was == self.live@,
                forall|x: TableIdType| #[trigger]
                    kept@.contains(x) <==> x != id && was.take(i as int).contains(x),
        {
            let x = self.live[i];
            let ghost before = kept@;
            if x.0 != id.0 {
                kept.push(x);
            }
            proof {
                assert forall|y: TableIdType| #[trigger]
                    kept@.contains(y) <==> y != id && was.take(i + 1).contains(y) by {
                    assert(was.take(i + 1) =~= was.take(i as int).push(x));
                    if was.take(i as int).contains(y) {
                        let shorter = was.take(i as int);
                        let k = choose|k: int| 0 <= k < shorter.len() && shorter[k] == y;
                        assert(was.take(i + 1)[k] == y);
                    }
                    assert(was.take(i + 1)[i as int] == x);
                    if before.contains(y) {
                        let k = choose|k: int| 0 <= k < before.len() && before[k] == y;
                        assert(kept@[k] == y);
                    }
                    if kept@.contains(y) {
                        let k = choose|k: int| 0 <= k < kept@.len() && kept@[k] == y;
                        if k < before.len() {
                            assert(before[k] == y);
                        }
                    }
                    if x != id {
                        assert(kept@[before.len() as int] == x);
                    }
                    if was.take(i + 1).contains(y) {
                        let longer = was.take(i + 1);
                        let k = choose|k: int| 0 <= k < longer.len() && longer[k] == y;
                        if k < i {
                            assert(was.take(i as int)[k] == y);
                        }
                    }
                }
            }
        }
        assert(was.take(was.len() as int) =~= was);
        self.live = kept;
        assert(table_set(self.live@) =~= table_set(was).remove(id));
    }

    /// All the rows of a table that the reader sees, in the order of keys.
    pub fn scan(&self, table: TableIdType, reader: &TransactionId) -> (r: Result<
        Vec<Tuple>,
        StoreError,
    >)
        requires
            self.wf(),
            self@.txns.active.dom().contains(reader.0),
        ensures
            r matches Ok(out) && scan_of(self@, table, Viewer::Reader(reader.0), tuples(out@)),
    {
        let ghost v = Viewer::Reader(reader.0);
        let ghost c = self@;
        let ghost items = self.rows.items@;
        let mut out: Vec<Tuple> = Vec::new();
        proof {
            assert(mvcc::may_look(c.txns, v));
            rows::sorted_unique(items);
            assert(tuples(out@) =~= scan_items(c, items.take(0), table, v));
        }
        for i in 0..self.rows.items.len()
            invariant
                self.wf(),
                c == self@,
                v == Viewer::Reader(reader.0),
                mvcc::may_look(c.txns, v),
                items == self.rows.items@,
                assoc::unique(rows::pairs(items)),
                tuples(out@) == scan_items(c, items.take(i as int), table, v),
        {
            let it = &self.rows.items[i];
            let ghost here = items[i as int].place();
            proof {
                assoc::assoc_at(rows::pairs(items), i as int);
                assert(c.rows.dom().contains(here) && c.rows[here] == it.tuple@);
                assert(mvcc::definite(c.look(v, here)));
                assert(items.take(i + 1).drop_last() =~= items.take(i as int));
                assert(items.take(i + 1).last() == items[i as int]);
            }
            if it.table.0 == table.0 {
                match self.find_visible_to(&it.tuple, reader) {
                    Ok(Some(t)) => {
                        if !t.is_tombstoned() {
                            let ghost was = out@;
                            out.push(t);
                            assert(tuples(out@) =~= tuples(was).push(t@));
                        }
                    },
                    Ok(None) => {},
                    Err(e) => {
                        return Err(e);
                    },
                }
            }
        }
        proof {
            assert(items.take(items.len() as int) =~= items);
            scan_items_is_scan(c, self.rows, table, v);
        }
        Ok(out)
    }
}

/// The rows, as contracts speak of them.
pub open spec fn tuples(s: Seq<Tuple>) -> Seq<Row> {
    s.map_values(|t: Tuple| t@)
}

/// Is `out` everything that the viewer reads in the table, by key, each row
/// once?
pub open spec fn scan_of(c: Core, table: TableIdType, v: Viewer, out: Seq<Row>) -> bool {
    &&& forall|k: int|
        0 <= k < out.len() ==> c.read(v, Place { table, key: (#[trigger] out[k]).id }) == Some(
            out[k],
        )
    &&& forall|a: int, b: int|
        0 <= a < b < out.len() ==> tuple::key_before(
            (#[trigger] out[a]).id,
            (#[trigger] out[b]).id,
        )
    &&& forall|p: Place|
        p.table == table && (#[trigger] c.read(v, p)) is Some ==> exists|k: int|
            0 <= k < out.len() && (#[trigger] out[k]).id == p.key
}

/// What the viewer reads of the table among these items, in their order.
pub open spec fn scan_items(c: Core, items: Seq<Item>, table: TableIdType, v: Viewer) -> Seq<Row>
    decreases items.len(),
{
    if items.len() == 0 {
        seq![]
    } else {
        let front = scan_items(c, items.drop_last(), table, v);
        match c.read(v, items.last().place()) {
            Some(row) => if items.last().table == table {
                front.push(row)
            } else {
                front
            },
            None => front,
        }
    }
}

/// Where each row of a scan comes from: the items in their order.
proof fn scan_items_from(c: Core, items: Seq<Item>, table: TableIdType, v: Viewer)
    requires
        c.wf(),
        rows::sorted(items),
    ensures
        forall|k: int|
            0 <= k < scan_items(c, items, table, v).len() ==> exists|j: int|
                0 <= j < items.len() && #[trigger] items[j].place() == (Place {
                    table,
                    key: (#[trigger] scan_items(c, items, table, v)[k]).id,
                }) && c.read(v, items[j].place()) == Some(scan_items(c, items, table, v)[k]),
        forall|a: int, b: int|
            0 <= a < b < scan_items(c, items, table, v).len() ==> tuple::key_before(
                (#[trigger] scan_items(c, items, table, v)[a]).id,
                (#[trigger] scan_items(c, items, table, v)[b]).id,
            ),
        forall|j: int|
            0 <= j < items.len() && (#[trigger] items[j]).table == table && c.read(
                v,
                items[j].place(),
            ) is Some ==> exists|k: int|
                0 <= k < scan_items(c, items, table, v).len() && (#[trigger] scan_items(
                    c,
                    items,
                    table,
                    v,
                )[k]).id == items[j].tuple@.id,
    decreases items.len(),
{
    if items.len() > 0 {
        let front = items.drop_last();
        let e = items.last();
        assert(rows::sorted(front));
        scan_items_from(c, front, table, v);
        let short = scan_items(c, front, table, v);
        let all = scan_items(c, items, table, v);
        look_keeps_key(c, v, e.place());
        assert forall|k: int| 0 <= k < all.len() implies exists|j: int|
            0 <= j < items.len() && #[trigger] items[j].place() == (Place {
                table,
                key: (#[trigger] all[k]).id,
            }) && c.read(v, items[j].place()) == Some(all[k]) by {
            if k < short.len() {
                assert(all[k] == short[k]);
                let j = choose|j: int|
                    0 <= j < front.len() && #[trigger] front[j].place() == (Place {
                        table,
                        key: short[k].id,
                    }) && c.read(v, front[j].place()) == Some(short[k]);
                assert(items[j].place() == front[j].place());
            } else {
                assert(items[items.len() - 1].place() == e.place());
            }
        }
        assert forall|a: int, b: int| 0 <= a < b < all.len() implies tuple::key_before(
            (#[trigger] all[a]).id,
            (#[trigger] all[b]).id,
        ) by {
            assert(all[a] == short[a]);
            if b < short.len() {
                assert(all[b] == short[b]);
            } else {
                let j = choose|j: int|
                    0 <= j < front.len() && #[trigger] front[j].place() == (Place {
                        table,
                        key: short[a].id,
                    }) && c.read(v, front[j].place()) == Some(short[a]);
                assert(rows::place_before(items[j].place(), items[items.len() - 1].place()));
            }
        }
        assert forall|j: int|
            0 <= j < items.len() && (#[trigger] items[j]).table == table && c.read(
                v,
                items[j].place(),
            ) is Some implies exists|k: int|
            0 <= k < all.len() && (#[trigger] all[k]).id == items[j].tuple@.id by {
            if j < front.len() {
                assert(front[j] == items[j]);
                let k = choose|k: int|
                    0 <= k < short.len() && (#[trigger] short[k]).id == front[j].tuple@.id;
                assert(all[k].id == items[j].tuple@.id);
            } else {
                assert(all[short.len() as int].id == items[j].tuple@.id);
            }
        }
    }
}

/// Going through all the items gives a table's scan.
proof fn scan_items_is_scan(c: Core, store: RowStore, table: TableIdType, v: Viewer)
    requires
        c.wf(),
        store.wf(),
        c.rows == store@,
    ensures
        scan_of(c, table, v, scan_items(c, store.items@, table, v)),
{
    let items = store.items@;
    let all = scan_items(c, items, table, v);
    rows::sorted_unique(items);
    scan_items_from(c, items, table, v);
    assert forall|k: int| 0 <= k < all.len() implies c.read(
        v,
        Place { table, key: (#[trigger] all[k]).id },
    ) == Some(all[k]) by {
        let j = choose|j: int|
            0 <= j < items.len() && #[trigger] items[j].place() == (Place {
                table,
                key: all[k].id,
            }) && c.read(v, items[j].place()) == Some(all[k]);
    }
    assert forall|p: Place| p.table == table && (#[trigger] c.read(v, p)) is Some implies exists|
        k: int,
    | 0 <= k < all.len() && (#[trigger] all[k]).id == p.key by {
        assert(c.rows.dom().contains(p));
        let j = assoc::assoc_find(rows::pairs(items), p);
        assert(items[j].place() == p);
        assert(items[j].table == table);
    }
}

/// Does the purge of this mark have something to do?
pub open spec fn purge_applies(rows: Map<Place, Row>, g: Grave) -> bool {
    let p = Place { table: g.table_id, key: g.key };
    !rows.dom().contains(p) || (rows[p].tombstone && rows[p].txn_id == Some(g.txn))
}

/// What the purge of a mark does.
pub open spec fn purge_core(c: Core, g: Grave) -> Core {
    if !c.live.contains(g.table_id) {
        c
    } else if purge_applies(c.rows, g) {
        c.tick().tick().purged(Place { table: g.table_id, key: g.key })
    } else {
        c.tick()
    }
}

/// Whatever a viewer finds at a place has the place's key.
pub proof fn look_keeps_key(c: Core, v: Viewer, p: Place)
    requires
        c.wf(),
    ensures
        c.look(v, p) matches Sight::Found(row) ==> row.id == p.key,
{
    if c.rows.dom().contains(p) {
        assert(mvcc::row_ok(c, p, c.rows[p]));
        walk_keeps_key(c, v, c.rows[p]);
    }
}

/// Every version that a walk comes to has the key that it started from.
proof fn walk_keeps_key(c: Core, v: Viewer, row: Row)
    requires
        c.wf(),
        mvcc::link_ok(c.map(), row, c.counter),
    ensures
        mvcc::walk(c.map(), c.txns, v, row) matches Sight::Found(next) ==> next.id == row.id,
    decreases
            (match row.pre_lsn {
                Some(l) => l.0 as int + 1,
                None => 0,
            }),
{
    let m = c.map();
    if let Some(l) = row.pre_lsn {
        if m.dom().contains(l.0) {
            let i = mvcc::by_lsn_find(c.records, l.0);
            assert(mvcc::record_ok(c, c.records[i]));
            if let Some(next) = mvcc::pre_image(m[l.0]) {
                if !(next.pre_lsn matches Some(k) && k.0 >= l.0) {
                    walk_keeps_key(c, v, next);
                }
            }
        }
    }
}

} // verus!

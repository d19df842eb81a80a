//! The database: tables of rows under transactions, kept in a data file and a
//! log, and brought back from them after a crash.
use vstd::prelude::*;
use vstd::string::*;

use crate::assoc;
use crate::catalog::SystemPages;
use crate::clock::{LsnClock, LsnId};
use crate::engine;
use crate::engine::Engine;
use crate::error::{Fault, StoreError};
use crate::freelist;
use crate::generator::Generator;
use crate::header;
use crate::header::Header;
use crate::maintenance;
use crate::maintenance::MaintenanceStats;
use crate::memfile::Namespace;
use crate::mvcc;
use crate::mvcc::{Grave, Place, Viewer};
use crate::opening;
use crate::operation;
use crate::operation::{Entry, LogRecord, Op};
use crate::page::{PageId, PAGE_OVERHEAD};
use crate::rows::RowStore;
use crate::steps;
use crate::table;
use crate::table::{Tab, Table, TableIdType};
use crate::text;
use crate::text::push_decimal;
use crate::tuple::{DBIdType, Key, Row, Tuple};
use crate::txn::{ConflictPolicy, Transaction, TransactionId};
use crate::wal;
use crate::version;
use crate::wal::{log_runner, messages, WalState};
use crate::writes;

verus! {

/// How long a commit waits.
#[derive(Debug, Clone, Copy, PartialEq, Eq, Structural)]
pub enum Durability {
    /// Until the commit's record is durable.
    Sync,
    /// Not at all: the commit is seen by every reader at once and becomes
    /// durable with the next sync of the log. A crash before that loses it,
    /// and only it and later commits.
    Async,
}

/// How much a long-lived transaction may hold back. Where either is exceeded,
/// the oldest active transaction is aborted.
#[derive(Debug, Clone, Copy, PartialEq, Eq, Structural)]
pub struct SnapshotLimits {
    pub max_retained_wal_bytes: u64,
    pub max_version_records: usize,
}

/// How much log a transaction may hold back, unless other limits are set.
pub const DEFAULT_MAX_RETAINED_WAL_BYTES: u64 = 268435456;

/// How many records a transaction may hold back, unless other limits are set.
pub const DEFAULT_MAX_VERSION_RECORDS: usize = 1000000;

/// The data file: its header, the pages that say what is in it, and the rows
/// of its tables.
pub struct DataFile {
    pub header: Vec<u8>,
    pub system: SystemPages,
    pub rows: RowStore,
    /// The page behind each page, or 0.
    pub links: Vec<u64>,
}

/// A transaction that was aborted by the engine, and what its owner is told.
pub struct ForcedAbort {
    pub txn: u64,
    pub reason: String,
}

/// How often the abort of a transaction has failed.
pub struct Attempts {
    pub txn: u64,
    pub count: u32,
}

/// A database.
pub struct Db {
    pub name: String,
    /// The header as of when the database was opened.
    pub header: Header,
    /// What the data file holds.
    pub data: DataFile,
    /// The files of the log.
    pub ns: Namespace,
    pub wal: WalState,
    pub page_count: u64,
    pub free_pages: Vec<PageId>,
    /// The page behind each page, or 0.
    pub links: Vec<u64>,
    pub tables: Vec<Table>,
    pub generator: Generator,
    pub engine: Engine,
    /// When the last checkpoint was.
    pub last_checkpoint: u128,
    /// Why writes are refused, if they are.
    pub degraded: Option<String>,
    pub abort_attempts: Vec<Attempts>,
    pub forced_aborts: Vec<ForcedAbort>,
    pub snapshot_limits: SnapshotLimits,
    pub snapshot_too_old_aborts: u64,
    pub lock_timeouts: u64,
    pub recovered_records: usize,
    pub maintenance: MaintenanceStats,
    /// Do writes that take others back fail, as they do when storage fails?
    pub fail_reverts: bool,
}

/// The transactions that were aborted by the engine, with the reasons.
pub open spec fn forced_pairs(s: Seq<ForcedAbort>) -> Seq<(u64, Seq<char>)> {
    s.map_values(|f: ForcedAbort| (f.txn, f.reason@))
}

/// The failed aborts, with how often.
pub open spec fn attempt_pairs(s: Seq<Attempts>) -> Seq<(u64, u32)> {
    s.map_values(|a: Attempts| (a.txn, a.count))
}

/// The names of tables and the sequence that numbers them begin with this.
pub open spec fn reserved_prefix() -> Seq<char> {
    "__system."@
}

/// The sequence that numbers the tables.
pub open spec fn system_name() -> Seq<char> {
    "__system.tables"@
}

/// Are the tables numbered apart and named apart?
pub open spec fn tables_apart(s: Seq<Table>) -> bool {
    forall|i: int, j: int|
        0 <= i < j < s.len() ==> (#[trigger] s[i]).id != (#[trigger] s[j]).id && s[i].name@
            != s[j].name@
}

/// Is no table named like the sequence that numbers the tables?
pub open spec fn names_free(s: Seq<Table>) -> bool {
    forall|i: int| 0 <= i < s.len() ==> (#[trigger] s[i]).name@ != system_name()
}

/// Are these the tables that exist?
pub open spec fn tables_listed(s: Seq<Table>, live: Set<TableIdType>) -> bool {
    forall|id: TableIdType| #[trigger]
        live.contains(id) <==> exists|i: int| 0 <= i < s.len() && (#[trigger] s[i]).id == id
}

/// Do the pages hang together? The system's pages are there, the pages that are
/// free are in the file, and no chain that begins with a page of the system or
/// of a table leads out of it.
pub open spec fn pages_sound(ts: Seq<Tab>, free: Seq<PageId>, links: Seq<u64>) -> bool {
    &&& links.len() >= opening::FIRST_USER_PAGE
    &&& forall|i: int| 0 <= i < free.len() ==> (#[trigger] free[i]).0 < links.len()
    &&& !freelist::leads_out(links, opening::starts_of(ts))
}

/// Is every page in use once or free once? No page has another behind it, and
/// nothing is listed twice.
pub open spec fn pages_apart(starts: Seq<PageId>, free: Seq<PageId>, links: Seq<u64>) -> bool {
    &&& forall|i: int| 0 <= i < links.len() ==> #[trigger] links[i] == 0
    &&& forall|i: int| 0 <= i < starts.len() ==> (#[trigger] starts[i]).0 < links.len()
    &&& starts.no_duplicates()
    &&& free.no_duplicates()
    &&& forall|i: int| 0 <= i < free.len() ==> !starts.contains(#[trigger] free[i])
}

/// Are all of the records above the watermark, and below the clock? Then every
/// record at or below the watermark is durable.
pub open spec fn above_watermark(es: Seq<Entry>, clock: LsnClock) -> bool {
    &&& clock.last_written < clock.counter
    &&& forall|i: int|
        0 <= i < es.len() ==> clock.last_written < (#[trigger] es[i]).lsn.0 < clock.counter
}

impl Db {
    /// The transactions that were aborted by the engine, with the reasons.
    pub open spec fn forced(&self) -> Map<u64, Seq<char>> {
        assoc::assoc(forced_pairs(self.forced_aborts@))
    }

    /// The failed aborts, with how often.
    pub open spec fn attempts(&self) -> Map<u64, u32> {
        assoc::assoc(attempt_pairs(self.abort_attempts@))
    }

    /// What waits to be logged.
    pub open spec fn queued(&self) -> Seq<Entry> {
        operation::entries(self.engine.out@)
    }

    /// The deletion marks that wait to be purged.
    pub open spec fn graves(&self) -> Seq<Grave> {
        self.engine.versions@.tombstones
    }

    /// The log, its files, and how far it is durable.
    pub open spec fn log(&self) -> wal::Log {
        self.wal.log(self.ns@, self.engine.clock)
    }

    /// Is everything in order?
    pub open spec fn wf(&self) -> bool {
        &&& self.engine.wf()
        &&& steps::graves_ok(self.engine@, self.graves())
        &&& self.generator.wf()
        &&& self.generator.attached
        &&& self.generator.outbox@.len() == 0
        &&& self.generator@.dom().contains(system_name())
        &&& self.engine@.next_table <= self.generator@[system_name()].next
        &&& above_watermark(self.queued(), self.engine.clock)
        &&& self.ns.wf()
        &&& wal::fits(self.wal@, self.ns@)
        &&& self.wal@.name == self.name@
        &&& tables_apart(self.tables@)
        &&& tables_listed(self.tables@, self.engine@.live)
        &&& names_free(self.tables@)
        &&& assoc::unique(forced_pairs(self.forced_aborts@))
        &&& assoc::unique(attempt_pairs(self.abort_attempts@))
        &&& self.data.system.catalog.wf()
        &&& self.data.system.sequences.wf()
        &&& self.data.system.free.wf()
        &&& self.data.rows.wf()
        &&& self.header.page_size >= PAGE_OVERHEAD
        &&& header::as_written(self.header)
        &&& self.links@.len() == self.page_count
        &&& pages_sound(table::tabs(self.tables@), self.free_pages@, self.links@)
    }

    /// Are there `n` numbers left?
    pub open spec fn room(&self, n: nat) -> bool {
        self.engine.clock.counter + n <= u64::MAX
    }
}

// ---------------------------------------------------------------------------
// Who may do what
// ---------------------------------------------------------------------------

/// Why a transaction that is not active may do nothing: the engine took it
/// down, which is said once, or it has finished.
pub open spec fn inactive_fault(forced: Map<u64, Seq<char>>, x: u64) -> Fault {
    if forced.dom().contains(x) {
        Fault::SnapshotTooOld(forced[x])
    } else {
        Fault::TransactionAlreadyFinished
    }
}

/// The message of a write that cannot be taken back.
pub open spec fn revert_text() -> Seq<char> {
    "test: revert failure injected"@
}

impl Db {
    /// Where the reason is kept why the engine aborted a transaction.
    fn forced_slot(&self, x: u64) -> (r: Option<usize>)
        requires
            assoc::unique(forced_pairs(self.forced_aborts@)),
        ensures
            match r {
                Some(i) => i < self.forced_aborts@.len() && self.forced_aborts@[i as int].txn == x
                    && self.forced().dom().contains(x) && self.forced()[x]
                    == self.forced_aborts@[i as int].reason@,
                None => !self.forced().dom().contains(x),
            },
    {
        let ghost pairs = forced_pairs(self.forced_aborts@);
        for i in 0..self.forced_aborts.len()
            invariant
                pairs == forced_pairs(self.forced_aborts@),
                assoc::unique(pairs),
                forall|j: int| 0 <= j < i ==> (#[trigger] self.forced_aborts@[j]).txn != x,
        {
            if self.forced_aborts[i].txn == x {
                proof {
                    assoc::assoc_at(pairs, i as int);
                }
                return Some(i);
            }
        }
        proof {
            assert forall|j: int| 0 <= j < pairs.len() implies (#[trigger] pairs[j]).0 != x by {
                assert(self.forced_aborts@[j].txn != x);
            }
            assoc::assoc_absent(pairs, x);
        }
        None
    }

    /// Forgets why the engine aborted a transaction, and says it if it did.
    pub(crate) fn take_forced(&mut self, x: u64) -> (r: Option<String>)
        requires
            old(self).wf(),
        ensures
            final(self).wf(),
            *final(self) == (Db { forced_aborts: final(self).forced_aborts, ..*old(self) }),
            final(self).forced() == old(self).forced().remove(x),
            match r {
                Some(t) => old(self).forced().dom().contains(x) && t@ == old(self).forced()[x],
                None => !old(self).forced().dom().contains(x) && *final(self) == *old(self),
            },
    {
        let ghost pairs = forced_pairs(self.forced_aborts@);
        match self.forced_slot(x) {
            Some(i) => {
                let f = self.forced_aborts.remove(i);
                proof {
                    assoc::assoc_remove(pairs, i as int);
                    assert(forced_pairs(self.forced_aborts@) =~= pairs.remove(i as int));
                    assert(pairs[i as int].0 == x);
                }
                Some(f.reason)
            },
            None => {
                assert(self.forced() =~= old(self).forced().remove(x));
                None
            },
        }
    }

    /// Fails unless the transaction is active, and says why it is not. That the
    /// engine took it down is said once.
    pub fn require_active(&mut self, txn: &TransactionId) -> (r: Result<(), StoreError>)
        requires
            old(self).wf(),
        ensures
            final(self).wf(),
            *final(self) == (Db { forced_aborts: final(self).forced_aborts, ..*old(self) }),
            match r {
                Ok(()) => old(self).engine@.txns.active.dom().contains(txn.0) && *final(self)
                    == *old(self),
                Err(e) => !old(self).engine@.txns.active.dom().contains(txn.0) && e@
                    == inactive_fault(old(self).forced(), txn.0) && final(self).forced()
                    == old(self).forced().remove(txn.0),
            },
    {
        if self.engine.txns.is_transaction_active(txn) {
            return Ok(());
        }
        match self.take_forced(txn.0) {
            Some(reason) => Err(StoreError::SnapshotTooOld(reason)),
            None => Err(StoreError::TransactionAlreadyFinished),
        }
    }

    /// Fails if writes are refused.
    pub fn refuse_if_degraded(&self) -> (r: Result<(), StoreError>)
        ensures
            match r {
                Ok(()) => self.degraded is None,
                Err(e) => self.degraded matches Some(t) && e@ == Fault::EngineDegraded(t@),
            },
    {
        match &self.degraded {
            Some(reason) => Err(StoreError::EngineDegraded(reason.as_str().to_owned())),
            None => Ok(()),
        }
    }

    /// From now on writes are refused, for this reason or the first one.
    pub(crate) fn enter_degraded(&mut self, reason: String)
        requires
            old(self).wf(),
        ensures
            final(self).wf(),
            *final(self) == (Db { degraded: final(self).degraded, ..*old(self) }),
            maintenance::opt_text(final(self).degraded) == Some(
                match old(self).degraded {
                    Some(t) => t@,
                    None => reason@,
                },
            ),
    {
        if self.degraded.is_none() {
            self.degraded = Some(reason);
        }
    }

    /// Fails if the table does not exist.
    fn require_table(&self, id: TableIdType) -> (r: Result<(), StoreError>)
        ensures
            match r {
                Ok(()) => self.engine@.live.contains(id),
                Err(e) => !self.engine@.live.contains(id) && e@ == Fault::TableNotFound(
                    text::decimal(id.0 as nat),
                ),
            },
    {
        if self.engine.has_table(id) {
            Ok(())
        } else {
            let mut t = String::new();
            push_decimal(&mut t, id.0);
            assert(t@ =~= text::decimal(id.0 as nat));
            Err(StoreError::TableNotFound(t))
        }
    }
}

// ---------------------------------------------------------------------------
// Transactions
// ---------------------------------------------------------------------------

/// What rolling a transaction back comes to. One that is not active is left
/// alone, and what was noted about it is forgotten. Where its writes cannot be
/// taken back, nobody sees them any more, and they are taken back later.
pub open spec fn rolled_back(before: Db, after: Db, x: u64, failed: Option<Fault>) -> bool {
    &&& after == Db { engine: after.engine, forced_aborts: after.forced_aborts, ..before }
    &&& if !before.engine@.txns.active.dom().contains(x) {
        failed is None && after.engine == before.engine && after.forced() == before.forced().remove(
            x,
        )
    } else if before.fail_reverts {
        failed == Some(Fault::Unknown(revert_text())) && after.engine == (Engine {
            txns: after.engine.txns,
            ..before.engine
        }) && after.engine@ == before.engine@.aborting_now(x) && after.forced_aborts
            == before.forced_aborts
    } else {
        failed is None && after.engine@ == before.engine@.aborting_now(x).aborted(x)
            && after.queued() == before.queued().push(
            Entry {
                lsn: LsnId(before.engine.clock.counter),
                op: Op::Rollback(TransactionId(x)),
            },
        ) && after.graves() == before.graves() && after.engine.clock.last_written
            == before.engine.clock.last_written && after.forced_aborts == before.forced_aborts
    }
}

/// What the beginning of a transaction comes to: it is active under the clock's
/// next number, and nothing else changes.
pub open spec fn began(before: Db, after: Db, policy: ConflictPolicy, x: u64) -> bool {
    &&& x == before.engine.clock.counter
    &&& after == Db { engine: after.engine, ..before }
    &&& after.engine@ == before.engine@.begun(policy)
    &&& after.engine.out == before.engine.out
    &&& after.graves() == before.graves()
    &&& after.engine.clock.last_written == before.engine.clock.last_written
}

impl Db {
    /// A transaction begins. Where a write of it meets a conflict, only that
    /// write fails.
    pub fn begin(&mut self) -> (r: Result<Transaction, StoreError>)
        requires
            old(self).wf(),
            old(self).room(1),
        ensures
            final(self).wf(),
            r matches Ok(t) && began(
                *old(self),
                *final(self),
                ConflictPolicy::ContinueOnConflict,
                t.id.0,
            ),
    {
        self.begin_with_conflict_policy(ConflictPolicy::ContinueOnConflict)
    }

    /// A transaction begins that says what a write conflict does to it.
    pub fn begin_with_conflict_policy(&mut self, policy: ConflictPolicy) -> (r: Result<
        Transaction,
        StoreError,
    >)
        requires
            old(self).wf(),
            old(self).room(1),
        ensures
            final(self).wf(),
            r matches Ok(t) && began(*old(self), *final(self), policy, t.id.0),
    {
        let id = self.engine.begin(policy);
        proof {
            steps::graves_stay(old(self).engine@, self.engine@, self.graves());
        }
        Ok(Transaction { id })
    }

    /// Writes what is queued to the log and waits until it is durable.
    pub fn sync_log(&mut self)
        requires
            old(self).wf(),
        ensures
            final(self).wf(),
            *final(self) == (Db {
                engine: final(self).engine,
                ns: final(self).ns,
                wal: final(self).wal,
                ..*old(self)
            }),
            final(self).engine == (Engine {
                out: final(self).engine.out,
                clock: final(self).engine.clock,
                ..old(self).engine
            }),
            final(self).engine.clock.counter == old(self).engine.clock.counter,
            final(self).engine.out@.len() == 0,
            final(self).log() == wal::ran(old(self).log(), wal::record_msgs(old(self).queued()), 0),
    {
        let mut out: Vec<LogRecord> = Vec::new();
        std::mem::swap(&mut out, &mut self.engine.out);
        proof {
            wal::records_only(operation::entries(out@), 0);
            wal::records_in_batches(old(self).log(), old(self).queued(), 0);
            assert(old(self).queued().skip(0) =~= old(self).queued());
            wal::top_lsn_bound(
                old(self).engine.clock.last_written,
                old(self).queued(),
                old(self).engine.clock.counter,
            );
        }
        let queue = messages(out);
        let _stopped = log_runner(&mut self.wal, &mut self.ns, &mut self.engine.clock, &queue);
    }

    /// Commits a transaction, and returns once that is durable.
    pub fn commit(&mut self, txn: Transaction) -> (r: Result<(), StoreError>)
        requires
            old(self).wf(),
            old(self).room(1),
        ensures
            final(self).wf(),
            committed(*old(self), *final(self), txn.id.0, Durability::Sync, engine::fault_of(r)),
    {
        self.commit_with(txn, Durability::Sync)
    }

    /// Commits a transaction, and waits for durability as asked.
    pub fn commit_with(&mut self, txn: Transaction, durability: Durability) -> (r: Result<
        (),
        StoreError,
    >)
        requires
            old(self).wf(),
            old(self).room(1),
        ensures
            final(self).wf(),
            committed(*old(self), *final(self), txn.id.0, durability, engine::fault_of(r)),
    {
        let id = txn.into_id();
        if let Err(e) = self.refuse_if_degraded() {
            return Err(e);
        }
        if let Err(e) = self.require_active(&id) {
            return Err(e);
        }
        let lsn = self.engine.commit(id);
        proof {
            let c = old(self).engine@;
            let d = self.engine@;
            steps::graves_stay(c, d, old(self).graves());
            mvcc::ops_of_members(c.records, id.0);
            version::graves_of_one(mvcc::ops_of(c.records, id.0), id.0, lsn.0);
            assert forall|i: int| 0 <= i < self.graves().len() implies steps::grave_ok(
                d,
                #[trigger] self.graves()[i],
            ) by {
                let n = old(self).graves().len();
                if i < n {
                    assert(self.graves()[i] == old(self).graves()[i]);
                } else {
                    let more = version::graves_of(mvcc::ops_of(c.records, id.0), lsn.0);
                    assert(self.graves()[i] == more[i - n]);
                }
            }
        }
        match durability {
            Durability::Sync => self.sync_log(),
            Durability::Async => {},
        }
        Ok(())
    }

    /// Rolls a transaction back.
    pub fn rollback(&mut self, txn: Transaction) -> (r: Result<(), StoreError>)
        requires
            old(self).wf(),
            old(self).room(1),
        ensures
            final(self).wf(),
            rolled_back(*old(self), *final(self), txn.id.0, engine::fault_of(r)),
    {
        self.abort(txn.into_id())
    }

    /// The one way in which a transaction is rolled back: asked for, given up,
    /// after a conflict, or because its snapshot grew too old. A transaction
    /// that has finished is left alone.
    pub fn abort(&mut self, id: TransactionId) -> (r: Result<(), StoreError>)
        requires
            old(self).wf(),
            old(self).room(1),
        ensures
            final(self).wf(),
            rolled_back(*old(self), *final(self), id.0, engine::fault_of(r)),
    {
        if !self.engine.txns.is_transaction_active(&id) {
            let _forgotten = self.take_forced(id.0);
            return Ok(());
        }
        self.engine.start_abort(id);
        proof {
            steps::graves_stay(old(self).engine@, self.engine@, self.graves());
        }
        self.finish_abort(id)
    }

    /// Finishes an abort: the writes are taken back and that is logged. Where
    /// that fails, the transaction goes on aborting.
    pub(crate) fn finish_abort(&mut self, id: TransactionId) -> (r: Result<(), StoreError>)
        requires
            old(self).wf(),
            old(self).room(1),
            old(self).engine@.txns.aborting.contains(id.0),
        ensures
            final(self).wf(),
            *final(self) == (Db { engine: final(self).engine, ..*old(self) }),
            match r {
                Ok(()) => !old(self).fail_reverts && final(self).engine@
                    == old(self).engine@.aborted(id.0) && final(self).queued() == old(
                    self,
                ).queued().push(
                    Entry {
                        lsn: LsnId(old(self).engine.clock.counter),
                        op: Op::Rollback(id),
                    },
                ) && final(self).graves() == old(self).graves()
                    && final(self).engine.clock.last_written
                    == old(self).engine.clock.last_written,
                Err(e) => old(self).fail_reverts && e@ == Fault::Unknown(revert_text())
                    && *final(self) == *old(self),
            },
    {
        if self.fail_reverts {
            return Err(StoreError::UnknownError("test: revert failure injected".to_owned()));
        }
        self.engine.finish_abort(id);
        proof {
            steps::graves_stay(old(self).engine@, self.engine@, self.graves());
        }
        Ok(())
    }
}

/// What a commit comes to: writes are refused, or the transaction is not
/// active, or it has committed, its deletion marks wait to be purged, and its
/// record is queued, or, where the commit waits, durable with all before it.
pub open spec fn committed(
    before: Db,
    after: Db,
    x: u64,
    durability: Durability,
    failed: Option<Fault>,
) -> bool {
    match before.degraded {
        Some(t) => failed == Some(Fault::EngineDegraded(t@)) && after == before,
        None => if !before.engine@.txns.active.dom().contains(x) {
            failed == Some(inactive_fault(before.forced(), x)) && after == (Db {
                forced_aborts: after.forced_aborts,
                ..before
            }) && after.forced() == before.forced().remove(x)
        } else {
            let queue = before.queued().push(
                Entry {
                    lsn: LsnId(before.engine.clock.counter),
                    op: Op::Commit(TransactionId(x)),
                },
            );
            &&& failed is None
            &&& after.engine@ == before.engine@.did_commit(x)
            &&& after.graves() == before.graves() + version::graves_of(
                mvcc::ops_of(before.engine@.records, x),
                before.engine.clock.counter,
            )
            &&& after == Db { engine: after.engine, ns: after.ns, wal: after.wal, ..before }
            &&& match durability {
                Durability::Async => after.queued() == queue && after.ns == before.ns && after.wal
                    == before.wal && after.engine.clock.last_written
                    == before.engine.clock.last_written,
                Durability::Sync => after.queued().len() == 0 && after.log() == wal::ran(
                    before.log(),
                    wal::record_msgs(queue),
                    0,
                ),
            }
        },
    }
}

// ---------------------------------------------------------------------------
// Rows
// ---------------------------------------------------------------------------

/// Does a write conflict take the transaction down?
pub open spec fn gives_up(db: Db, x: u64) -> bool {
    db.engine@.txns.active.dom().contains(x) && db.engine@.txns.active[x]
        == ConflictPolicy::AbortOnConflict
}

/// Why rolling a transaction back fails, if it does.
pub open spec fn abort_fault(db: Db, x: u64) -> Option<Fault> {
    if db.engine@.txns.active.dom().contains(x) && db.fail_reverts {
        Some(Fault::Unknown(revert_text()))
    } else {
        None
    }
}

/// What becomes of a write's error: a conflict takes the transaction down, if
/// that is its policy, and so does a lock that was not granted, always.
pub open spec fn settled(
    before: Db,
    after: Db,
    x: u64,
    fault: Option<Fault>,
    failed: Option<Fault>,
) -> bool {
    match fault {
        Some(Fault::WriteConflict(k)) => if gives_up(before, x) {
            &&& rolled_back(before, after, x, abort_fault(before, x))
            &&& failed == match abort_fault(before, x) {
                Some(f) => Some(f),
                None => Some(Fault::WriteConflictTransactionAborted(k)),
            }
        } else {
            failed == fault && after == before
        },
        Some(Fault::LockTimeout(_)) | Some(Fault::LockOrderViolation(_)) => {
            &&& rolled_back(
                Db { lock_timeouts: before.lock_timeouts.wrapping_add(1), ..before },
                after,
                x,
                abort_fault(before, x),
            )
            &&& failed == fault
        },
        _ => failed == fault && after == before,
    }
}

/// What the catalog says of a table.
pub open spec fn listed(s: Seq<Table>, id: TableIdType) -> Option<Tab>
    decreases s.len(),
{
    if s.len() == 0 {
        None
    } else if s.last().id == id {
        Some(s.last()@)
    } else {
        listed(s.drop_last(), id)
    }
}

/// Why a row with a new key cannot be inserted, if it cannot: its table's index
/// has no room for the key.
pub open spec fn key_fault(db: Db, table: TableIdType, key: Key) -> Option<Fault> {
    match listed(db.tables@, table) {
        Some(t) if !db.engine@.rows.dom().contains(Place { table, key }) => table::entry_fault(
            t,
            key,
        ),
        _ => None,
    }
}

/// What an insert comes to, unless the index has no room for the key.
pub open spec fn insert_plan(db: Db, table: TableIdType, row: Row, x: u64) -> Result<
    (Op, Row),
    Fault,
> {
    match key_fault(db, table, row.id) {
        Some(f) => Err(f),
        None => engine::insert_plan(db.engine@, table, row, x),
    }
}

/// What a write to a table comes to: the transaction has to be active, the
/// table has to exist and writes must not be refused; then the plan decides.
pub open spec fn wrote_row(
    before: Db,
    after: Db,
    table: TableIdType,
    x: u64,
    plan: Result<(Op, Row), Fault>,
    failed: Option<Fault>,
) -> bool {
    if !before.engine@.txns.active.dom().contains(x) {
        failed == Some(inactive_fault(before.forced(), x)) && after == (Db {
            forced_aborts: after.forced_aborts,
            ..before
        }) && after.forced() == before.forced().remove(x)
    } else if !before.engine@.live.contains(table) {
        failed == Some(Fault::TableNotFound(text::decimal(table.0 as nat))) && after == before
    } else {
        &&& after == Db { engine: after.engine, ..before }
        &&& after.graves() == before.graves()
        &&& after.engine.clock.last_written == before.engine.clock.last_written
        &&& match before.degraded {
            Some(t) => failed == Some(Fault::EngineDegraded(t@)) && after.engine@
                == before.engine@.tick() && after.queued() == before.queued(),
            None => match plan {
                Ok((op, new)) => failed is None && after.engine@ == before.engine@.wrote(op, new)
                    && after.queued() == before.queued().push(
                    Entry { lsn: LsnId(before.engine.clock.counter), op },
                ),
                Err(Fault::WriteConflict(k)) => if !gives_up(before, x) {
                    failed == Some(Fault::WriteConflict(k)) && after.engine@
                        == before.engine@.tick() && after.queued() == before.queued()
                } else if before.fail_reverts {
                    failed == Some(Fault::Unknown(revert_text())) && after.engine@
                        == before.engine@.tick().aborting_now(x) && after.queued()
                        == before.queued()
                } else {
                    failed == Some(Fault::WriteConflictTransactionAborted(k)) && after.engine@
                        == before.engine@.tick().aborting_now(x).aborted(x) && after.queued()
                        == before.queued().push(
                        Entry {
                            lsn: LsnId((before.engine.clock.counter + 1) as u64),
                            op: Op::Rollback(TransactionId(x)),
                        },
                    )
                },
                Err(f) => failed == Some(f) && after.engine@ == before.engine@.tick()
                    && after.queued() == before.queued(),
            },
        }
    }
}

/// What a removal that came off returns: the newest version of the row.
pub open spec fn removed(before: Db, table: TableIdType, key: Key, out: Row) -> bool {
    out == before.engine@.rows[Place { table, key }]
}

impl Db {
    /// Does with a write's result what the transaction's policy says.
    pub fn write_with_policy<T>(&mut self, txn: &TransactionId, result: Result<T, StoreError>) -> (r:
        Result<T, StoreError>)
        requires
            old(self).wf(),
            old(self).room(1),
        ensures
            final(self).wf(),
            settled(
                *old(self),
                *final(self),
                txn.0,
                engine::fault_of(result),
                engine::fault_of(r),
            ),
            r matches Ok(v) ==> result matches Ok(w) && v == w,
    {
        match result {
            Err(StoreError::WriteConflict(key)) => match self.engine.txns.conflict_policy(txn) {
                ConflictPolicy::AbortOnConflict => match self.abort(*txn) {
                    Ok(()) => Err(StoreError::WriteConflictTransactionAborted(key)),
                    Err(e) => Err(e),
                },
                ConflictPolicy::ContinueOnConflict => Err(StoreError::WriteConflict(key)),
            },
            Err(StoreError::LockTimeout(t)) => {
                self.lock_timeouts = self.lock_timeouts.wrapping_add(1);
                let _undone = self.abort(*txn);
                Err(StoreError::LockTimeout(t))
            },
            Err(StoreError::LockOrderViolation(t)) => {
                self.lock_timeouts = self.lock_timeouts.wrapping_add(1);
                let _undone = self.abort(*txn);
                Err(StoreError::LockOrderViolation(t))
            },
            other => other,
        }
    }

    /// Hands a number out that nothing is logged under.
    fn skip_number(&mut self)
        requires
            old(self).wf(),
            old(self).room(1),
        ensures
            final(self).wf(),
            *final(self) == (Db { engine: final(self).engine, ..*old(self) }),
            final(self).engine@ == old(self).engine@.tick(),
            final(self).queued() == old(self).queued(),
            final(self).graves() == old(self).graves(),
            final(self).engine.clock.last_written == old(self).engine.clock.last_written,
    {
        let _lsn = self.engine.next_lsn();
        proof {
            steps::graves_stay(old(self).engine@, self.engine@, self.graves());
        }
    }

    /// What stands before every write: the transaction is active, the table
    /// exists, and writes are not refused. A refused write takes its number
    /// all the same.
    fn allow_write(&mut self, table: TableIdType, txn: &TransactionId) -> (r: Result<(), StoreError>)
        requires
            old(self).wf(),
            old(self).room(1),
        ensures
            final(self).wf(),
            match r {
                Ok(()) => old(self).engine@.txns.active.dom().contains(txn.0) && old(
                    self,
                ).engine@.live.contains(table) && old(self).degraded is None && *final(self)
                    == *old(self),
                Err(e) => (!old(self).engine@.txns.active.dom().contains(txn.0) || !old(
                    self,
                ).engine@.live.contains(table) || old(self).degraded is Some) && (forall|
                    plan: Result<(Op, Row), Fault>,
                | #[trigger]
                    wrote_row(*old(self), *final(self), table, txn.0, plan, Some(e@))),
            },
    {
        if let Err(e) = self.require_active(txn) {
            return Err(e);
        }
        if let Err(e) = self.require_table(table) {
            return Err(e);
        }
        if let Err(e) = self.refuse_if_degraded() {
            self.skip_number();
            return Err(e);
        }
        Ok(())
    }

    /// Fails if the table's index has no room for a new key.
    fn allow_key(&self, id: TableIdType, key: &DBIdType) -> (r: Result<(), StoreError>)
        requires
            self.wf(),
        ensures
            match r {
                Ok(()) => key_fault(*self, id, key@) is None,
                Err(e) => key_fault(*self, id, key@) == Some(e@),
            },
    {
        if self.engine.rows.get(id, key).is_some() {
            return Ok(());
        }
        let mut i: usize = self.tables.len();
        assert(self.tables@.take(i as int) =~= self.tables@);
        while i > 0
            invariant
                i <= self.tables@.len(),
                !self.engine@.rows.dom().contains(Place { table: id, key: key@ }),
                listed(self.tables@, id) == listed(self.tables@.take(i as int), id),
            decreases i,
        {
            i -= 1;
            proof {
                assert(self.tables@.take(i + 1).drop_last() =~= self.tables@.take(i as int));
            }
            if self.tables[i].id.0 == id.0 {
                return self.tables[i].check_entry(key);
            }
        }
        Ok(())
    }

    /// Inserts a row.
    pub fn insert(&mut self, id: TableIdType, tuple: Tuple, txn: &Transaction) -> (r: Result<
        (),
        StoreError,
    >)
        requires
            old(self).wf(),
            old(self).room(2),
        ensures
            final(self).wf(),
            wrote_row(
                *old(self),
                *final(self),
                id,
                txn.id.0,
                insert_plan(*old(self), id, tuple@, txn.id.0),
                engine::fault_of(r),
            ),
            r is Ok ==> writes::found(*old(self), txn.id.0, id, tuple@.id) is None,
            r is Ok ==> (writes::found(*final(self), txn.id.0, id, tuple@.id) matches Some(row)
                && row.id == tuple@.id && row.data == tuple@.data),
            writes::may_write(*old(self), id, txn.id.0) && key_fault(*old(self), id, tuple@.id)
                is None && writes::up_to_date(
                old(self).engine@,
                txn.id.0,
                Place { table: id, key: tuple@.id },
            ) ==> (r is Ok <==> writes::found(*old(self), txn.id.0, id, tuple@.id) is None),
    {
        let x = txn.id();
        if let Err(e) = self.allow_write(id, &x) {
            return Err(e);
        }
        if let Err(e) = self.allow_key(id, &tuple.id) {
            self.skip_number();
            return Err(e);
        }
        let result = self.engine.insert(id, tuple, &x);
        proof {
            steps::graves_stay(old(self).engine@, self.engine@, self.graves());
        }
        let r = self.write_with_policy(&x, result);
        proof {
            let row = tuple@;
            let failed = engine::fault_of(r);
            if r is Ok {
                writes::insert_is_read(*old(self), *self, id, row, x.0);
            } else if writes::may_write(*old(self), id, x.0) && key_fault(
                *old(self),
                id,
                row.id,
            ) is None && writes::up_to_date(old(self).engine@, x.0, Place { table: id, key: row.id })
                && writes::found(*old(self), x.0, id, row.id) is None {
                writes::absent_row_is_inserted(*old(self), *self, id, row, x.0, failed);
            }
        }
        r
    }

    /// Gives a row new contents.
    pub fn update(&mut self, tid: TableIdType, new_tuple: Tuple, txn: &Transaction) -> (r: Result<
        (),
        StoreError,
    >)
        requires
            old(self).wf(),
            old(self).room(2),
        ensures
            final(self).wf(),
            wrote_row(
                *old(self),
                *final(self),
                tid,
                txn.id.0,
                engine::update_plan(old(self).engine@, tid, new_tuple@, txn.id.0),
                engine::fault_of(r),
            ),
            r is Ok ==> (writes::found(*final(self), txn.id.0, tid, new_tuple@.id) matches Some(row)
                && row.id == new_tuple@.id && row.data == new_tuple@.data),
            writes::may_write(*old(self), tid, txn.id.0) && writes::up_to_date(
                old(self).engine@,
                txn.id.0,
                Place { table: tid, key: new_tuple@.id },
            ) ==> (r is Ok <==> writes::found(*old(self), txn.id.0, tid, new_tuple@.id) is Some),
    {
        let x = txn.id();
        if let Err(e) = self.allow_write(tid, &x) {
            return Err(e);
        }
        let result = self.engine.update(tid, new_tuple, &x);
        proof {
            steps::graves_stay(old(self).engine@, self.engine@, self.graves());
        }
        let r = self.write_with_policy(&x, result);
        proof {
            let row = new_tuple@;
            let failed = engine::fault_of(r);
            if r is Ok {
                writes::update_is_read(*old(self), *self, tid, row, x.0);
            } else if writes::may_write(*old(self), tid, x.0) && writes::up_to_date(
                old(self).engine@,
                x.0,
                Place { table: tid, key: row.id },
            ) && writes::found(*old(self), x.0, tid, row.id) is Some {
                writes::present_row_is_updated(*old(self), *self, tid, row, x.0, failed);
            }
        }
        r
    }

    /// Removes a row and returns what it was.
    pub fn remove(&mut self, tid: TableIdType, id: DBIdType, txn: &Transaction) -> (r: Result<
        Tuple,
        StoreError,
    >)
        requires
            old(self).wf(),
            old(self).room(2),
        ensures
            final(self).wf(),
            wrote_row(
                *old(self),
                *final(self),
                tid,
                txn.id.0,
                engine::remove_plan(old(self).engine@, tid, id@, txn.id.0),
                engine::fault_of(r),
            ),
            r matches Ok(t) ==> removed(*old(self), tid, id@, t@),
            r matches Ok(t) ==> writes::found(*old(self), txn.id.0, tid, id@) == Some(t@),
            r is Ok ==> writes::found(*final(self), txn.id.0, tid, id@) is None,
            writes::may_write(*old(self), tid, txn.id.0) && writes::up_to_date(
                old(self).engine@,
                txn.id.0,
                Place { table: tid, key: id@ },
            ) ==> (r is Ok <==> writes::found(*old(self), txn.id.0, tid, id@) is Some),
    {
        let x = txn.id();
        if let Err(e) = self.allow_write(tid, &x) {
            return Err(e);
        }
        let result = self.engine.remove(tid, id, &x);
        proof {
            steps::graves_stay(old(self).engine@, self.engine@, self.graves());
        }
        let r = self.write_with_policy(&x, result);
        proof {
            let failed = engine::fault_of(r);
            if r is Ok {
                writes::removal_returns_what_was_read(*old(self), *self, tid, id@, x.0, r->Ok_0@);
            } else if writes::may_write(*old(self), tid, x.0) && writes::up_to_date(
                old(self).engine@,
                x.0,
                Place { table: tid, key: id@ },
            ) && writes::found(*old(self), x.0, tid, id@) is Some {
                let out = old(self).engine@.rows[Place { table: tid, key: id@ }];
                writes::present_row_is_removed(*old(self), *self, tid, id@, x.0, failed, out);
            }
        }
        r
    }

    /// Reads the row under a key, as it is in the transaction's snapshot.
    pub fn find(&mut self, tid: TableIdType, id: DBIdType, txn: &Transaction) -> (r: Result<
        Option<Tuple>,
        StoreError,
    >)
        requires
            old(self).wf(),
        ensures
            final(self).wf(),
            match r {
                Ok(found) => may_read(*old(self), tid, txn.id.0) && *final(self) == *old(self)
                    && answered(*old(self), tid, id@, txn.id.0, opt_row(found)),
                Err(e) => !may_read(*old(self), tid, txn.id.0) && cannot_read(
                    *old(self),
                    *final(self),
                    tid,
                    txn.id.0,
                    e@,
                ),
            },
    {
        let x = txn.id();
        if let Err(e) = self.require_active(&x) {
            return Err(e);
        }
        if let Err(e) = self.require_table(tid) {
            return Err(e);
        }
        self.engine.read(tid, &id, &x)
    }

    /// All the rows of a table that the transaction sees, its own writes among
    /// them, in the order of keys.
    pub fn table_scan_in_txn(&mut self, tid: TableIdType, txn: &Transaction) -> (r: Result<
        Vec<Tuple>,
        StoreError,
    >)
        requires
            old(self).wf(),
        ensures
            final(self).wf(),
            match r {
                Ok(out) => may_read(*old(self), tid, txn.id.0) && *final(self) == *old(self)
                    && engine::scan_of(
                    old(self).engine@,
                    tid,
                    Viewer::Reader(txn.id.0),
                    engine::tuples(out@),
                ),
                Err(e) => !may_read(*old(self), tid, txn.id.0) && cannot_read(
                    *old(self),
                    *final(self),
                    tid,
                    txn.id.0,
                    e@,
                ),
            },
    {
        let x = txn.id();
        if let Err(e) = self.require_active(&x) {
            return Err(e);
        }
        if let Err(e) = self.require_table(tid) {
            return Err(e);
        }
        self.engine.scan(tid, &x)
    }

    /// All the rows of a table that have committed, in the order of keys. The
    /// scan is a transaction of its own that is rolled back at the end.
    pub fn table_scan(&mut self, tid: TableIdType) -> (r: Result<Vec<Tuple>, StoreError>)
        requires
            old(self).wf(),
            old(self).room(2),
        ensures
            final(self).wf(),
            match r {
                Ok(out) => {
                    let x = old(self).engine.clock.counter;
                    let c = old(self).engine@.begun(ConflictPolicy::ContinueOnConflict);
                    &&& old(self).engine@.live.contains(tid)
                    &&& engine::scan_of(
                        old(self).engine@,
                        tid,
                        Viewer::Latest,
                        engine::tuples(out@),
                    )
                    &&& *final(self) == (Db { engine: final(self).engine, ..*old(self) })
                    &&& final(self).graves() == old(self).graves()
                    &&& if old(self).fail_reverts {
                        final(self).engine@ == c.aborting_now(x) && final(self).queued() == old(
                            self,
                        ).queued()
                    } else {
                        final(self).engine@ == c.aborting_now(x).aborted(x)
                            && final(self).queued() == old(self).queued().push(
                            Entry {
                                lsn: LsnId((x + 1) as u64),
                                op: Op::Rollback(TransactionId(x)),
                            },
                        )
                    }
                },
                Err(e) => !old(self).engine@.live.contains(tid) && e@ == Fault::TableNotFound(
                    text::decimal(tid.0 as nat),
                ) && *final(self) == *old(self),
            },
    {
        if let Err(e) = self.require_table(tid) {
            return Err(e);
        }
        let policy = ConflictPolicy::ContinueOnConflict;
        let x = self.engine.begin(policy);
        proof {
            steps::graves_stay(old(self).engine@, self.engine@, self.graves());
        }
        let out = self.engine.scan(tid, &x);
        proof {
            steps::begun_keeps(old(self).engine@, policy);
            let c = old(self).engine@;
            assert forall|p: Place| #[trigger]
                c.read(Viewer::Latest, p) == self.engine@.read(Viewer::Reader(x.0), p) by {
                assert(c.begun(policy).look(Viewer::Reader(x.0), p) == c.look(Viewer::Latest, p));
            }
        }
        let _undone = self.abort(x);
        out
    }
}

/// An optional row, as contracts speak of it.
pub open spec fn opt_row(t: Option<Tuple>) -> Option<Row> {
    match t {
        Some(t) => Some(t@),
        None => None,
    }
}

/// Is this what the transaction reads under the key?
pub open spec fn answered(db: Db, table: TableIdType, key: Key, x: u64, out: Option<Row>) -> bool {
    out == db.engine@.read(Viewer::Reader(x), Place { table, key })
}

/// May the transaction read the table?
pub open spec fn may_read(db: Db, table: TableIdType, x: u64) -> bool {
    db.engine@.txns.active.dom().contains(x) && db.engine@.live.contains(table)
}

/// What a read comes to that may not be: the transaction is not active, or the
/// table does not exist.
pub open spec fn cannot_read(before: Db, after: Db, table: TableIdType, x: u64, e: Fault) -> bool {
    if !before.engine@.txns.active.dom().contains(x) {
        e == inactive_fault(before.forced(), x) && after == (Db {
            forced_aborts: after.forced_aborts,
            ..before
        }) && after.forced() == before.forced().remove(x)
    } else {
        e == Fault::TableNotFound(text::decimal(table.0 as nat)) && after == before
    }
}

} // verus!

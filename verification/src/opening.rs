//! Creating a database, and opening one.
use vstd::prelude::*;
use vstd::slice::slice_subrange;
use vstd::string::*;

use crate::assoc;
use crate::catalog;
use crate::catalog::{load_system_tables, Loaded, SystemPages};
use crate::clock;
use crate::clock::LsnClock;
use crate::codec::CodecError;
use crate::db;
use crate::db::{
    DataFile, Db, SnapshotLimits, DEFAULT_MAX_RETAINED_WAL_BYTES, DEFAULT_MAX_VERSION_RECORDS,
};
use crate::engine;
use crate::engine::Engine;
use crate::error::{Fault, IoFault, StoreError};
use crate::freelist;
use crate::freelist::{keep_in_file, reconcile_free_list};
use crate::generator;
use crate::generator::{Generator, Marks};
use crate::header;
use crate::header::{
    Header, DEFAULT_MAX_INDEX_KEY_SIZE, DEFAULT_PAGE_SIZE, HEADER_FORMAT_VERSION, HEADER_SIZE,
    MAGIC, ZERO_PAGE_SIZE,
};
use crate::maintenance::{Counts, MaintenanceStats};
use crate::memfile::{Disk, MemFile, Namespace};
use crate::mvcc::{Core, Place, Txns, Viewer};
use crate::operation;
use crate::operation::{Entry, LogRecord};
use crate::page::{Page, PageId, PAGE_OVERHEAD};
use crate::recovery;
use crate::recovery::{is_version_ok, leave_room, process_log};
use crate::rows;
use crate::rows::RowStore;
use crate::segment;
use crate::steps;
use crate::table;
use crate::table::{Tab, Table, TableIdType};
use crate::text::same_text;
use crate::tuple::Row;
use crate::txn::TransactionManager;
use crate::version::VersionStore;
use crate::wal;
use crate::wal::{open_segments, OpenedWal, WalState};

verus! {

/// The first page that is not one of the system's.
pub const FIRST_USER_PAGE: u64 = 3;

// ---------------------------------------------------------------------------
// Creating
// ---------------------------------------------------------------------------

/// The header of a database that was just created.
pub open spec fn first_header(page_size: u64, max_index_key_size: u64, now: u128) -> Header {
    header::sealed(
        Header {
            magic: MAGIC,
            format_version: HEADER_FORMAT_VERSION,
            first_page_offset: ZERO_PAGE_SIZE,
            page_count: 0,
            page_size,
            last_checkpoint: now,
            counter: 1,
            checkpoint_lsn: 0,
            max_index_key_size,
            header_checksum: 0,
        },
    )
}

/// Has nothing gone wrong yet, and nothing been counted?
pub open spec fn untroubled(db: Db) -> bool {
    &&& db.degraded is None
    &&& db.abort_attempts@.len() == 0
    &&& db.forced_aborts@.len() == 0
    &&& db.snapshot_limits == (SnapshotLimits {
        max_retained_wal_bytes: DEFAULT_MAX_RETAINED_WAL_BYTES,
        max_version_records: DEFAULT_MAX_VERSION_RECORDS,
    })
    &&& db.snapshot_too_old_aborts == 0
    &&& db.lock_timeouts == 0
    &&& db.maintenance@ == Counts::none()
    &&& !db.fail_reverts
}

/// What a database is that was just created: nothing is in it but its own
/// three pages. The data file has its header, but nothing else before the first
/// checkpoint.
pub open spec fn brand_new(db: Db, name: Seq<char>, header: Header, now: u128) -> bool {
    &&& bare(db, name, header, now)
    &&& db.page_count == FIRST_USER_PAGE
    &&& db.links@ == seq![0u64, 0, 0]
}

/// What a database is that was just created, but for its pages.
pub open spec fn bare(db: Db, name: Seq<char>, header: Header, now: u128) -> bool {
    &&& untroubled(db)
    &&& db.name@ == name
    &&& db.header == header
    &&& db.data.header@ == header::block(header)
    &&& db.data.rows@ == Map::<Place, Row>::empty()
    &&& db.free_pages@.len() == 0
    &&& db.tables@.len() == 0
    &&& db.generator@ == Map::<Seq<char>, Marks>::empty().insert(
        db::system_name(),
        Marks { next: 0, high: 0 },
    )
    &&& db.engine@ == (Core {
        live: Set::empty(),
        next_table: 0,
        rows: Map::empty(),
        txns: Txns::none(),
        records: seq![],
        pending: seq![],
        counter: 1,
    })
    &&& db.engine.clock.last_written == 0
    &&& db.queued().len() == 0
    &&& db.graves().len() == 0
    &&& db.last_checkpoint == now
    &&& db.recovered_records == 0
}

/// Pages of the system that hold nothing.
fn blank_pages(page_size: u64) -> (s: SystemPages)
    requires
        page_size >= PAGE_OVERHEAD,
    ensures
        s.catalog.wf(),
        s.sequences.wf(),
        s.free.wf(),
{
    SystemPages {
        catalog: Page::new_pinned(page_size),
        sequences: Page::new_pinned(page_size),
        free: Page::new_pinned(page_size),
    }
}

impl Db {
    /// Creates a database with pages of the usual size. The files of its log
    /// are in `ns`.
    pub fn create(name: &str, ns: Namespace, now: u128) -> (r: Result<Db, StoreError>)
        requires
            ns.wf(),
            wal::next_number(segment::segments_of(ns@, name@)) <= u64::MAX,
        ensures
            made(
                name@,
                ns@,
                first_header(DEFAULT_PAGE_SIZE, DEFAULT_MAX_INDEX_KEY_SIZE, now),
                now,
                r,
            ),
    {
        Db::create_with_page_size(name, ns, DEFAULT_PAGE_SIZE, now)
    }

    /// Creates a database with pages of this size.
    pub fn create_with_page_size(name: &str, ns: Namespace, page_size: u64, now: u128) -> (r:
        Result<Db, StoreError>)
        requires
            ns.wf(),
            wal::next_number(segment::segments_of(ns@, name@)) <= u64::MAX,
            page_size >= PAGE_OVERHEAD,
        ensures
            made(name@, ns@, first_header(page_size, DEFAULT_MAX_INDEX_KEY_SIZE, now), now, r),
    {
        Db::create_with_page_size_and_max_index_key_size(
            name,
            ns,
            page_size,
            DEFAULT_MAX_INDEX_KEY_SIZE,
            now,
        )
    }

    /// Creates a database with pages of this size and this cap on the size of
    /// an index key.
    pub fn create_with_page_size_and_max_index_key_size(
        name: &str,
        ns: Namespace,
        page_size: u64,
        max_index_key_size: u64,
        now: u128,
    ) -> (r: Result<Db, StoreError>)
        requires
            ns.wf(),
            wal::next_number(segment::segments_of(ns@, name@)) <= u64::MAX,
            page_size >= PAGE_OVERHEAD,
        ensures
            made(name@, ns@, first_header(page_size, max_index_key_size, now), now, r),
    {
        let mut db = match Db::create_core_db(name, ns, page_size, max_index_key_size, now) {
            Ok(db) => db,
            Err(e) => {
                return Err(e);
            },
        };
        let ghost core = db;
        db.generator.attach_logger();
        db.create_system_tables();
        assert(db == core.completed(db.links));
        Ok(db)
    }

    /// The database with the system's pages, and with a log for its sequences.
    spec fn completed(self, links: Vec<u64>) -> Db {
        Db {
            generator: Generator { attached: true, ..self.generator },
            page_count: FIRST_USER_PAGE,
            links,
            ..self
        }
    }

    /// Sets up everything but the system's pages.
    fn create_core_db(
        name: &str,
        ns: Namespace,
        page_size: u64,
        max_index_key_size: u64,
        now: u128,
    ) -> (r: Result<Db, StoreError>)
        requires
            ns.wf(),
            wal::next_number(segment::segments_of(ns@, name@)) <= u64::MAX,
            page_size >= PAGE_OVERHEAD,
        ensures
            match wal::scan_all(ns@, page_size, segment::segments_of(ns@, name@)) {
                Err(f) => r matches Err(e) && e@ == f,
                Ok(parts) => r matches Ok(core) && core.page_count == 0 && core.links@.len() == 0
                    && core.generator.wf() && (forall|links: Vec<u64>|
                    links@ == seq![0u64, 0, 0] ==> #[trigger] core.completed(links).wf()) && bare(
                    core,
                    name@,
                    first_header(page_size, max_index_key_size, now),
                    now,
                ) && core.wal@ == wal::opened_wal(
                    ns@,
                    name@,
                    page_size,
                    segment::segments_of(ns@, name@),
                    parts,
                ) && core.ns@ == wal::opened_disk(
                    ns@,
                    name@,
                    page_size,
                    segment::segments_of(ns@, name@),
                ),
            },
    {
        let mut ns = ns;
        let handle = MemFile { at: 0, seek_pos: 0 };
        let opened = match open_segments(name, &handle, &mut ns, page_size) {
            Ok(o) => o,
            Err(e) => {
                return Err(e);
            },
        };
        let mut header = Header {
            magic: MAGIC,
            format_version: HEADER_FORMAT_VERSION,
            first_page_offset: ZERO_PAGE_SIZE,
            page_count: 0,
            page_size,
            last_checkpoint: now,
            counter: 1,
            checkpoint_lsn: 0,
            max_index_key_size,
            header_checksum: 0,
        };
        header.seal();
        let mut generator = Generator::new();
        let _made = generator.create_generator("__system.tables", None);
        let engine = Engine {
            rows: RowStore::new(),
            txns: TransactionManager::new(),
            versions: VersionStore::new(),
            clock: LsnClock::default(),
            live: Vec::new(),
            next_table: Ghost(0),
            out: Vec::new(),
        };
        proof {
            steps::quiet_is_wf(engine@);
            assert(engine@.live =~= Set::empty());
        }
        let db = Db {
            name: name.to_owned(),
            header,
            data: DataFile {
                header: header.to_block(),
                system: blank_pages(page_size),
                rows: RowStore::new(),
                links: Vec::new(),
            },
            ns,
            wal: opened.wal,
            page_count: 0,
            free_pages: Vec::new(),
            links: Vec::new(),
            tables: Vec::new(),
            generator,
            engine,
            last_checkpoint: now,
            degraded: None,
            abort_attempts: Vec::new(),
            forced_aborts: Vec::new(),
            snapshot_limits: SnapshotLimits {
                max_retained_wal_bytes: DEFAULT_MAX_RETAINED_WAL_BYTES,
                max_version_records: DEFAULT_MAX_VERSION_RECORDS,
            },
            snapshot_too_old_aborts: 0,
            lock_timeouts: 0,
            recovered_records: 0,
            maintenance: MaintenanceStats::default(),
            fail_reverts: false,
        };
        proof {
            assert(db.generator.log().len() == db.generator.outbox@.len());
            assert(db.engine@.rows =~= Map::empty());
            assert forall|links: Vec<u64>| links@ == seq![0u64, 0, 0] implies #[trigger] db.completed(
                links,
            ).wf() by {
                let starts = starts_of(table::tabs(db.tables@));
                assert(starts =~= seq![PageId(0), PageId(1), PageId(2)]);
                assert(!freelist::leads_out(links@, seq![]));
                freelist::stays_inside(links@, seq![], links@, starts);
            }
        }
        Ok(db)
    }

    /// Sets the system's three pages aside.
    fn create_system_tables(&mut self)
        requires
            old(self).page_count == 0,
            old(self).links@.len() == 0,
        ensures
            *final(self) == (Db {
                page_count: FIRST_USER_PAGE,
                links: final(self).links,
                ..*old(self)
            }),
            final(self).links@ == seq![0u64, 0, 0],
    {
        self.links.push(0);
        self.links.push(0);
        self.links.push(0);
        self.page_count = FIRST_USER_PAGE;
        assert(self.links@ =~= seq![0u64, 0, 0]);
    }
}

/// What creating a database comes to: the segments that are there under its
/// name have to be sound, and a new one is begun.
pub open spec fn made(
    name: Seq<char>,
    d: Disk,
    header: Header,
    now: u128,
    r: Result<Db, StoreError>,
) -> bool {
    let list = segment::segments_of(d, name);
    match wal::scan_all(d, header.page_size, list) {
        Err(f) => r matches Err(e) && e@ == f,
        Ok(parts) => r matches Ok(db) && db.wf() && brand_new(db, name, header, now) && db.wal@
            == wal::opened_wal(d, name, header.page_size, list, parts) && db.ns@
            == wal::opened_disk(d, name, header.page_size, list),
    }
}

// ---------------------------------------------------------------------------
// Opening
// ---------------------------------------------------------------------------

/// The first pages of everything that a file holds: the system's, and those of
/// every table.
pub open spec fn starts_of(ts: Seq<Tab>) -> Seq<PageId>
    decreases ts.len(),
{
    if ts.len() == 0 {
        seq![PageId(0), PageId(1), PageId(2)]
    } else {
        starts_of(ts.drop_last()).push(ts.last().first_index_page).push(ts.last().first_data_page)
    }
}

/// One above the highest number of a table.
pub open spec fn next_id(ts: Seq<Tab>) -> nat
    decreases ts.len(),
{
    if ts.len() == 0 {
        0
    } else {
        recovery::most(next_id(ts.drop_last()), ts.last().id.0 as nat + 1)
    }
}

/// The numbers of tables.
pub open spec fn ids_of(ts: Seq<Tab>) -> Set<TableIdType> {
    Set::new(|x: TableIdType| exists|i: int| 0 <= i < ts.len() && (#[trigger] ts[i]).id == x)
}

/// Are these tables that can be together in a database?
pub open spec fn tabs_sound(ts: Seq<Tab>) -> bool {
    &&& forall|i: int, j: int|
        0 <= i < j < ts.len() ==> (#[trigger] ts[i]).id != (#[trigger] ts[j]).id && ts[i].name
            != ts[j].name
    &&& forall|i: int|
        0 <= i < ts.len() ==> (#[trigger] ts[i]).name != db::system_name() && ts[i].id.0 < u64::MAX
}

/// Can the engine work with all of the rows, its clock being at `top`?
pub open spec fn rows_sound(rows: Map<Place, Row>, live: Set<TableIdType>, top: nat) -> bool {
    forall|p: Place| #[trigger] rows.dom().contains(p) ==> recovery::usable(p, rows[p], live, top)
}

/// The sequences after the log was replayed over what the file says of them.
pub open spec fn marks_after(vs: Seq<(Seq<char>, u64)>, es: Seq<Entry>) -> Map<Seq<char>, Marks> {
    generator::replay_marks(
        generator::raised_all(Map::empty(), vs),
        recovery::entry_ops(es),
    )
}

/// Does the sequence that numbers the tables exist, and is it above them all?
pub open spec fn marks_sound(m: Map<Seq<char>, Marks>, ts: Seq<Tab>) -> bool {
    m.dom().contains(db::system_name()) && next_id(ts) <= m[db::system_name()].next
}

/// Where the clock starts, the header saying this.
pub open spec fn seeded(header: Header) -> u64 {
    clock::larger(header.counter, 1)
}

/// The message for a data file and a log that no database wrote.
pub open spec fn unsound_text() -> Seq<char> {
    "the tables, rows, sequences and records do not fit each other"@
}

/// What opening a database finds.
pub struct Opening {
    pub header: Header,
    /// The records of each segment.
    pub parts: Seq<Seq<Entry>>,
    /// The records to be replayed: those at or above the header's floor.
    pub records: Seq<Entry>,
    pub tables: Seq<Tab>,
    /// The sequences, after replay.
    pub marks: Map<Seq<char>, Marks>,
    /// The pages of the file that are free and that nothing reaches.
    pub free: Seq<PageId>,
    pub links: Seq<u64>,
}

/// What opening a database finds, or why it cannot be opened. A header that is
/// damaged is refused before anything in it is used, and a log that belongs
/// elsewhere before anything is changed.
pub open spec fn opening(name: Seq<char>, data: DataFile, d: Disk) -> Result<Opening, Fault> {
    if data.header@.len() < HEADER_SIZE {
        Err(Fault::Io(IoFault::UnexpectedEof))
    } else {
        match header::decoded(data.header@.take(HEADER_SIZE as int)) {
            Err(f) => Err(f),
            Ok(h) => match wal::scan_all(d, h.page_size, segment::segments_of(d, name)) {
                Err(f) => Err(f),
                Ok(parts) => if h.page_count < FIRST_USER_PAGE {
                    Err(Fault::Unknown("Unable to load system tables"@))
                } else {
                    match catalog::loaded(data.system) {
                        Err(e) => Err(Fault::Serialization(e)),
                        Ok((ts, vs, ids)) => found(data, h, parts, ts, vs, ids),
                    }
                },
            },
        }
    }
}

/// What opening a database finds behind its header, its log and its system
/// pages.
pub open spec fn found(
    data: DataFile,
    h: Header,
    parts: Seq<Seq<Entry>>,
    ts: Seq<Tab>,
    vs: Seq<(Seq<char>, u64)>,
    ids: Seq<PageId>,
) -> Result<Opening, Fault> {
    let records = recovery::above(wal::joined(parts), h.checkpoint_lsn);
    let top = recovery::clock_after(seeded(h) as nat, records);
    let links = data.links@.take(h.page_count as int);
    if data.links@.len() < h.page_count || freelist::leads_out(links, starts_of(ts)) {
        Err(Fault::Io(IoFault::UnexpectedEof))
    } else if !(tabs_sound(ts) && (forall|i: int|
        0 <= i < records.len() ==> recovery::entry_top(#[trigger] records[i]) < u64::MAX)
        && rows_sound(recovery::recovered(data.rows@, ids_of(ts), records), ids_of(ts), top)
        && marks_sound(marks_after(vs, records), ts)) {
        Err(Fault::Corruption(unsound_text()))
    } else {
        Ok(
            Opening {
                header: h,
                parts,
                records,
                tables: ts,
                marks: marks_after(vs, records),
                free: freelist::in_file(
                    freelist::not_reached(ids, links, starts_of(ts)),
                    h.page_count as nat,
                ),
                links,
            },
        )
    }
}

/// What a database is that was just opened: the data file's rows with the log
/// replayed over them, and no transactions.
pub open spec fn resumed(db: Db, name: Seq<char>, data: DataFile, o: Opening) -> bool {
    &&& untroubled(db)
    &&& db.name@ == name
    &&& db.header == o.header
    &&& db.data == data
    &&& db.page_count == o.header.page_count
    &&& db.free_pages@ == o.free
    &&& db.links@ == o.links
    &&& table::tabs(db.tables@) == o.tables
    &&& db.generator@ == o.marks
    &&& db.engine@ == (Core {
        live: ids_of(o.tables),
        next_table: o.marks[db::system_name()].next,
        rows: recovery::recovered(data.rows@, ids_of(o.tables), o.records),
        txns: Txns::none(),
        records: seq![],
        pending: seq![],
        counter: recovery::clock_after(seeded(o.header) as nat, o.records),
    })
    &&& db.engine.clock.last_written == db.engine.clock.counter - 1
    &&& db.queued().len() == 0
    &&& db.graves().len() == 0
    &&& db.last_checkpoint == o.header.last_checkpoint
    &&& db.recovered_records == o.records.len()
}

/// What a database is that was just opened: its log has a new segment behind
/// those that were found.
pub open spec fn opened(db: Db, name: Seq<char>, data: DataFile, d: Disk, o: Opening) -> bool {
    let list = segment::segments_of(d, name);
    &&& resumed(db, name, data, o)
    &&& db.wal@ == wal::opened_wal(d, name, o.header.page_size, list, o.parts)
    &&& db.ns@ == wal::opened_disk(d, name, o.header.page_size, list)
}

/// Keeps the records at or above the floor.
fn keep_above(records: Vec<LogRecord>, floor: u64) -> (out: Vec<LogRecord>)
    ensures
        operation::entries(out@) == recovery::above(operation::entries(records@), floor),
{
    let ghost es = operation::entries(records@);
    let mut out: Vec<LogRecord> = Vec::new();
    assert(operation::entries(out@) =~= recovery::above(es.take(0), floor));
    for r in it: records
        invariant
            it.seq() == records@,
            es == operation::entries(records@),
            operation::entries(out@) == recovery::above(es.take(it.index()), floor),
    {
        let ghost i = it.index();
        assert(es.take(i + 1).drop_last() =~= es.take(i));
        assert(es.take(i + 1).last() == r@);
        let ghost was = out@;
        if r.lsn.0 >= floor {
            out.push(r);
            assert(operation::entries(out@) =~= operation::entries(was).push(r@));
        }
    }
    assert(es.take(es.len() as int) =~= es);
    out
}

/// The first pages of everything that a file holds.
fn all_starts(tables: &Vec<Table>) -> (out: Vec<PageId>)
    ensures
        out@ == starts_of(table::tabs(tables@)),
{
    let ghost ts = table::tabs(tables@);
    let mut out: Vec<PageId> = Vec::new();
    out.push(PageId(0));
    out.push(PageId(1));
    out.push(PageId(2));
    assert(out@ =~= starts_of(ts.take(0)));
    for i in 0..tables.len()
        invariant
            ts == table::tabs(tables@),
            out@ == starts_of(ts.take(i as int)),
    {
        out.push(tables[i].first_index_page);
        out.push(tables[i].first_data_page);
        assert(ts.take(i + 1).drop_last() =~= ts.take(i as int));
        assert(ts.take(i + 1).last() == tables@[i as int]@);
    }
    assert(ts.take(ts.len() as int) =~= ts);
    out
}

/// Are these tables that can be together in a database?
fn are_sound(tables: &Vec<Table>) -> (r: bool)
    ensures
        r == tabs_sound(table::tabs(tables@)),
{
    let ghost ts = table::tabs(tables@);
    for i in 0..tables.len()
        invariant
            ts == table::tabs(tables@),
            forall|a: int, b: int|
                0 <= a < b < ts.len() && a < i ==> (#[trigger] ts[a]).id != (#[trigger] ts[b]).id
                    && ts[a].name != ts[b].name,
            forall|a: int|
                0 <= a < i ==> (#[trigger] ts[a]).name != db::system_name() && ts[a].id.0
                    < u64::MAX,
    {
        assert(ts[i as int] == tables@[i as int]@);
        if same_text(tables[i].name.as_str(), "__system.tables") || tables[i].id.0 == u64::MAX {
            return false;
        }
        for j in i + 1..tables.len()
            invariant
                i < tables@.len(),
                ts == table::tabs(tables@),
                forall|b: int|
                    i < b < j ==> ts[i as int].id != (#[trigger] ts[b]).id && ts[i as int].name
                        != ts[b].name,
        {
            assert(ts[j as int] == tables@[j as int]@);
            assert(ts[i as int] == tables@[i as int]@);
            if tables[i].id == tables[j].id || same_text(
                tables[i].name.as_str(),
                tables[j].name.as_str(),
            ) {
                return false;
            }
        }
    }
    true
}

/// The numbers of tables, and one above the highest.
fn numbers_of(tables: &Vec<Table>) -> (r: (Vec<TableIdType>, u64))
    requires
        tabs_sound(table::tabs(tables@)),
    ensures
        engine::table_set(r.0@) == ids_of(table::tabs(tables@)),
        r.1 == next_id(table::tabs(tables@)),
        forall|x: TableIdType| #[trigger]
            ids_of(table::tabs(tables@)).contains(x) ==> x.0 < r.1,
{
    let ghost ts = table::tabs(tables@);
    let mut live: Vec<TableIdType> = Vec::new();
    let mut next: u64 = 0;
    for i in 0..tables.len()
        invariant
            ts == table::tabs(tables@),
            tabs_sound(ts),
            live@.len() == i,
            forall|j: int| 0 <= j < i ==> #[trigger] live@[j] == ts[j].id,
            next == next_id(ts.take(i as int)),
            forall|j: int| 0 <= j < i ==> (#[trigger] ts[j]).id.0 < next,
    {
        assert(ts[i as int] == tables@[i as int]@);
        let id = tables[i].id;
        live.push(id);
        assert(ts.take(i + 1).drop_last() =~= ts.take(i as int));
        if next < id.0 + 1 {
            next = id.0 + 1;
        }
    }
    proof {
        assert(ts.take(ts.len() as int) =~= ts);
        assert forall|x: TableIdType| #[trigger]
            engine::table_set(live@).contains(x) <==> ids_of(ts).contains(x) by {
            if live@.contains(x) {
                let j = choose|j: int| 0 <= j < live@.len() && live@[j] == x;
                assert(ts[j].id == x);
            }
            if ids_of(ts).contains(x) {
                let j = choose|j: int| 0 <= j < ts.len() && (#[trigger] ts[j]).id == x;
                assert(live@[j] == x);
            }
        }
        assert(engine::table_set(live@) =~= ids_of(ts));
    }
    (live, next)
}

/// Can the engine work with all of the rows, its clock being at `top`?
fn can_use(rows: &RowStore, live: &Vec<TableIdType>, top: u64) -> (r: bool)
    requires
        rows.wf(),
    ensures
        r == rows_sound(rows@, engine::table_set(live@), top as nat),
{
    let ghost set = engine::table_set(live@);
    let ghost pairs = rows::pairs(rows.items@);
    proof {
        rows::sorted_unique(rows.items@);
    }
    for i in 0..rows.items.len()
        invariant
            pairs == rows::pairs(rows.items@),
            assoc::unique(pairs),
            set == engine::table_set(live@),
            forall|j: int|
                0 <= j < i ==> recovery::usable(
                    (#[trigger] pairs[j]).0,
                    pairs[j].1,
                    set,
                    top as nat,
                ),
    {
        let item = &rows.items[i];
        assert(pairs[i as int] == (item.place(), item.tuple@));
        proof {
            assoc::assoc_at(pairs, i as int);
        }
        let known = is_listed(live, item.table);
        let numbered = is_version_ok(&item.tuple, top);
        if !(known && numbered) {
            assert(rows@.dom().contains(item.place()));
            assert(rows@[item.place()] == item.tuple@);
            return false;
        }
    }
    proof {
        assert forall|p: Place| #[trigger] rows@.dom().contains(p) implies recovery::usable(
            p,
            rows@[p],
            set,
            top as nat,
        ) by {
            let j = assoc::assoc_find(pairs, p);
            assert(pairs[j].0 == p);
        }
    }
    true
}

/// Is the table one of these?
fn is_listed(live: &Vec<TableIdType>, id: TableIdType) -> (r: bool)
    ensures
        r == engine::table_set(live@).contains(id),
{
    for i in 0..live.len()
        invariant
            forall|j: int| 0 <= j < i ==> #[trigger] live@[j] != id,
    {
        if live[i] == id {
            assert(live@[i as int] == id);
            return true;
        }
    }
    false
}

impl Db {
    /// Opens a database: the data file says where replay starts, and the log,
    /// whose files are in `ns`, is replayed from there.
    pub fn open_using(name: &str, data: DataFile, ns: Namespace) -> (r: Result<Db, StoreError>)
        requires
            ns.wf(),
            wal::next_number(segment::segments_of(ns@, name@)) <= u64::MAX,
            data.system.catalog.wf(),
            data.system.sequences.wf(),
            data.system.free.wf(),
            data.rows.wf(),
        ensures
            match opening(name@, data, ns@) {
                Err(f) => r matches Err(e) && e@ == f,
                Ok(o) => r matches Ok(db) && db.wf() && opened(db, name@, data, ns@, o),
            },
    {
        if data.header.len() < HEADER_SIZE as usize {
            return Err(StoreError::IoError(IoFault::UnexpectedEof));
        }
        let header = match Header::decode(slice_subrange(data.header.as_slice(), 0, 80)) {
            Ok(h) => h,
            Err(e) => {
                return Err(e);
            },
        };
        assert(data.header@.subrange(0, 80) =~= data.header@.take(80));
        proof {
            header::decoded_is_sound(data.header@.take(80));
        }
        let mut ns = ns;
        let handle = MemFile { at: 0, seek_pos: 0 };
        let OpenedWal { wal, records } = match open_segments(
            name,
            &handle,
            &mut ns,
            header.page_size,
        ) {
            Ok(o) => o,
            Err(e) => {
                return Err(e);
            },
        };
        let records = keep_above(records, header.checkpoint_lsn);
        if header.page_count < FIRST_USER_PAGE {
            return Err(StoreError::UnknownError("Unable to load system tables".to_owned()));
        }
        let Loaded { tables, values, free } = match load_system_tables(&data.system) {
            Ok(l) => l,
            Err(e) => {
                return Err(e);
            },
        };
        Db::load(name, header, data, ns, wal, records, tables, values, free)
    }

    /// Opens a database once its header, its log and its system pages are
    /// read.
    fn load(
        name: &str,
        header: Header,
        data: DataFile,
        ns: Namespace,
        wal: WalState,
        records: Vec<LogRecord>,
        tables: Vec<Table>,
        values: Vec<(String, u64)>,
        free: Vec<PageId>,
    ) -> (r: Result<Db, StoreError>)
        requires
            ns.wf(),
            wal::fits(wal@, ns@),
            wal@.name == name@,
            data.system.catalog.wf(),
            data.system.sequences.wf(),
            data.system.free.wf(),
            data.rows.wf(),
            header.page_size >= PAGE_OVERHEAD,
            header.page_count >= FIRST_USER_PAGE,
            header::as_written(header),
        ensures
            forall|parts: Seq<Seq<Entry>>|
                operation::entries(records@) == recovery::above(
                    #[trigger] wal::joined(parts),
                    header.checkpoint_lsn,
                ) ==> match found(
                    data,
                    header,
                    parts,
                    table::tabs(tables@),
                    generator::value_pairs(values@),
                    free@,
                ) {
                    Err(f) => r matches Err(e) && e@ == f,
                    Ok(o) => r matches Ok(db) && db.wf() && db.wal == wal && db.ns == ns && resumed(
                        db,
                        name@,
                        data,
                        o,
                    ),
                },
    {
        let ghost ts = table::tabs(tables@);
        let ghost es = operation::entries(records@);
        if header.page_count > data.links.len() as u64 {
            return Err(StoreError::IoError(IoFault::UnexpectedEof));
        }
        let count: usize = header.page_count as usize;
        let links = first_links(&data.links, count);
        let starts = all_starts(&tables);
        let free_pages = match reconcile_free_list(&free, &starts, &links) {
            Ok(f) => f,
            Err(e) => {
                return Err(e);
            },
        };
        let free_pages = keep_in_file(&free_pages, header.page_count);
        if !are_sound(&tables) {
            return Err(StoreError::Corruption(unsound()));
        }
        let (live, next) = numbers_of(&tables);
        let mut clock = LsnClock::default();
        clock.seed(header.counter);
        assert(es.len() == records@.len());
        if !leave_room(&records) {
            return Err(StoreError::Corruption(unsound()));
        }
        let mut generator = Generator::new();
        generator.set_values(&values);
        let mut engine = Engine {
            rows: data.rows.copy(),
            txns: TransactionManager::new(),
            versions: VersionStore::new(),
            clock,
            live,
            next_table: Ghost(next),
            out: Vec::new(),
        };
        let recovered_records: usize = process_log(&mut engine, &mut generator, &records);
        if !can_use(&engine.rows, &engine.live, engine.clock.counter) {
            return Err(StoreError::Corruption(unsound()));
        }
        let numbered = match generator.peek("__system.tables") {
            Some(v) => next <= v,
            None => false,
        };
        if !numbered {
            return Err(StoreError::Corruption(unsound()));
        }
        generator.attach_logger();
        engine.next_table = Ghost(generator@[db::system_name()].next);
        proof {
            assert(generator.log().len() == generator.outbox@.len());
            recovery::usable_is_wf(engine@);
        }
        let db = Db {
            name: name.to_owned(),
            header,
            page_count: header.page_count,
            last_checkpoint: header.last_checkpoint,
            data,
            ns,
            wal,
            free_pages,
            links,
            tables,
            generator,
            engine,
            degraded: None,
            abort_attempts: Vec::new(),
            forced_aborts: Vec::new(),
            snapshot_limits: SnapshotLimits {
                max_retained_wal_bytes: DEFAULT_MAX_RETAINED_WAL_BYTES,
                max_version_records: DEFAULT_MAX_VERSION_RECORDS,
            },
            snapshot_too_old_aborts: 0,
            lock_timeouts: 0,
            recovered_records,
            maintenance: MaintenanceStats::default(),
            fail_reverts: false,
        };
        proof {
            freelist::in_file_is_in_file(
                freelist::not_reached(free@, links@, starts_of(ts)),
                header.page_count as nat,
            );
            assert forall|i: int, j: int| 0 <= i < j < tables@.len() implies (#[trigger] tables@[i]).id
                != (#[trigger] tables@[j]).id && tables@[i].name@ != tables@[j].name@ by {
                assert(ts[i].id != ts[j].id);
            }
            assert forall|i: int| 0 <= i < tables@.len() implies (#[trigger] tables@[i]).name@
                != db::system_name() by {
                assert(ts[i].name != db::system_name());
            }
            assert forall|x: TableIdType| #[trigger]
                db.engine@.live.contains(x) <==> exists|i: int|
                    0 <= i < tables@.len() && (#[trigger] tables@[i]).id == x by {
                if db.engine@.live.contains(x) {
                    assert(ids_of(ts).contains(x));
                    let i = choose|i: int| 0 <= i < ts.len() && (#[trigger] ts[i]).id == x;
                    assert(tables@[i].id == x);
                }
                if exists|i: int| 0 <= i < tables@.len() && (#[trigger] tables@[i]).id == x {
                    let i = choose|i: int| 0 <= i < tables@.len() && (#[trigger] tables@[i]).id == x;
                    assert(ts[i].id == x);
                    assert(ids_of(ts).contains(x));
                }
            }
        }
        Ok(db)
    }
}

/// The message for a data file and a log that no database wrote.
fn unsound() -> (t: String)
    ensures
        t@ == unsound_text(),
{
    "the tables, rows, sequences and records do not fit each other".to_owned()
}

/// The first `n` links.
fn first_links(links: &Vec<u64>, n: usize) -> (out: Vec<u64>)
    requires
        n <= links@.len(),
    ensures
        out@ == links@.take(n as int),
{
    let mut out: Vec<u64> = Vec::new();
    for i in 0..n
        invariant
            n <= links@.len(),
            out@ == links@.take(i as int),
    {
        out.push(links[i]);
        assert(links@.take(i + 1) =~= links@.take(i as int).push(links@[i as int]));
    }
    out
}

/// A database that was just created holds nothing: no table, no row that
/// anybody reads, no transaction, and no page but the system's three. Nothing
/// is refused, what was asked for is in its header, and a transaction may hold
/// back 256 MiB of the log and a million version records.
pub proof fn new_database_is_empty(
    db: Db,
    name: Seq<char>,
    page_size: u64,
    cap: u64,
    now: u128,
    v: Viewer,
    p: Place,
)
    requires
        brand_new(db, name, first_header(page_size, cap, now), now),
    ensures
        db.name@ == name,
        db.tables@.len() == 0,
        db.engine@.read(v, p) is None,
        forall|x: u64| !(#[trigger] db.engine@.txns.unfinished(x)),
        db.page_count == 3,
        db.free_pages@.len() == 0,
        db.degraded is None,
        db.header.page_size == page_size,
        db.header.max_index_key_size == cap,
        db.header.first_page_offset == 8192,
        db.header.header_checksum == header::sum_of(db.header),
        db.last_checkpoint == now,
        db.snapshot_limits.max_retained_wal_bytes == 268435456,
        db.snapshot_limits.max_version_records == 1000000,
        db.generator@.dom() == set![db::system_name()],
{
    assert(db.generator@.dom() =~= set![db::system_name()]);
}

/// What opening finds: a header that can be trusted; to be replayed, exactly
/// the records of all segments at or above its floor; and as free, exactly the
/// pages that were saved as free, are in the file and are reached by nothing.
pub proof fn opening_takes_what_counts(
    name: Seq<char>,
    data: DataFile,
    d: Disk,
    o: Opening,
    e: Entry,
    p: PageId,
    ts: Seq<Tab>,
    vs: Seq<(Seq<char>, u64)>,
    ids: Seq<PageId>,
)
    requires
        opening(name, data, d) == Ok::<Opening, Fault>(o),
        catalog::loaded(data.system) == Ok::<
            (Seq<Tab>, Seq<(Seq<char>, u64)>, Seq<PageId>),
            CodecError,
        >((ts, vs, ids)),
    ensures
        header::flaw(o.header) is None,
        o.tables == ts,
        o.records.contains(e) <==> wal::joined(o.parts).contains(e) && e.lsn.0
            >= o.header.checkpoint_lsn,
        o.free.contains(p) <==> ids.contains(p) && p.0 < o.header.page_count && !freelist::reached(
            o.links,
            starts_of(o.tables),
            p.0,
        ),
{
    header::decoded_is_sound(data.header@.take(HEADER_SIZE as int));
    recovery::replay_starts_at_the_floor(wal::joined(o.parts), o.header.checkpoint_lsn, e);
    freelist::free_list_keeps_the_unreached(ids, o.links, starts_of(o.tables), p);
    freelist::free_list_keeps_what_is_in_the_file(
        freelist::not_reached(ids, o.links, starts_of(o.tables)),
        o.header.page_count as nat,
        p,
    );
}

/// A database that asks for nothing else gets pages of 16 KiB and index keys of
/// up to 512 bytes, and its header can be trusted; and so can every other whose
/// sizes are such as a header may name.
pub proof fn first_headers_can_be_trusted(page_size: u64, cap: u64, now: u128)
    ensures
        DEFAULT_PAGE_SIZE == 16384,
        DEFAULT_MAX_INDEX_KEY_SIZE == 512,
        header::sizes_ok(first_header(page_size, cap, now)) ==> header::flaw(
            first_header(page_size, cap, now),
        ) is None,
        first_header(page_size, cap, now).counter == 1,
        first_header(page_size, cap, now).checkpoint_lsn == 0,
        first_header(page_size, cap, now).last_checkpoint == now,
{
}

/// A database that was opened starts afresh: no transaction is active or
/// aborting, nothing waits to be logged, purged or told, writes are not
/// refused, and nothing is counted but the records that were replayed.
pub proof fn opened_database_starts_afresh(
    db: Db,
    name: Seq<char>,
    data: DataFile,
    o: Opening,
    x: u64,
)
    requires
        resumed(db, name, data, o),
        db.wf(),
    ensures
        db.name@ == name,
        !db.engine@.txns.unfinished(x),
        !db.forced().dom().contains(x),
        !db.attempts().dom().contains(x),
        db.degraded is None,
        db.queued().len() == 0,
        db.graves().len() == 0,
        db.maintenance.passes == 0 && db.maintenance.errors == 0 && db.maintenance.checkpoints == 0,
        db.lock_timeouts == 0,
        db.snapshot_too_old_aborts == 0,
        db.recovered_records == o.records.len(),
        db.last_checkpoint == o.header.last_checkpoint,
        db.page_count == o.header.page_count,
        db.snapshot_limits.max_retained_wal_bytes == 268435456,
        db.snapshot_limits.max_version_records == 1000000,
{
    assert(db::forced_pairs(db.forced_aborts@) =~= Seq::empty());
    assert(db::attempt_pairs(db.abort_attempts@) =~= Seq::empty());
    assoc::assoc_empty::<u64, Seq<char>>();
    assoc::assoc_empty::<u64, u32>();
    assert(db.maintenance@.passes == db.maintenance.passes);
    assert(db.maintenance@.errors == db.maintenance.errors);
    assert(db.maintenance@.checkpoints == db.maintenance.checkpoints);
}

} // verus!

use std::cell::{Cell, RefCell};
use std::rc::Rc;

use store::catalog::write_system_tables;
use store::db::{DataFile, Db, Durability, SnapshotLimits};
use store::error::StoreError;
use store::framing::{scan_log, LogHeader};
use store::hash::fnv1a_32;
use store::header::{Header, HeaderV3Shape, DEFAULT_MAX_INDEX_KEY_SIZE, DEFAULT_PAGE_SIZE,
                    HEADER_FORMAT_VERSION, ZERO_PAGE_SIZE};
use store::memfile::{MemFile, Namespace};
use store::operation::Operation;
use store::page::PageId;
use store::segment::list_segments;
use store::table::{Table, TableIdType};
use store::tuple::{DBIdType, Tuple};
use store::txn::{ConflictPolicy, Transaction, TransactionId};
use store::upkeep::{DbStats, ABORT_RETRY_BUDGET};

// A database that several transactions of one test share, and a clock.
#[derive(Clone)]
struct TestDB {
    inner: Rc<RefCell<Option<Db>>>,
    now: Rc<Cell<u128>>,
}

// A transaction that is rolled back when it goes out of scope unfinished.
struct Txn {
    db: TestDB,
    txn: Transaction,
    finished: Cell<bool>,
}

impl Txn {
    fn id(&self) -> TransactionId {
        self.txn.id()
    }

    fn finish(self) -> Transaction {
        self.finished.set(true);
        Transaction { id: self.txn.id }
    }
}

impl Drop for Txn {
    fn drop(&mut self) {
        if !self.finished.get() {
            if let Some(db) = self.db.inner.borrow_mut().as_mut() {
                let _ = db.abort(self.txn.id);
            }
        }
    }
}

// The rows of a scan, one after the other.
struct Cursor {
    rows: std::vec::IntoIter<Tuple>,
}

impl Cursor {
    fn next(&mut self) -> Result<Option<Tuple>, StoreError> {
        Ok(self.rows.next())
    }
}

impl TestDB {
    fn hold(db: Db) -> TestDB {
        TestDB { inner: Rc::new(RefCell::new(Some(db))), now: Rc::new(Cell::new(1000)) }
    }

    fn tick(&self) -> u128 {
        self.now.set(self.now.get() + 1);
        self.now.get()
    }

    fn with<R>(&self, f: impl FnOnce(&mut Db) -> R) -> R {
        f(self.inner.borrow_mut().as_mut().expect("the database is open"))
    }

    fn create(name: &str) -> Result<TestDB, StoreError> {
        Ok(TestDB::hold(Db::create(name, Namespace::new(), 1000)?))
    }

    fn create_with_page_size(name: &str, page_size: u64) -> Result<TestDB, StoreError> {
        Ok(TestDB::hold(Db::create_with_page_size(name, Namespace::new(), page_size, 1000)?))
    }

    fn open_using(name: &str, data: DataFile, log: Namespace) -> Result<TestDB, StoreError> {
        Ok(TestDB::hold(Db::open_using(name, data, log)?))
    }

    fn close(&self) -> Result<(DataFile, Namespace), StoreError> {
        let now = self.tick();
        let db = self.inner.borrow_mut().take().expect("the database is open");
        let (data, log, _) = db.close(now)?;
        Ok((data, log))
    }

    fn synced_snapshot(&self) -> (DataFile, Namespace) {
        self.with(|d| d.synced_snapshot())
    }

    fn guard(&self, txn: Transaction) -> Txn {
        Txn { db: self.clone(), txn, finished: Cell::new(false) }
    }

    fn begin(&self) -> Result<Txn, StoreError> {
        let txn = self.with(|d| d.begin())?;
        Ok(self.guard(txn))
    }

    fn begin_with_conflict_policy(&self, policy: ConflictPolicy) -> Result<Txn, StoreError> {
        let txn = self.with(|d| d.begin_with_conflict_policy(policy))?;
        Ok(self.guard(txn))
    }

    fn commit(&self, t: Txn) -> Result<(), StoreError> {
        let txn = t.finish();
        self.with(|d| d.commit(txn))
    }

    fn commit_with(&self, t: Txn, durability: Durability) -> Result<(), StoreError> {
        let txn = t.finish();
        self.with(|d| d.commit_with(txn, durability))
    }

    fn rollback(&self, t: Txn) -> Result<(), StoreError> {
        let txn = t.finish();
        self.with(|d| d.rollback(txn))
    }

    fn insert(&self, tid: TableIdType, tuple: Tuple, t: &Txn) -> Result<(), StoreError> {
        self.with(|d| d.insert(tid, tuple, &t.txn))
    }

    fn update(&self, tid: TableIdType, tuple: Tuple, t: &Txn) -> Result<(), StoreError> {
        self.with(|d| d.update(tid, tuple, &t.txn))
    }

    fn remove(&self, tid: TableIdType, key: DBIdType, t: &Txn) -> Result<Tuple, StoreError> {
        self.with(|d| d.remove(tid, key, &t.txn))
    }

    fn find(&self, tid: TableIdType, key: DBIdType, t: &Txn) -> Result<Option<Tuple>, StoreError> {
        self.with(|d| d.find(tid, key, &t.txn))
    }

    fn table_scan(&self, tid: TableIdType) -> Result<Cursor, StoreError> {
        Ok(Cursor { rows: self.with(|d| d.table_scan(tid))?.into_iter() })
    }

    fn table_scan_in_txn(&self, tid: TableIdType, t: &Txn) -> Result<Cursor, StoreError> {
        Ok(Cursor { rows: self.with(|d| d.table_scan_in_txn(tid, &t.txn))?.into_iter() })
    }

    fn create_table(&self, name: String) -> Result<TableIdType, StoreError> {
        let now = self.tick();
        self.with(|d| d.create_table(name, now))
    }

    fn create_table_with_index_entry_size(
        &self,
        name: String,
        size: u64,
    ) -> Result<TableIdType, StoreError> {
        let now = self.tick();
        self.with(|d| d.create_table_with_index_entry_size(name, size, now))
    }

    fn drop_table(&self, name: &str) -> Result<(), StoreError> {
        let now = self.tick();
        self.with(|d| d.drop_table(name, now))
    }

    fn get_tables(&self) -> Result<Vec<Table>, StoreError> {
        self.with(|d| d.get_tables())
    }

    fn table_id_by_name(&self, name: &str) -> Result<Option<TableIdType>, StoreError> {
        self.with(|d| d.table_id_by_name(name))
    }

    fn create_generator(&self, name: &str, start: Option<u64>) -> Result<(), StoreError> {
        self.with(|d| d.create_generator(name, start))
    }

    fn gen_key(&self, name: &str) -> Result<u64, StoreError> {
        self.with(|d| d.gen_key(name))
    }

    fn remove_generator(&self, name: &str) -> Result<(), StoreError> {
        self.with(|d| d.remove_generator(name))
    }

    fn checkpoint(&self) -> Result<(), StoreError> {
        let now = self.tick();
        self.with(|d| d.checkpoint(now))
    }

    fn maintenance_pass(&self) -> Result<(), StoreError> {
        let now = self.tick();
        self.with(|d| d.maintenance_pass(now))
    }

    fn set_snapshot_limits(&self, limits: SnapshotLimits) {
        self.with(|d| d.set_snapshot_limits(limits))
    }

    fn set_fail_reverts(&self, fail: bool) {
        self.with(|d| d.fail_reverts = fail)
    }

    fn stats(&self) -> DbStats {
        self.with(|d| d.stats())
    }

    fn header(&self) -> Header {
        self.with(|d| d.header)
    }

    fn page_count(&self) -> u64 {
        self.with(|d| d.page_count())
    }

    fn free_pages(&self) -> Vec<PageId> {
        self.with(|d| d.free_pages.clone())
    }

    fn last_written(&self) -> store::clock::LsnId {
        self.with(|d| d.engine.clock.last_written())
    }
}

fn make_db_with_table() -> (TestDB, TableIdType) {
    let db = TestDB::create("txn_test.db").unwrap();
    let tid = db.create_table("rows".to_string()).unwrap();
    (db, tid)
}

fn make_db_with_two_tables() -> (TestDB, TableIdType, TableIdType) {
    let db = TestDB::create("txn_test_multi.db").unwrap();
    let ta = db.create_table("table_a".to_string()).unwrap();
    let tb = db.create_table("table_b".to_string()).unwrap();
    (db, ta, tb)
}

fn row(id: u64, data: &[u8]) -> Tuple {
    Tuple::new(id, data)
}

fn id(n: u64) -> DBIdType {
    DBIdType::Int(n)
}

fn big_payload(seed: u8, len: usize) -> Vec<u8> {
    (0..len)
        .map(|i| ((i as u64).wrapping_mul(31).wrapping_add(seed as u64) & 0xFF) as u8)
        .collect()
}

// The files as the process leaves them when it stops without closing.
fn crash_clone(db: &TestDB) -> (DataFile, Namespace) {
    db.with(|d| d.sync_log());
    db.synced_snapshot()
}

// The header as of when the database was opened, and every page as it is now,
// go to the data file, without a checkpoint.
fn sync_header_without_truncating_logs(db: &TestDB) {
    db.with(|d| {
        let mut header = d.header;
        header.page_count = d.page_count;
        header.seal();
        d.data.header = header.to_block();
        d.data.rows = d.engine.rows.copy();
        d.data.links = d.links.clone();
    });
}

// The segments of the log, oldest first, with their bytes.
fn wal_segments_of(db: &TestDB) -> Vec<(String, Vec<u8>)> {
    db.with(|d| {
        let handle = MemFile { at: 0, seek_pos: 0 };
        let name = d.name.clone();
        let mut out = Vec::new();
        for (_, path) in list_segments(&handle, &d.ns, &name) {
            let f = handle.open_sibling(&mut d.ns, &path);
            out.push((path, f.data(&d.ns)));
        }
        out
    })
}

fn current_segment(db: &TestDB) -> (String, Vec<u8>) {
    wal_segments_of(db).pop().expect("a database always has a current segment")
}

// The records of transactions in a segment; those of sequences and purges are
// the engine's own.
fn count_records_in_segment(data: &[u8]) -> usize {
    let header_len = LogHeader::encoded_len();
    if data.len() < header_len {
        return 0;
    }
    scan_log(&data[header_len..])
        .unwrap()
        .records
        .iter()
        .filter(|r| {
            !matches!(r.operation, Operation::Sequence { .. } | Operation::Purge { .. })
        })
        .count()
}

fn count_log_records(db: &TestDB) -> usize {
    wal_segments_of(db).iter().map(|(_, data)| count_records_in_segment(data)).sum()
}

fn wait_for_durable_logs(db: &TestDB, expected: usize) {
    db.with(|d| d.sync_log());
    assert_eq!(count_log_records(db), expected);
}

// A log of one segment that holds these bytes.
fn log_of(path: &str, bytes: Vec<u8>) -> Namespace {
    let mut ns = Namespace::new();
    let handle = MemFile { at: 0, seek_pos: 0 };
    handle.add_sibling_from_bytes(&mut ns, path, bytes);
    ns
}

fn read_raw_header(db: &TestDB) -> Header {
    db.with(|d| Header::decode(&d.data.header)).unwrap()
}

fn tamper_header(f: &mut DataFile, mutate: impl FnOnce(&mut Header)) {
    let mut hdr = Header::decode(&f.header).unwrap();
    mutate(&mut hdr);
    f.header = hdr.to_block();
}

fn v3_of(current: Header) -> HeaderV3Shape {
    HeaderV3Shape {
        magic: current.magic,
        format_version: 3,
        first_page_offset: current.first_page_offset,
        page_count: current.page_count,
        page_size: current.page_size,
        last_checkpoint: current.last_checkpoint,
        counter: current.counter,
        checkpoint_lsn: current.checkpoint_lsn,
        header_checksum: 0,
    }
}

fn v3_block(h: &HeaderV3Shape) -> Vec<u8> {
    let mut out = h.magic.to_vec();
    out.extend(h.format_version.to_le_bytes());
    out.extend(h.first_page_offset.to_le_bytes());
    out.extend(h.page_count.to_le_bytes());
    out.extend(h.page_size.to_le_bytes());
    out.extend(postcard::to_allocvec(&h.last_checkpoint).unwrap());
    out.extend(h.counter.to_le_bytes());
    out.extend(h.checkpoint_lsn.to_le_bytes());
    out.extend(h.header_checksum.to_le_bytes());
    out.resize(128, 0);
    out
}

#[test]
fn test_create() {
    const DB_NAME: &str = "test1.db";
    let db = TestDB::create(DB_NAME);
    assert!(db.is_ok());
    let db = db.unwrap();
    assert_eq!(db.header().first_page_offset, ZERO_PAGE_SIZE);
    assert_eq!(db.page_count(), 3);
    let (f, l) = db.close().unwrap();
    let db = TestDB::open_using(DB_NAME, f, l);
    assert!(db.is_ok());
    let db = db.unwrap();
    assert_eq!(db.header().page_count, 3);
    assert_eq!(db.header().page_size, DEFAULT_PAGE_SIZE);
}

#[test]
fn test_create_table() {
    const DB_NAME: &str = "test3.db";
    let db = TestDB::create(DB_NAME);
    assert!(db.is_ok());
    let db = db.unwrap();
    let r = db.create_table("table_1".to_string());
    assert!(r.is_ok());
    assert_eq!(db.get_tables().unwrap().len(), 1);
    let (f, l) = db.close().unwrap();
    let db = TestDB::open_using(DB_NAME, f, l).unwrap();
    let t = db.get_tables().unwrap();
    assert!(t.len() == 1);
    assert_eq!(t[0].name, "table_1");
    let r = db.create_table("table_1".to_string());
    assert!(matches!(r, Err(StoreError::DuplicateName(_))));
}

#[test]
fn test_create_table_default_index_entry_size_round_trips_normal_rows() {
    let (db, tid) = make_db_with_table();
    let t = db.begin().unwrap();
    db.insert(tid, row(1, b"hello"), &t).unwrap();
    db.commit(t).unwrap();
    let t = db.begin().unwrap();
    assert_eq!(
        db.find(tid, id(1), &t).unwrap().unwrap().data.to_vec(),
        b"hello"
    );
}

#[test]
fn test_create_table_with_index_entry_size_supports_a_composite_key_default_size_cannot() {
    let db = TestDB::create("index_entry_size_test.db").unwrap();
    let big_key = || -> DBIdType {
        let mut key = "alpha".repeat(9).into_bytes();
        key.extend_from_slice("beta".repeat(9).as_bytes());
        DBIdType::Bytes(key)
    };

    // Default-sized table: fails, doesn't silently corrupt anything.
    let default_tid = db.create_table("default_sized".to_string()).unwrap();
    let t = db.begin().unwrap();
    let err = db
        .insert(
            default_tid,
            Tuple::new_with(big_key(), b"v", None, None),
            &t,
        )
        .unwrap_err();
    assert!(
        matches!(err, StoreError::TupleTooLarge(_, _)),
        "got {err:?}"
    );
    drop(t);

    // Deliberately sized table: the identical key/row round-trips.
    let sized_tid = db
        .create_table_with_index_entry_size("deliberately_sized".to_string(), 300)
        .unwrap();
    let t = db.begin().unwrap();
    let key = big_key();
    db.insert(
        sized_tid,
        Tuple::new_with(key.clone(), b"v", None, None),
        &t,
    )
    .unwrap();
    db.commit(t).unwrap();

    let t = db.begin().unwrap();
    assert_eq!(
        db.find(sized_tid, key, &t).unwrap().unwrap().data.to_vec(),
        b"v"
    );
}

#[test]
fn test_the_generator_shows_the_next_value_of_a_table() {
    let (db, _tid) = make_db_with_table();
    assert_eq!(db.with(|d| d.gen_key("rows")).unwrap(), 0);
    assert_eq!(db.with(|d| d.get_generator().peek("rows")), Some(1));
    assert_eq!(db.with(|d| d.get_generator().peek("others")), None);
}

#[test]
fn test_an_index_entry_is_measured_with_its_key_and_page() {
    let (db, tid) = make_db_with_table();
    let t = db.begin().unwrap();
    // Tag, length, key, two absent numbers, a page number of one byte with its
    // length, and the deletion mark: 58 bytes of key are 65 in all.
    let fits = DBIdType::Bytes(vec![b'k'; 57]);
    let too_large = DBIdType::Bytes(vec![b'k'; 58]);
    db.insert(tid, Tuple::new_with(fits.clone(), b"v", None, None), &t).unwrap();
    let err = db
        .insert(tid, Tuple::new_with(too_large.clone(), b"v", None, None), &t)
        .unwrap_err();
    assert!(matches!(err, StoreError::TupleTooLarge(65, 64)), "got {err:?}");
    // The transaction goes on, and only what fitted is there.
    db.commit(t).unwrap();
    let t = db.begin().unwrap();
    assert!(db.find(tid, fits, &t).unwrap().is_some());
    assert!(db.find(tid, too_large, &t).unwrap().is_none());
}

#[test]
fn test_persistence_versioning_stage3_wide_composite_key_survives_split_and_reopen() {
    const KEY_WIDTH: usize = 200;
    const ROWS: u64 = 100;

    let wide_key = |i: u64| -> DBIdType {
        let s = format!("{i:0>width$}", width = KEY_WIDTH);
        DBIdType::Bytes(s.into_bytes())
    };

    let db = TestDB::create_with_page_size("wide_key.db", DEFAULT_PAGE_SIZE).unwrap();
    let tid = db
        .create_table_with_index_entry_size("rows".to_string(), 250)
        .unwrap();

    let t = db.begin().unwrap();
    for i in 0..ROWS {
        db.insert(
            tid,
            Tuple::new_with(wide_key(i), format!("value-{i}").as_bytes(), None, None),
            &t,
        )
        .unwrap();
    }
    db.commit(t).unwrap();

    let (f, l) = db.close().unwrap();
    let db2 = TestDB::open_using("wide_key.db", f, l).unwrap();
    let t2 = db2.begin().unwrap();
    for i in 0..ROWS {
        let found = db2.find(tid, wide_key(i), &t2).unwrap();
        assert_eq!(
            found.map(|t| t.data.to_vec()),
            Some(format!("value-{i}").into_bytes()),
            "row {i} did not survive the composite-key split + reopen"
        );
    }
}

#[test]
fn test_drop_table_removes_it_from_the_table_list() {
    let (db, tid) = make_db_with_table();
    assert_eq!(db.get_tables().unwrap().len(), 1);
    db.drop_table("rows").unwrap();
    assert_eq!(db.get_tables().unwrap().len(), 0);
    assert_eq!(db.table_id_by_name("rows").unwrap(), None);
    let t = db.begin().unwrap();
    let err = db.find(tid, id(1), &t).unwrap_err();
    assert!(matches!(err, StoreError::TableNotFound(_)), "got {err:?}");
}

#[test]
fn test_drop_table_missing_name_returns_table_not_found() {
    let (db, _tid) = make_db_with_table();
    let err = db.drop_table("does_not_exist").unwrap_err();
    assert!(matches!(err, StoreError::TableNotFound(_)), "got {err:?}");
}

#[test]
fn test_drop_table_frees_the_name_for_reuse() {
    let (db, _tid) = make_db_with_table();
    db.drop_table("rows").unwrap();
    let new_tid = db.create_table("rows".to_string()).unwrap();
    let t = db.begin().unwrap();
    db.insert(new_tid, row(1, b"fresh"), &t).unwrap();
    db.commit(t).unwrap();
    let t = db.begin().unwrap();
    assert_eq!(
        db.find(new_tid, id(1), &t).unwrap().unwrap().data.to_vec(),
        b"fresh"
    );
}

#[test]
fn test_drop_table_reuses_its_initial_pages_immediately() {
    let (db, _tid) = make_db_with_table();
    let page_count_before = db.page_count();
    db.drop_table("rows").unwrap();
    db.create_table("rows2".to_string()).unwrap();
    assert_eq!(
        db.page_count(),
        page_count_before,
        "a table created right after a drop must reuse its pages instead \
         of growing the file"
    );
}

#[test]
fn test_drop_table_frees_every_page_a_multi_split_table_owned() {
    let (db, tid) = make_db_with_table();
    let t = db.begin().unwrap();
    for i in 0..500u64 {
        db.insert(tid, row(i, b"some reasonably sized payload"), &t)
            .unwrap();
    }
    db.commit(t).unwrap();
    assert_eq!(
        db.free_pages().len(),
        0,
        "nothing should be on the free list yet"
    );
    let table_page_count = db.page_count() - 3;

    db.drop_table("rows").unwrap();

    assert_eq!(
        db.free_pages().len(),
        table_page_count as usize,
        "dropping the table must free every page it owned, not just some \
         of them"
    );
}

#[test]
fn test_drop_table_persists_across_close_and_reopen() {
    let db_name = "drop_table_persists";

    let db = TestDB::create(db_name).unwrap();
    db.create_table("rows".to_string()).unwrap();
    db.drop_table("rows").unwrap();
    assert_eq!(db.get_tables().unwrap().len(), 0);
    let (f, l) = db.close().unwrap();

    let db2 = TestDB::open_using(db_name, f, l).unwrap();
    assert_eq!(db2.get_tables().unwrap().len(), 0);
    assert_eq!(db2.table_id_by_name("rows").unwrap(), None);
    db2.create_table("rows".to_string()).unwrap();

    drop(db2);
}

#[test]
fn test_create_table_survives_a_power_cut_with_no_checkpoint_in_between() {
    let db = TestDB::create("create_table_power_cut.db").unwrap();
    db.create_table("rows".to_string()).unwrap();
    let (f, l) = db.synced_snapshot();
    let db2 = TestDB::open_using("create_table_power_cut.db", f, l).unwrap();
    assert_eq!(db2.get_tables().unwrap().len(), 1);
    let tid = db2
        .table_id_by_name("rows")
        .unwrap()
        .expect("table must survive a power cut immediately after create_table returns");
    let t = db2.begin().unwrap();
    db2.insert(tid, row(1, b"v1"), &t).unwrap();
    db2.commit(t).unwrap();
}

#[test]
fn test_drop_table_survives_a_power_cut_with_no_checkpoint_in_between() {
    let db = TestDB::create("drop_table_power_cut.db").unwrap();
    let tid = db.create_table("rows".to_string()).unwrap();
    let t = db.begin().unwrap();
    db.insert(tid, row(1, b"v1"), &t).unwrap();
    db.commit(t).unwrap();
    db.drop_table("rows").unwrap();

    let (f, l) = db.synced_snapshot();
    let db2 = TestDB::open_using("drop_table_power_cut.db", f, l).unwrap();
    assert_eq!(
        db2.get_tables().unwrap().len(),
        0,
        "table must be fully gone after a power cut right after drop_table returns"
    );
    assert_eq!(db2.table_id_by_name("rows").unwrap(), None);
    let tid2 = db2.create_table("rows".to_string()).unwrap();
    let t = db2.begin().unwrap();
    assert!(
        db2.find(tid2, id(1), &t).unwrap().is_none(),
        "must be a fresh, empty table, not the dropped one's leftover row"
    );
}

#[test]
fn test_txn_insert_commit_find() {
    let (db, tid) = make_db_with_table();
    let txn = db.begin().unwrap();
    db.insert(tid, row(1, b"hello"), &txn).unwrap();
    db.commit(txn).unwrap();

    let txn2 = db.begin().unwrap();
    let found = db.find(tid, id(1), &txn2).unwrap();
    drop(txn2);
    assert_eq!(
        found.expect("row should be visible").data.to_vec(),
        b"hello"
    );
}

#[test]
fn test_txn_find_sees_its_own_uncommitted_insert() {
    let (db, tid) = make_db_with_table();
    let txn = db.begin().unwrap();
    db.insert(tid, row(1, b"hello"), &txn).unwrap();
    let found = db.find(tid, id(1), &txn).unwrap();
    assert_eq!(
        found
            .expect("a transaction must see its own uncommitted insert")
            .data
            .to_vec(),
        b"hello"
    );
    db.commit(txn).unwrap();
}

#[test]
fn test_txn_uncommitted_insert_is_invisible_to_a_different_transaction() {
    let (db, tid) = make_db_with_table();
    let writer = db.begin().unwrap();
    db.insert(tid, row(1, b"hello"), &writer).unwrap();

    let reader = db.begin().unwrap();
    assert!(db.find(tid, id(1), &reader).unwrap().is_none());
    drop(reader);

    db.commit(writer).unwrap();
}

#[test]
fn test_table_scan_in_txn_sees_its_own_uncommitted_insert() {
    let (db, tid) = make_db_with_table();
    let txn = db.begin().unwrap();
    db.insert(tid, row(1, b"hello"), &txn).unwrap();

    let mut cursor = db.table_scan_in_txn(tid, &txn).unwrap();
    let found = cursor.next().unwrap();
    assert_eq!(
        found
            .expect("scan under the writer's own txn must see the row")
            .data
            .to_vec(),
        b"hello"
    );
    assert!(cursor.next().unwrap().is_none());
    drop(cursor);

    db.commit(txn).unwrap();
}

#[test]
fn test_table_scan_without_a_txn_does_not_see_a_concurrent_uncommitted_insert() {
    let (db, tid) = make_db_with_table();
    let txn = db.begin().unwrap();
    db.insert(tid, row(1, b"hello"), &txn).unwrap();

    let mut cursor = db.table_scan(tid).unwrap();
    assert!(cursor.next().unwrap().is_none());
    drop(cursor);

    db.commit(txn).unwrap();
}

#[test]
fn test_txn_insert_rollback_not_visible() {
    let (db, tid) = make_db_with_table();
    let txn = db.begin().unwrap();
    db.insert(tid, row(1, b"gone"), &txn).unwrap();
    db.rollback(txn).unwrap();

    let txn2 = db.begin().unwrap();
    let found = db.find(tid, id(1), &txn2).unwrap();
    drop(txn2);
    assert!(found.is_none(), "rolled-back insert must not be visible");
}

#[test]
fn test_txn_dropped_guard_insert_not_visible() {
    let (db, tid) = make_db_with_table();
    {
        let txn = db.begin().unwrap();
        db.insert(tid, row(1, b"dropped"), &txn).unwrap();
    }
    let txn2 = db.begin().unwrap();
    let found = db.find(tid, id(1), &txn2).unwrap();
    drop(txn2);
    assert!(
        found.is_none(),
        "a dropped transaction's insert must not be visible as committed"
    );
}

#[test]
fn test_txn_dropped_guard_update_reverts_to_committed() {
    let (db, tid) = make_db_with_table();
    let t0 = db.begin().unwrap();
    db.insert(tid, row(1, b"v1"), &t0).unwrap();
    db.commit(t0).unwrap();
    {
        let t1 = db.begin().unwrap();
        db.update(tid, row(1, b"v2"), &t1).unwrap();
    }
    let t2 = db.begin().unwrap();
    let found = db.find(tid, id(1), &t2).unwrap();
    drop(t2);
    assert_eq!(
        found.expect("committed v1 must remain").data.to_vec(),
        b"v1",
        "a dropped update must not be visible; committed value stands"
    );
}

#[test]
fn test_txn_dropped_guard_then_reinsert_succeeds() {
    let (db, tid) = make_db_with_table();
    {
        let txn = db.begin().unwrap();
        db.insert(tid, row(1, b"dropped"), &txn).unwrap();
    }
    let txn2 = db.begin().unwrap();
    db.insert(tid, row(1, b"real"), &txn2).unwrap();
    db.commit(txn2).unwrap();

    let txn3 = db.begin().unwrap();
    let found = db.find(tid, id(1), &txn3).unwrap();
    drop(txn3);
    assert_eq!(found.expect("re-insert must be visible").data, b"real");
}

#[test]
fn test_txn_multiple_inserts_commit_all_visible() {
    let (db, tid) = make_db_with_table();
    let txn = db.begin().unwrap();
    db.insert(tid, row(1, b"A"), &txn).unwrap();
    db.insert(tid, row(2, b"B"), &txn).unwrap();
    db.insert(tid, row(3, b"C"), &txn).unwrap();
    db.commit(txn).unwrap();

    let txn2 = db.begin().unwrap();
    assert_eq!(
        db.find(tid, id(1), &txn2).unwrap().unwrap().data.to_vec(),
        b"A"
    );
    assert_eq!(
        db.find(tid, id(2), &txn2).unwrap().unwrap().data.to_vec(),
        b"B"
    );
    assert_eq!(
        db.find(tid, id(3), &txn2).unwrap().unwrap().data.to_vec(),
        b"C"
    );
    drop(txn2);
}

#[test]
fn test_txn_multiple_inserts_rollback_none_visible() {
    let (db, tid) = make_db_with_table();
    let txn = db.begin().unwrap();
    db.insert(tid, row(1, b"A"), &txn).unwrap();
    db.insert(tid, row(2, b"B"), &txn).unwrap();
    db.insert(tid, row(3, b"C"), &txn).unwrap();
    db.rollback(txn).unwrap();

    let txn2 = db.begin().unwrap();
    assert!(db.find(tid, id(1), &txn2).unwrap().is_none());
    assert!(db.find(tid, id(2), &txn2).unwrap().is_none());
    assert!(db.find(tid, id(3), &txn2).unwrap().is_none());
    drop(txn2);
}

#[test]
fn test_txn_uncommitted_insert_not_visible_to_concurrent_reader() {
    let (db, tid) = make_db_with_table();

    let txn1 = db.begin().unwrap();
    db.insert(tid, row(42, b"secret"), &txn1).unwrap();

    let txn2 = db.begin().unwrap();
    let found = db.find(tid, id(42), &txn2).unwrap();
    drop(txn2);
    assert!(
        found.is_none(),
        "uncommitted insert must be invisible to other txns"
    );

    db.commit(txn1).unwrap();
    let txn3 = db.begin().unwrap();
    let found = db.find(tid, id(42), &txn3).unwrap();
    drop(txn3);
    assert_eq!(
        found.expect("committed row must be visible").data.to_vec(),
        b"secret"
    );
}

#[test]
fn test_txn_update_commit_sees_new_data() {
    let (db, tid) = make_db_with_table();

    let txn1 = db.begin().unwrap();
    db.insert(tid, row(1, b"v1"), &txn1).unwrap();
    db.commit(txn1).unwrap();

    let txn2 = db.begin().unwrap();
    db.update(tid, row(1, b"v2"), &txn2).unwrap();
    db.commit(txn2).unwrap();

    let txn3 = db.begin().unwrap();
    let found = db.find(tid, id(1), &txn3).unwrap();
    drop(txn3);
    assert_eq!(found.expect("updated row must exist").data.to_vec(), b"v2");
}

#[test]
fn test_txn_uncommitted_update_not_visible_to_concurrent_reader() {
    let (db, tid) = make_db_with_table();

    let txn1 = db.begin().unwrap();
    db.insert(tid, row(1, b"v1"), &txn1).unwrap();
    db.commit(txn1).unwrap();

    let txn2 = db.begin().unwrap();
    db.update(tid, row(1, b"v2"), &txn2).unwrap();

    let txn3 = db.begin().unwrap();
    let found = db.find(tid, id(1), &txn3).unwrap();
    drop(txn3);
    assert_eq!(
        found.expect("original must still be visible").data.to_vec(),
        b"v1"
    );

    db.commit(txn2).unwrap();
}

#[test]
fn test_concurrent_updates_to_the_same_row_conflict() {
    let (db, tid) = make_db_with_table();
    let txn0 = db.begin().unwrap();
    db.insert(tid, row(1, b"v0"), &txn0).unwrap();
    db.commit(txn0).unwrap();

    let txn1 = db.begin().unwrap();
    let txn2 = db.begin().unwrap();

    db.update(tid, row(1, b"from_t1"), &txn1).unwrap();
    let result = db.update(tid, row(1, b"from_t2"), &txn2);
    assert!(
        matches!(result, Err(StoreError::WriteConflict(_))),
        "T2 must be rejected while T1's write to the same row is still live: {result:?}"
    );

    db.commit(txn1).unwrap();

    let txn3 = db.begin().unwrap();
    let found = db.find(tid, id(1), &txn3).unwrap();
    drop(txn3);
    assert_eq!(
        found.expect("row must exist").data.to_vec(),
        b"from_t1",
        "T1's committed write must survive, not be silently overwritten"
    );
}

#[test]
fn test_update_after_a_concurrent_transaction_already_committed_the_same_row_conflicts() {
    let (db, tid) = make_db_with_table();
    let txn0 = db.begin().unwrap();
    db.insert(tid, row(1, b"v0"), &txn0).unwrap();
    db.commit(txn0).unwrap();

    let txn1 = db.begin().unwrap();
    let txn2 = db.begin().unwrap();

    db.update(tid, row(1, b"from_t1"), &txn1).unwrap();
    db.commit(txn1).unwrap();

    let result = db.update(tid, row(1, b"from_t2"), &txn2);
    assert!(
        matches!(result, Err(StoreError::WriteConflict(_))),
        "T2 must be rejected: T1 committed a change to this row after T2's snapshot was \
         taken: {result:?}"
    );
}

#[test]
fn test_update_after_a_prior_transaction_fully_committed_does_not_conflict() {
    let (db, tid) = make_db_with_table();
    let txn0 = db.begin().unwrap();
    db.insert(tid, row(1, b"v0"), &txn0).unwrap();
    db.commit(txn0).unwrap();

    let txn1 = db.begin().unwrap();
    db.update(tid, row(1, b"from_t1"), &txn1).unwrap();
    db.commit(txn1).unwrap();

    let txn2 = db.begin().unwrap();
    db.update(tid, row(1, b"from_t2"), &txn2).unwrap();
    db.commit(txn2).unwrap();

    let txn3 = db.begin().unwrap();
    let found = db.find(tid, id(1), &txn3).unwrap();
    drop(txn3);
    assert_eq!(found.expect("row must exist").data.to_vec(), b"from_t2");
}

#[test]
fn test_concurrent_updates_to_different_rows_do_not_conflict() {
    let (db, tid) = make_db_with_table();
    let txn0 = db.begin().unwrap();
    db.insert(tid, row(1, b"v0"), &txn0).unwrap();
    db.insert(tid, row(2, b"v0"), &txn0).unwrap();
    db.commit(txn0).unwrap();

    let txn1 = db.begin().unwrap();
    let txn2 = db.begin().unwrap();

    db.update(tid, row(1, b"from_t1"), &txn1).unwrap();
    db.update(tid, row(2, b"from_t2"), &txn2).unwrap();

    db.commit(txn1).unwrap();
    db.commit(txn2).unwrap();

    let txn3 = db.begin().unwrap();
    assert_eq!(
        db.find(tid, id(1), &txn3).unwrap().unwrap().data.to_vec(),
        b"from_t1"
    );
    assert_eq!(
        db.find(tid, id(2), &txn3).unwrap().unwrap().data.to_vec(),
        b"from_t2"
    );
}

#[test]
fn test_concurrent_remove_and_update_of_the_same_row_conflicts() {
    let (db, tid) = make_db_with_table();
    let txn0 = db.begin().unwrap();
    db.insert(tid, row(1, b"v0"), &txn0).unwrap();
    db.commit(txn0).unwrap();

    let txn1 = db.begin().unwrap();
    let txn2 = db.begin().unwrap();

    db.update(tid, row(1, b"from_t1"), &txn1).unwrap();
    let result = db.remove(tid, id(1), &txn2);
    assert!(
        matches!(result, Err(StoreError::WriteConflict(_))),
        "T2's remove must be rejected while T1's write to the same row is still live: \
         {result:?}"
    );
}

#[test]
fn test_a_transaction_updating_its_own_row_twice_does_not_conflict() {
    let (db, tid) = make_db_with_table();
    let txn0 = db.begin().unwrap();
    db.insert(tid, row(1, b"v0"), &txn0).unwrap();
    db.commit(txn0).unwrap();

    let txn1 = db.begin().unwrap();
    db.update(tid, row(1, b"v1"), &txn1).unwrap();
    db.update(tid, row(1, b"v2"), &txn1).unwrap();
    db.commit(txn1).unwrap();

    let txn2 = db.begin().unwrap();
    let found = db.find(tid, id(1), &txn2).unwrap();
    drop(txn2);
    assert_eq!(found.expect("row must exist").data.to_vec(), b"v2");
}

#[test]
fn test_a_transaction_can_still_commit_after_one_of_its_writes_hits_a_conflict() {
    let (db, tid) = make_db_with_table();
    let txn0 = db.begin().unwrap();
    db.insert(tid, row(1, b"v0"), &txn0).unwrap();
    db.insert(tid, row(2, b"v0"), &txn0).unwrap();
    db.commit(txn0).unwrap();

    let txn1 = db.begin().unwrap();
    let txn2 = db.begin().unwrap();
    db.update(tid, row(1, b"from_t1"), &txn1).unwrap();

    let conflict = db.update(tid, row(1, b"from_t2"), &txn2);
    assert!(matches!(conflict, Err(StoreError::WriteConflict(_))));

    db.update(tid, row(2, b"t2_unrelated"), &txn2).unwrap();
    db.commit(txn2).unwrap();
    db.commit(txn1).unwrap();

    let txn3 = db.begin().unwrap();
    assert_eq!(
        db.find(tid, id(2), &txn3).unwrap().unwrap().data.to_vec(),
        b"t2_unrelated"
    );
}

#[test]
fn test_abort_on_conflict_rolls_back_the_whole_transaction_on_a_single_conflict() {
    let (db, tid) = make_db_with_table();
    let txn0 = db.begin().unwrap();
    db.insert(tid, row(1, b"v0"), &txn0).unwrap();
    db.insert(tid, row(2, b"v0"), &txn0).unwrap();
    db.commit(txn0).unwrap();

    let txn1 = db.begin().unwrap();
    let txn2 = db
        .begin_with_conflict_policy(ConflictPolicy::AbortOnConflict)
        .unwrap();

    db.update(tid, row(2, b"t2_row2"), &txn2).unwrap();
    db.update(tid, row(1, b"from_t1"), &txn1).unwrap();
    let result = db.update(tid, row(1, b"from_t2"), &txn2);
    assert!(
        matches!(result, Err(StoreError::WriteConflictTransactionAborted(_))),
        "{result:?}"
    );

    let further = db.update(tid, row(2, b"t2_row2_again"), &txn2);
    assert!(
        matches!(further, Err(StoreError::TransactionAlreadyFinished)),
        "{further:?}"
    );
    let commit_result = db.commit(txn2);
    assert!(
        matches!(commit_result, Err(StoreError::TransactionAlreadyFinished)),
        "committing an already-auto-aborted transaction must not silently succeed: \
         {commit_result:?}"
    );

    db.commit(txn1).unwrap();

    let reader = db.begin().unwrap();
    assert_eq!(
        db.find(tid, id(1), &reader).unwrap().unwrap().data.to_vec(),
        b"from_t1"
    );
    assert_eq!(
        db.find(tid, id(2), &reader).unwrap().unwrap().data.to_vec(),
        b"v0",
        "txn2's earlier write to row 2 must have been rolled back along with everything \
         else in its transaction"
    );
}

#[test]
fn test_explicit_rollback_after_an_auto_abort_is_a_harmless_no_op() {
    let (db, tid) = make_db_with_table();
    let txn0 = db.begin().unwrap();
    db.insert(tid, row(1, b"v0"), &txn0).unwrap();
    db.commit(txn0).unwrap();

    let txn1 = db.begin().unwrap();
    let txn2 = db
        .begin_with_conflict_policy(ConflictPolicy::AbortOnConflict)
        .unwrap();

    db.update(tid, row(1, b"from_t1"), &txn1).unwrap();
    let result = db.update(tid, row(1, b"from_t2"), &txn2);
    assert!(matches!(
        result,
        Err(StoreError::WriteConflictTransactionAborted(_))
    ));

    db.rollback(txn2).unwrap();
    db.commit(txn1).unwrap();

    let reader = db.begin().unwrap();
    assert_eq!(
        db.find(tid, id(1), &reader).unwrap().unwrap().data.to_vec(),
        b"from_t1"
    );
}

#[test]
fn test_abort_on_conflict_does_not_change_behavior_when_nothing_conflicts() {
    let (db, tid) = make_db_with_table();
    let txn0 = db.begin().unwrap();
    db.insert(tid, row(1, b"v0"), &txn0).unwrap();
    db.commit(txn0).unwrap();

    let txn1 = db
        .begin_with_conflict_policy(ConflictPolicy::AbortOnConflict)
        .unwrap();
    db.update(tid, row(1, b"v1"), &txn1).unwrap();
    db.commit(txn1).unwrap();

    let reader = db.begin().unwrap();
    assert_eq!(
        db.find(tid, id(1), &reader).unwrap().unwrap().data.to_vec(),
        b"v1"
    );
}

#[test]
fn test_winner_of_a_conflict_rolling_back_still_frees_the_row_for_a_third_txn() {
    let (db, tid) = make_db_with_table();
    let txn0 = db.begin().unwrap();
    db.insert(tid, row(1, b"v0"), &txn0).unwrap();
    db.commit(txn0).unwrap();

    let txn1 = db.begin().unwrap();
    let txn2 = db.begin().unwrap();
    db.update(tid, row(1, b"from_t1"), &txn1).unwrap();
    assert!(db.update(tid, row(1, b"from_t2"), &txn2).is_err());

    db.rollback(txn1).unwrap();

    let txn3 = db.begin().unwrap();
    db.update(tid, row(1, b"from_t3"), &txn3).unwrap();
    db.commit(txn3).unwrap();

    let txn4 = db.begin().unwrap();
    assert_eq!(
        db.find(tid, id(1), &txn4).unwrap().unwrap().data.to_vec(),
        b"from_t3"
    );
}

#[test]
fn test_after_a_conflicting_transaction_gives_up_a_third_transaction_can_proceed() {
    let (db, tid) = make_db_with_table();
    let txn0 = db.begin().unwrap();
    db.insert(tid, row(1, b"v0"), &txn0).unwrap();
    db.commit(txn0).unwrap();

    let txn1 = db.begin().unwrap();
    let txn2 = db.begin().unwrap();
    db.update(tid, row(1, b"from_t1"), &txn1).unwrap();
    assert!(db.update(tid, row(1, b"from_t2"), &txn2).is_err());
    db.rollback(txn2).unwrap();

    db.commit(txn1).unwrap();

    let txn3 = db.begin().unwrap();
    db.update(tid, row(1, b"from_t3"), &txn3).unwrap();
    db.commit(txn3).unwrap();

    let txn4 = db.begin().unwrap();
    assert_eq!(
        db.find(tid, id(1), &txn4).unwrap().unwrap().data.to_vec(),
        b"from_t3"
    );
}

#[test]
fn test_update_against_an_uncommitted_insert_from_another_txn_conflicts() {
    let (db, tid) = make_db_with_table();
    let txn1 = db.begin().unwrap();
    db.insert(tid, row(1, b"from_t1"), &txn1).unwrap();

    let txn2 = db.begin().unwrap();
    let result = db.update(tid, row(1, b"from_t2"), &txn2);
    assert!(
        matches!(result, Err(StoreError::WriteConflict(_))),
        "must be a write conflict, not KeyNotFound or a silent success: {result:?}"
    );
}

#[test]
fn test_update_self_heals_a_conflict_against_a_dropped_but_undrained_transaction() {
    let (db, tid) = make_db_with_table();
    let txn0 = db.begin().unwrap();
    db.insert(tid, row(1, b"v0"), &txn0).unwrap();
    db.commit(txn0).unwrap();

    let txn_stale = db.begin().unwrap();
    let txn_check = db.begin().unwrap();

    db.update(tid, row(1, b"stale"), &txn_stale).unwrap();
    drop(txn_stale);

    db.update(tid, row(1, b"check"), &txn_check).unwrap();
    db.commit(txn_check).unwrap();

    let reader = db.begin().unwrap();
    assert_eq!(
        db.find(tid, id(1), &reader).unwrap().unwrap().data.to_vec(),
        b"check"
    );
}

#[test]
fn test_find_is_repeatable_across_more_than_one_intervening_commit() {
    let (db, tid) = make_db_with_table();
    let t = db.begin().unwrap();
    db.insert(tid, row(1, b"v0"), &t).unwrap();
    db.commit(t).unwrap();

    let reader = db.begin().unwrap();
    assert_eq!(
        db.find(tid, id(1), &reader).unwrap().unwrap().data.to_vec(),
        b"v0"
    );

    for v in ["v1", "v2", "v3"] {
        let w = db.begin().unwrap();
        db.update(tid, row(1, v.as_bytes()), &w).unwrap();
        db.commit(w).unwrap();
        assert_eq!(
            db.find(tid, id(1), &reader).unwrap().unwrap().data.to_vec(),
            b"v0",
            "reader must still see its original snapshot after commit of {v}"
        );
    }
    drop(reader);
}

#[test]
fn test_table_scan_does_not_see_a_dropped_but_undrained_transactions_write() {
    let (db, tid) = make_db_with_table();
    let t = db.begin().unwrap();
    db.insert(tid, row(1, b"v0"), &t).unwrap();
    db.commit(t).unwrap();

    let stale = db.begin().unwrap();
    db.update(tid, row(1, b"stale"), &stale).unwrap();
    drop(stale);

    let mut cursor = db.table_scan(tid).unwrap();
    let found = cursor.next().unwrap().expect("row must be scanned");
    assert_eq!(
        found.data.to_vec(),
        b"v0",
        "scan must not observe a dropped-but-undrained transaction's write"
    );
}

#[test]
fn test_find_does_not_see_a_row_inserted_and_committed_by_another_txn_after_this_txn_began() {
    let (db, tid) = make_db_with_table();
    let reader = db.begin().unwrap();

    assert!(db.find(tid, id(1), &reader).unwrap().is_none());

    let writer = db.begin().unwrap();
    db.insert(tid, row(1, b"new"), &writer).unwrap();
    db.commit(writer).unwrap();

    assert!(
        db.find(tid, id(1), &reader).unwrap().is_none(),
        "a transaction must not see a row inserted+committed by someone else after it began"
    );
    drop(reader);

    let later = db.begin().unwrap();
    assert!(db.find(tid, id(1), &later).unwrap().is_some());
}

#[test]
fn test_close_reopen_preserves_data_written_after_a_resolved_write_conflict() {
    let (db, tid) = make_db_with_table();
    let txn0 = db.begin().unwrap();
    db.insert(tid, row(1, b"v0"), &txn0).unwrap();
    db.commit(txn0).unwrap();

    let txn1 = db.begin().unwrap();
    let txn2 = db.begin().unwrap();
    db.update(tid, row(1, b"from_t1"), &txn1).unwrap();
    assert!(db.update(tid, row(1, b"from_t2"), &txn2).is_err());
    db.commit(txn1).unwrap();
    db.rollback(txn2).unwrap();

    let (f, l) = db.close().unwrap();
    let db2 = TestDB::open_using("txn_test.db", f, l).unwrap();

    let reader = db2.begin().unwrap();
    let found = db2.find(tid, id(1), &reader).unwrap();
    drop(reader);
    assert_eq!(
        found.expect("row must survive close/reopen").data.to_vec(),
        b"from_t1"
    );
}

#[test]
fn test_find_is_repeatable_within_a_transaction_across_a_concurrent_write_and_commit() {
    let (db, tid) = make_db_with_table();

    let t = db.begin().unwrap();
    db.insert(tid, row(1, b"v1"), &t).unwrap();
    db.commit(t).unwrap();

    let reader = db.begin().unwrap();
    let first_read = db
        .find(tid, id(1), &reader)
        .unwrap()
        .expect("row must exist for the first read");
    assert_eq!(first_read.data.to_vec(), b"v1");

    let writer = db.begin().unwrap();
    db.update(tid, row(1, b"v2"), &writer).unwrap();

    let second_read = db
        .find(tid, id(1), &reader)
        .unwrap()
        .expect("row must still be visible on the second read");
    assert_eq!(
        second_read.data.to_vec(),
        b"v1",
        "a transaction's own reads must stay consistent across a concurrent, uncommitted write"
    );

    db.commit(writer).unwrap();

    let third_read = db
        .find(tid, id(1), &reader)
        .unwrap()
        .expect("row must still be visible after the concurrent commit");
    assert_eq!(
        third_read.data.to_vec(),
        b"v1",
        "a transaction's reads must stay consistent even across a concurrent COMMIT, \
         not just a concurrent still-active write"
    );
    drop(reader);

    let later_reader = db.begin().unwrap();
    let later_read = db
        .find(tid, id(1), &later_reader)
        .unwrap()
        .expect("row must exist for a fresh transaction");
    assert_eq!(later_read.data.to_vec(), b"v2");
    drop(later_reader);
}

#[test]
fn test_table_scan_is_repeatable_within_a_transaction_across_a_concurrent_write_and_commit() {
    let (db, tid) = make_db_with_table();

    let t = db.begin().unwrap();
    db.insert(tid, row(1, b"v1"), &t).unwrap();
    db.insert(tid, row(2, b"v2"), &t).unwrap();
    db.commit(t).unwrap();

    let mut cursor = db.table_scan(tid).unwrap();
    let first = cursor.next().unwrap().expect("row 1 must be scanned");
    assert_eq!(first.data.to_vec(), b"v1");

    let writer = db.begin().unwrap();
    db.update(tid, row(2, b"v2-updated"), &writer).unwrap();
    db.commit(writer).unwrap();

    let second = cursor.next().unwrap().expect("row 2 must be scanned");
    assert_eq!(
        second.data.to_vec(),
        b"v2",
        "a scan's own transaction must not observe a commit that landed after it began"
    );
    assert!(cursor.next().unwrap().is_none());
    drop(cursor);

    let mut cursor2 = db.table_scan(tid).unwrap();
    let row1_again = cursor2
        .next()
        .unwrap()
        .expect("row 1 must still be scanned");
    assert_eq!(row1_again.data.to_vec(), b"v1");
    let row2_again = cursor2
        .next()
        .unwrap()
        .expect("row 2 must still be scanned");
    assert_eq!(row2_again.data.to_vec(), b"v2-updated");
}

#[test]
fn test_txn_update_nonexistent_returns_err() {
    let (db, tid) = make_db_with_table();
    let txn = db.begin().unwrap();
    let r = db.update(tid, row(99, b"x"), &txn);
    assert!(
        matches!(r, Err(StoreError::KeyNotFound(_))),
        "updating missing row must return KeyNotFound, got {r:?}"
    );
    drop(txn);
}

#[test]
fn test_txn_remove_commit_not_findable() {
    let (db, tid) = make_db_with_table();

    let txn1 = db.begin().unwrap();
    db.insert(tid, row(1, b"bye"), &txn1).unwrap();
    db.commit(txn1).unwrap();

    let txn2 = db.begin().unwrap();
    db.remove(tid, id(1), &txn2).unwrap();
    db.commit(txn2).unwrap();

    let txn3 = db.begin().unwrap();
    let found = db.find(tid, id(1), &txn3).unwrap();
    drop(txn3);
    assert!(found.is_none(), "committed remove must make row invisible");
}

#[test]
fn test_txn_uncommitted_remove_row_still_visible_to_concurrent_reader() {
    let (db, tid) = make_db_with_table();

    let txn1 = db.begin().unwrap();
    db.insert(tid, row(1, b"alive"), &txn1).unwrap();
    db.commit(txn1).unwrap();

    let txn2 = db.begin().unwrap();
    db.remove(tid, id(1), &txn2).unwrap();

    let txn3 = db.begin().unwrap();
    let found = db.find(tid, id(1), &txn3).unwrap();
    drop(txn3);
    assert_eq!(
        found
            .expect("row must still be visible before remove commits")
            .data
            .to_vec(),
        b"alive"
    );

    db.commit(txn2).unwrap();
}

#[test]
fn test_txn_remove_nonexistent_returns_err() {
    let (db, tid) = make_db_with_table();
    let txn = db.begin().unwrap();
    let r = db.remove(tid, id(999), &txn);
    assert!(
        matches!(r, Err(StoreError::KeyNotFound(_))),
        "removing missing row must return KeyNotFound, got {r:?}"
    );
    drop(txn);
}

#[test]
fn test_txn_multiple_ops_in_one_txn_commit() {
    let (db, tid) = make_db_with_table();

    let txn1 = db.begin().unwrap();
    db.insert(tid, row(1, b"A"), &txn1).unwrap();
    db.insert(tid, row(2, b"B"), &txn1).unwrap();
    db.insert(tid, row(3, b"C"), &txn1).unwrap();
    db.commit(txn1).unwrap();

    let txn2 = db.begin().unwrap();
    db.update(tid, row(1, b"A_v2"), &txn2).unwrap();
    db.remove(tid, id(3), &txn2).unwrap();
    db.commit(txn2).unwrap();

    let txn3 = db.begin().unwrap();
    assert_eq!(
        db.find(tid, id(1), &txn3).unwrap().unwrap().data.to_vec(),
        b"A_v2"
    );
    assert_eq!(
        db.find(tid, id(2), &txn3).unwrap().unwrap().data.to_vec(),
        b"B"
    );
    assert!(
        db.find(tid, id(3), &txn3).unwrap().is_none(),
        "removed row must be gone"
    );
    drop(txn3);
}

#[test]
fn test_txn_large_number_of_inserts_all_findable() {
    let (db, tid) = make_db_with_table();
    const N: u64 = 200;

    let txn = db.begin().unwrap();
    for i in 0..N {
        db.insert(tid, row(i, format!("val_{i}").as_bytes()), &txn)
            .unwrap();
    }
    db.commit(txn).unwrap();

    let txn2 = db.begin().unwrap();
    for i in 0..N {
        let found = db.find(tid, id(i), &txn2).unwrap();
        assert_eq!(
            found
                .unwrap_or_else(|| panic!("row {i} missing"))
                .data
                .to_vec(),
            format!("val_{i}").as_bytes(),
            "row {i} has wrong data"
        );
    }
    drop(txn2);
}

#[test]
fn test_txn_close_reopen_data_persists() {
    let (db, tid) = make_db_with_table();

    let txn = db.begin().unwrap();
    db.insert(tid, row(1, b"persistent"), &txn).unwrap();
    db.commit(txn).unwrap();

    let (f, l) = db.close().unwrap();
    let db2 = TestDB::open_using("txn_test.db", f, l).unwrap();

    let txn2 = db2.begin().unwrap();
    let found = db2.find(tid, id(1), &txn2).unwrap();
    drop(txn2);
    assert_eq!(
        found.expect("data must survive close/reopen").data.to_vec(),
        b"persistent"
    );
}

#[test]
fn test_txn_close_reopen_new_txn_id_does_not_collide_with_prior_session() {
    let (db, tid) = make_db_with_table();

    let txn = db.begin().unwrap();
    let first_txn_id = txn.id();
    db.insert(tid, row(1, b"v1"), &txn).unwrap();
    db.commit(txn).unwrap();

    let (f, l) = db.close().unwrap();
    let db2 = TestDB::open_using("txn_test.db", f, l).unwrap();

    let txn2 = db2.begin().unwrap();
    assert_ne!(
        txn2.id(),
        first_txn_id,
        "txn id sequence must not restart after reopen"
    );
    drop(txn2);
}

#[test]
fn test_txn_close_reopen_removed_row_stays_gone() {
    let (db, tid) = make_db_with_table();

    let txn = db.begin().unwrap();
    db.insert(tid, row(7, b"temp"), &txn).unwrap();
    db.commit(txn).unwrap();

    let txn = db.begin().unwrap();
    db.remove(tid, id(7), &txn).unwrap();
    db.commit(txn).unwrap();

    let (f, l) = db.close().unwrap();
    let db2 = TestDB::open_using("txn_test.db", f, l).unwrap();

    let txn2 = db2.begin().unwrap();
    let found = db2.find(tid, id(7), &txn2).unwrap();
    drop(txn2);
    assert!(found.is_none(), "removed row must stay gone after reopen");
}

#[test]
fn test_txn_duplicate_insert_returns_err() {
    let (db, tid) = make_db_with_table();

    let txn1 = db.begin().unwrap();
    db.insert(tid, row(1, b"first"), &txn1).unwrap();
    db.commit(txn1).unwrap();

    let txn2 = db.begin().unwrap();
    let r = db.insert(tid, row(1, b"second"), &txn2);
    assert!(
        matches!(r, Err(StoreError::DuplicateKey(_))),
        "duplicate insert must return DuplicateKey, got {r:?}"
    );
    drop(txn2);
}

#[test]
fn test_txn_insert_on_nonexistent_table_returns_err() {
    let (db, _) = make_db_with_table();
    let fake_tid: TableIdType = 9999u64.into();
    let txn = db.begin().unwrap();
    let r = db.insert(fake_tid, row(1, b"x"), &txn);
    assert!(
        matches!(r, Err(StoreError::TableNotFound(_))),
        "expected TableNotFound, got {r:?}"
    );
    drop(txn);
}

#[test]
fn test_txn_drop_without_explicit_commit_rolls_back_at_mgr_level() {
    let (db, tid) = make_db_with_table();

    {
        let txn = db.begin().unwrap();
        db.insert(tid, row(1, b"ephemeral"), &txn).unwrap();
    }

    assert_eq!(
        db.stats().active_transactions,
        0,
        "dropped txn must be removed from active set"
    );
}

#[test]
fn test_txn_update_rollback_sees_original_data() {
    let (db, tid) = make_db_with_table();

    let txn1 = db.begin().unwrap();
    db.insert(tid, row(1, b"v1"), &txn1).unwrap();
    db.commit(txn1).unwrap();

    let txn2 = db.begin().unwrap();
    db.update(tid, row(1, b"v2"), &txn2).unwrap();
    db.rollback(txn2).unwrap();

    let txn3 = db.begin().unwrap();
    let found = db.find(tid, id(1), &txn3).unwrap();
    drop(txn3);
    assert_eq!(
        found.expect("original row must still exist").data.to_vec(),
        b"v1"
    );
}

#[test]
fn test_txn_remove_rollback_row_still_visible() {
    let (db, tid) = make_db_with_table();

    let txn1 = db.begin().unwrap();
    db.insert(tid, row(1, b"alive"), &txn1).unwrap();
    db.commit(txn1).unwrap();

    let txn2 = db.begin().unwrap();
    db.remove(tid, id(1), &txn2).unwrap();
    db.rollback(txn2).unwrap();

    let txn3 = db.begin().unwrap();
    let found = db.find(tid, id(1), &txn3).unwrap();
    drop(txn3);
    assert_eq!(
        found
            .expect("row must survive a rolled-back remove")
            .data
            .to_vec(),
        b"alive"
    );
}

#[test]
fn test_txn_insert_across_two_tables_commit_both_visible() {
    let (db, ta, tb) = make_db_with_two_tables();

    let txn = db.begin().unwrap();
    db.insert(ta, row(1, b"a1"), &txn).unwrap();
    db.insert(tb, row(1, b"b1"), &txn).unwrap();
    db.commit(txn).unwrap();

    let txn2 = db.begin().unwrap();
    assert_eq!(
        db.find(ta, id(1), &txn2).unwrap().unwrap().data.to_vec(),
        b"a1"
    );
    assert_eq!(
        db.find(tb, id(1), &txn2).unwrap().unwrap().data.to_vec(),
        b"b1"
    );
    drop(txn2);
}

#[test]
fn test_txn_insert_across_two_tables_rollback_neither_visible() {
    let (db, ta, tb) = make_db_with_two_tables();

    let txn = db.begin().unwrap();
    db.insert(ta, row(1, b"a1"), &txn).unwrap();
    db.insert(tb, row(1, b"b1"), &txn).unwrap();
    db.rollback(txn).unwrap();

    let txn2 = db.begin().unwrap();
    assert!(db.find(ta, id(1), &txn2).unwrap().is_none());
    assert!(db.find(tb, id(1), &txn2).unwrap().is_none());
    drop(txn2);
}

#[test]
fn test_txn_update_and_remove_across_two_tables_commit() {
    let (db, ta, tb) = make_db_with_two_tables();

    let setup = db.begin().unwrap();
    db.insert(ta, row(1, b"a_v1"), &setup).unwrap();
    db.insert(tb, row(1, b"b_v1"), &setup).unwrap();
    db.commit(setup).unwrap();

    let txn = db.begin().unwrap();
    db.update(ta, row(1, b"a_v2"), &txn).unwrap();
    db.remove(tb, id(1), &txn).unwrap();
    db.commit(txn).unwrap();

    let txn2 = db.begin().unwrap();
    assert_eq!(
        db.find(ta, id(1), &txn2).unwrap().unwrap().data.to_vec(),
        b"a_v2"
    );
    assert!(db.find(tb, id(1), &txn2).unwrap().is_none());
    drop(txn2);
}

#[test]
fn test_txn_update_and_remove_across_two_tables_rollback_restores_both() {
    let (db, ta, tb) = make_db_with_two_tables();

    let setup = db.begin().unwrap();
    db.insert(ta, row(1, b"a_v1"), &setup).unwrap();
    db.insert(tb, row(1, b"b_v1"), &setup).unwrap();
    db.commit(setup).unwrap();

    let txn = db.begin().unwrap();
    db.update(ta, row(1, b"a_v2"), &txn).unwrap();
    db.remove(tb, id(1), &txn).unwrap();
    db.rollback(txn).unwrap();

    let txn2 = db.begin().unwrap();
    assert_eq!(
        db.find(ta, id(1), &txn2).unwrap().unwrap().data.to_vec(),
        b"a_v1",
        "table A update must be rolled back"
    );
    assert_eq!(
        db.find(tb, id(1), &txn2).unwrap().unwrap().data.to_vec(),
        b"b_v1",
        "table B remove must be rolled back"
    );
    drop(txn2);
}

#[test]
fn test_txn_partial_failure_across_tables_rollback_undoes_successful_table() {
    let (db, ta, tb) = make_db_with_two_tables();

    let setup = db.begin().unwrap();
    db.insert(tb, row(1, b"existing"), &setup).unwrap();
    db.commit(setup).unwrap();

    let txn = db.begin().unwrap();
    db.insert(ta, row(1, b"a_new"), &txn).unwrap();
    let r = db.insert(tb, row(1, b"dup"), &txn);
    assert!(
        matches!(r, Err(StoreError::DuplicateKey(_))),
        "expected DuplicateKey, got {r:?}"
    );
    db.rollback(txn).unwrap();

    let txn2 = db.begin().unwrap();
    assert!(
        db.find(ta, id(1), &txn2).unwrap().is_none(),
        "table A's successful insert must be undone by the txn-wide rollback"
    );
    assert_eq!(
        db.find(tb, id(1), &txn2).unwrap().unwrap().data.to_vec(),
        b"existing",
        "table B must be unaffected by the failed duplicate insert"
    );
    drop(txn2);
}

#[test]
fn test_large_object_commit_is_findable() {
    let (db, tid) = make_db_with_table();
    let big = vec![b'A'; 50_000];
    let txn = db.begin().unwrap();
    db.insert(tid, row(1, &big), &txn).unwrap();
    db.commit(txn).unwrap();

    let txn2 = db.begin().unwrap();
    let found = db.find(tid, id(1), &txn2).unwrap();
    drop(txn2);
    assert_eq!(
        found
            .expect("large object must be visible after commit")
            .data
            .to_vec(),
        big
    );
}

#[test]
fn test_large_object_rollback_not_visible() {
    let (db, tid) = make_db_with_table();
    let big = vec![b'B'; 50_000];
    let txn = db.begin().unwrap();
    db.insert(tid, row(1, &big), &txn).unwrap();
    db.rollback(txn).unwrap();

    let txn2 = db.begin().unwrap();
    let found = db.find(tid, id(1), &txn2).unwrap();
    drop(txn2);
    assert!(
        found.is_none(),
        "rolled-back large object must not be visible"
    );
}

#[test]
fn test_very_large_object_five_pages_commit() {
    let (db, tid) = make_db_with_table();
    let big = vec![b'C'; 70_000];
    let txn = db.begin().unwrap();
    db.insert(tid, row(42, &big), &txn).unwrap();
    db.commit(txn).unwrap();

    let txn2 = db.begin().unwrap();
    let found = db.find(tid, id(42), &txn2).unwrap();
    drop(txn2);
    assert_eq!(
        found
            .expect("5-page object must survive commit")
            .data
            .to_vec(),
        big
    );
}

#[test]
fn test_large_objects_persist_across_close_reopen() {
    let (db, tid) = make_db_with_table();
    let big = vec![b'D'; 50_000];
    let txn = db.begin().unwrap();
    db.insert(tid, row(99, &big), &txn).unwrap();
    db.commit(txn).unwrap();

    let (f, l) = db.close().unwrap();
    let db2 = TestDB::open_using("txn_test.db", f, l).unwrap();

    let txn2 = db2.begin().unwrap();
    let found = db2.find(tid, id(99), &txn2).unwrap();
    drop(txn2);
    assert_eq!(
        found
            .expect("large object must survive close/reopen")
            .data
            .to_vec(),
        big
    );
}

#[test]
fn test_multiple_large_objects_same_txn_commit() {
    let (db, tid) = make_db_with_table();
    let small = vec![b'E'; 20_000];
    let txn = db.begin().unwrap();
    db.insert(tid, row(1, &small), &txn).unwrap();
    db.insert(tid, row(2, &small), &txn).unwrap();
    db.insert(tid, row(3, &small), &txn).unwrap();
    db.commit(txn).unwrap();

    let txn2 = db.begin().unwrap();
    for i in 1u64..=3 {
        let found = db.find(tid, id(i), &txn2).unwrap();
        assert_eq!(
            found
                .unwrap_or_else(|| panic!("row {i} missing"))
                .data
                .to_vec(),
            small
        );
    }
    drop(txn2);
}

#[test]
fn test_large_object_rollback_then_reinsert_succeeds() {
    let (db, tid) = make_db_with_table();
    let big = vec![b'F'; 50_000];

    let txn1 = db.begin().unwrap();
    db.insert(tid, row(7, &big), &txn1).unwrap();
    db.rollback(txn1).unwrap();

    let txn2 = db.begin().unwrap();
    db.insert(tid, row(7, &big), &txn2).unwrap();
    db.commit(txn2).unwrap();

    let txn3 = db.begin().unwrap();
    let found = db.find(tid, id(7), &txn3).unwrap();
    drop(txn3);
    assert_eq!(
        found
            .expect("re-inserted large object must be visible")
            .data
            .to_vec(),
        big
    );
}

#[test]
fn test_large_object_full_lifecycle_all_ops() {
    let page = DEFAULT_PAGE_SIZE as usize;
    assert!((4 * page..=8 * page).contains(&(6 * page)));
    let base = big_payload(1, 6 * page);
    let grown = big_payload(2, 8 * page);
    let shrunk = big_payload(3, 4 * page);
    let reins = big_payload(4, 5 * page);

    let (db, tid) = make_db_with_table();

    let t = db.begin().unwrap();
    db.insert(tid, row(1, &base), &t).unwrap();
    db.commit(t).unwrap();
    let t = db.begin().unwrap();
    assert_eq!(
        db.find(tid, id(1), &t)
            .unwrap()
            .expect("inserted")
            .data
            .to_vec(),
        base
    );
    db.rollback(t).unwrap();

    let t = db.begin().unwrap();
    db.update(tid, row(1, &grown), &t).unwrap();
    db.commit(t).unwrap();
    let t = db.begin().unwrap();
    assert_eq!(
        db.find(tid, id(1), &t)
            .unwrap()
            .expect("grown")
            .data
            .to_vec(),
        grown
    );
    db.rollback(t).unwrap();

    let t = db.begin().unwrap();
    db.update(tid, row(1, &shrunk), &t).unwrap();
    db.commit(t).unwrap();
    let t = db.begin().unwrap();
    assert_eq!(
        db.find(tid, id(1), &t)
            .unwrap()
            .expect("shrunk")
            .data
            .to_vec(),
        shrunk
    );
    db.rollback(t).unwrap();

    let t = db.begin().unwrap();
    db.remove(tid, id(1), &t).unwrap();
    db.commit(t).unwrap();
    let t = db.begin().unwrap();
    assert!(
        db.find(tid, id(1), &t).unwrap().is_none(),
        "removed large object must be gone"
    );
    db.rollback(t).unwrap();

    let t = db.begin().unwrap();
    db.insert(tid, row(1, &reins), &t).unwrap();
    db.commit(t).unwrap();
    let (f, l) = db.close().unwrap();
    let db2 = TestDB::open_using("txn_test.db", f, l).unwrap();
    let t = db2.begin().unwrap();
    assert_eq!(
        db2.find(tid, id(1), &t)
            .unwrap()
            .expect("reopened")
            .data
            .to_vec(),
        reins
    );
    db2.rollback(t).unwrap();
}

#[test]
fn test_large_object_update_rollback_keeps_committed() {
    let page = DEFAULT_PAGE_SIZE as usize;
    let v1 = big_payload(10, 6 * page);
    let v2 = big_payload(20, 8 * page);
    let (db, tid) = make_db_with_table();

    let t = db.begin().unwrap();
    db.insert(tid, row(5, &v1), &t).unwrap();
    db.commit(t).unwrap();

    let t = db.begin().unwrap();
    db.update(tid, row(5, &v2), &t).unwrap();
    db.rollback(t).unwrap();

    let t = db.begin().unwrap();
    assert_eq!(
        db.find(tid, id(5), &t)
            .unwrap()
            .expect("v1 must stand")
            .data
            .to_vec(),
        v1,
        "rolled-back large update must leave the committed value intact"
    );
    db.rollback(t).unwrap();
}

#[test]
fn test_table_scan_correct_after_updating_every_row_across_multiple_data_pages() {
    let (db, tid) = make_db_with_table();
    let n = 500u64;
    let value = vec![b'v'; 64];
    for i in 0..n {
        let t = db.begin().unwrap();
        db.insert(tid, row(i, &value), &t).unwrap();
        db.commit(t).unwrap();
    }

    for i in (0..n).rev() {
        let t = db.begin().unwrap();
        db.update(tid, row(i, &value), &t).unwrap();
        db.commit(t).unwrap();
    }

    let mut scanned = 0u64;
    let mut cursor = db.table_scan(tid).unwrap();
    while cursor.next().unwrap().is_some() {
        scanned += 1;
    }
    assert_eq!(
        scanned, n,
        "table_scan must see every row after all of them have been updated, \
         not stop early or error partway through the data-page chain"
    );

    let t = db.begin().unwrap();
    for i in 0..n {
        assert_eq!(
            db.find(tid, id(i), &t)
                .unwrap()
                .unwrap_or_else(|| panic!("row {i} missing after update-all"))
                .data
                .to_vec(),
            value
        );
    }
}

#[test]
fn test_large_object_remove_rollback_still_visible() {
    let page = DEFAULT_PAGE_SIZE as usize;
    let v = big_payload(30, 7 * page);
    let (db, tid) = make_db_with_table();

    let t = db.begin().unwrap();
    db.insert(tid, row(8, &v), &t).unwrap();
    db.commit(t).unwrap();

    let t = db.begin().unwrap();
    db.remove(tid, id(8), &t).unwrap();
    db.rollback(t).unwrap();

    let t = db.begin().unwrap();
    assert_eq!(
        db.find(tid, id(8), &t)
            .unwrap()
            .expect("large object must survive a rolled-back remove")
            .data
            .to_vec(),
        v
    );
    db.rollback(t).unwrap();
}

#[test]
fn test_checkpoint_on_empty_db_succeeds() {
    let (db, _tid) = make_db_with_table();
    assert!(db.checkpoint().is_ok());
}

#[test]
fn test_checkpoint_is_idempotent() {
    let (db, tid) = make_db_with_table();
    let t = db.begin().unwrap();
    db.insert(tid, row(1, b"hello"), &t).unwrap();
    db.commit(t).unwrap();

    db.checkpoint().unwrap();
    let first = read_raw_header(&db);

    db.checkpoint().unwrap();
    let second = read_raw_header(&db);

    assert!(
        second.last_checkpoint >= first.last_checkpoint,
        "a second, no-op checkpoint must not regress last_checkpoint"
    );
    assert_eq!(second.page_count, db.page_count());
}

#[test]
fn test_checkpoint_persists_page_count_and_last_checkpoint() {
    let (db, tid) = make_db_with_table();
    for i in 0..50u64 {
        let t = db.begin().unwrap();
        db.insert(tid, row(i, b"v"), &t).unwrap();
        db.commit(t).unwrap();
    }

    let before = db.now.get();
    db.checkpoint().unwrap();
    let persisted = read_raw_header(&db);

    assert_eq!(
        persisted.page_count,
        db.page_count(),
        "persisted header page_count must match the live allocator state"
    );
    assert!(persisted.last_checkpoint >= before);
}

#[test]
fn test_checkpoint_does_not_affect_visibility_of_rolled_back_data() {
    let (db, tid) = make_db_with_table();
    let t0 = db.begin().unwrap();
    db.insert(tid, row(1, b"committed"), &t0).unwrap();
    db.commit(t0).unwrap();

    let t1 = db.begin().unwrap();
    db.update(tid, row(1, b"uncommitted-update"), &t1).unwrap();
    db.rollback(t1).unwrap();

    db.checkpoint().unwrap();

    let t2 = db.begin().unwrap();
    let found = db.find(tid, id(1), &t2).unwrap();
    drop(t2);
    assert_eq!(
        found.expect("row must still exist").data.to_vec(),
        b"committed",
        "checkpoint must not make a rolled-back write visible"
    );
}

#[test]
fn test_checkpoint_across_multiple_tables() {
    let (db, ta, tb) = make_db_with_two_tables();
    let t = db.begin().unwrap();
    db.insert(ta, row(1, b"a1"), &t).unwrap();
    db.insert(tb, row(1, b"b1"), &t).unwrap();
    db.commit(t).unwrap();

    db.checkpoint().unwrap();

    let t2 = db.begin().unwrap();
    assert_eq!(
        db.find(ta, id(1), &t2).unwrap().unwrap().data.to_vec(),
        b"a1"
    );
    assert_eq!(
        db.find(tb, id(1), &t2).unwrap().unwrap().data.to_vec(),
        b"b1"
    );
    drop(t2);
}

#[test]
fn test_checkpoint_with_large_overflow_object() {
    let (db, tid) = make_db_with_table();
    let big = vec![b'K'; 60_000];
    let t = db.begin().unwrap();
    db.insert(tid, row(1, &big), &t).unwrap();
    db.commit(t).unwrap();

    db.checkpoint().unwrap();

    let (f, l) = db.close().unwrap();
    let db2 = TestDB::open_using("txn_test.db", f, l).unwrap();
    let t2 = db2.begin().unwrap();
    assert_eq!(
        db2.find(tid, id(1), &t2)
            .unwrap()
            .expect("large object must survive checkpoint + close/reopen")
            .data
            .to_vec(),
        big
    );
    drop(t2);
}

#[test]
fn test_replay_redoes_committed_writes_on_reopen() {
    let (db, tid) = make_db_with_table();
    for i in 0..10u64 {
        let t = db.begin().unwrap();
        db.insert(tid, row(i, format!("v{i}").as_bytes()), &t)
            .unwrap();
        db.commit(t).unwrap();
    }

    wait_for_durable_logs(&db, 20);
    sync_header_without_truncating_logs(&db);
    let (f, l) = crash_clone(&db);
    let db2 = TestDB::open_using("txn_test.db", f, l).unwrap();

    let t = db2.begin().unwrap();
    for i in 0..10u64 {
        assert_eq!(
            db2.find(tid, id(i), &t)
                .unwrap()
                .unwrap_or_else(|| panic!("row {i} missing after replay"))
                .data
                .to_vec(),
            format!("v{i}").as_bytes()
        );
    }
}

#[test]
fn test_replay_undoes_uncommitted_abandoned_writes_on_reopen() {
    let (db, tid) = make_db_with_table();

    let t = db.begin().unwrap();
    db.insert(tid, row(1, b"committed"), &t).unwrap();
    db.commit(t).unwrap();

    let uncommitted = db.begin().unwrap();
    db.insert(tid, row(2, b"uncommitted"), &uncommitted)
        .unwrap();
    std::mem::forget(uncommitted);

    wait_for_durable_logs(&db, 3);
    sync_header_without_truncating_logs(&db);
    let (f, l) = crash_clone(&db);
    let db2 = TestDB::open_using("txn_test.db", f, l).unwrap();

    let t = db2.begin().unwrap();
    assert_eq!(
        db2.find(tid, id(1), &t).unwrap().unwrap().data.to_vec(),
        b"committed"
    );
    assert!(
        db2.find(tid, id(2), &t).unwrap().is_none(),
        "an uncommitted, abandoned transaction's write must be reverted by undo replay"
    );
}

#[test]
fn test_replay_handles_mixed_add_mod_del_across_committed_and_abandoned_txns() {
    let (db, tid) = make_db_with_table();

    let t = db.begin().unwrap();
    db.insert(tid, row(1, b"v1"), &t).unwrap();
    db.commit(t).unwrap();
    let t = db.begin().unwrap();
    db.update(tid, row(1, b"v1-updated"), &t).unwrap();
    db.commit(t).unwrap();

    let t = db.begin().unwrap();
    db.insert(tid, row(2, b"v2"), &t).unwrap();
    db.commit(t).unwrap();
    let t = db.begin().unwrap();
    db.remove(tid, id(2), &t).unwrap();
    db.commit(t).unwrap();

    let t = db.begin().unwrap();
    db.insert(tid, row(3, b"v3"), &t).unwrap();
    db.commit(t).unwrap();
    let abandoned = db.begin().unwrap();
    db.update(tid, row(3, b"v3-should-not-stick"), &abandoned)
        .unwrap();
    std::mem::forget(abandoned);

    wait_for_durable_logs(&db, 11);
    sync_header_without_truncating_logs(&db);
    let (f, l) = crash_clone(&db);
    let db2 = TestDB::open_using("txn_test.db", f, l).unwrap();

    let t = db2.begin().unwrap();
    assert_eq!(
        db2.find(tid, id(1), &t).unwrap().unwrap().data.to_vec(),
        b"v1-updated"
    );
    assert!(
        db2.find(tid, id(2), &t).unwrap().is_none(),
        "row 2's committed remove must survive replay"
    );
    assert_eq!(
        db2.find(tid, id(3), &t).unwrap().unwrap().data.to_vec(),
        b"v3",
        "row 3's abandoned update must be reverted, restoring the pre-image"
    );
}

#[test]
fn test_replay_is_idempotent_across_repeated_reopens() {
    let (db, tid) = make_db_with_table();
    for i in 0..5u64 {
        let t = db.begin().unwrap();
        db.insert(tid, row(i, format!("v{i}").as_bytes()), &t)
            .unwrap();
        db.commit(t).unwrap();
    }

    wait_for_durable_logs(&db, 10);
    sync_header_without_truncating_logs(&db);
    let (f, l) = crash_clone(&db);
    let db2 = TestDB::open_using("txn_test.db", f, l).unwrap();

    wait_for_durable_logs(&db2, 10);
    sync_header_without_truncating_logs(&db2);
    let (f2, l2) = crash_clone(&db2);
    let db3 = TestDB::open_using("txn_test.db", f2, l2).unwrap();

    let t = db3.begin().unwrap();
    for i in 0..5u64 {
        assert_eq!(
            db3.find(tid, id(i), &t).unwrap().unwrap().data.to_vec(),
            format!("v{i}").as_bytes()
        );
    }
}

#[test]
fn test_replay_recovers_a_write_whose_page_flush_never_reached_the_main_file() {
    let (db, tid) = make_db_with_table();

    let t = db.begin().unwrap();
    db.insert(tid, row(1, b"pre-checkpoint"), &t).unwrap();
    db.commit(t).unwrap();
    db.checkpoint().unwrap();
    db.checkpoint().unwrap();

    let (stale_main_file, _) = db.synced_snapshot();

    let t = db.begin().unwrap();
    db.insert(tid, row(2, b"lost-on-crash"), &t).unwrap();
    db.commit(t).unwrap();

    wait_for_durable_logs(&db, 2);
    let (_, log_file) = crash_clone(&db);

    let db2 = TestDB::open_using("txn_test.db", stale_main_file, log_file).unwrap();

    let t = db2.begin().unwrap();
    assert_eq!(
        db2.find(tid, id(1), &t).unwrap().unwrap().data.to_vec(),
        b"pre-checkpoint",
        "sanity: the pre-crash checkpointed row must still be there"
    );
    assert_eq!(
        db2.find(tid, id(2), &t)
            .unwrap()
            .unwrap_or_else(|| panic!(
                "row 2 missing: redo replay failed to reconstruct a committed \
                 write whose page flush never reached the main file"
            ))
            .data
            .to_vec(),
        b"lost-on-crash"
    );
}

#[test]
fn test_open_using_refuses_a_log_file_from_a_different_page_size_database() {
    let db_4k = TestDB::create_with_page_size("mismatch_4k.db", 4096).unwrap();
    let db_8k = TestDB::create_with_page_size("mismatch_8k.db", 8192).unwrap();

    let (_, log_bytes_from_8k) = current_segment(&db_8k);
    let (main_file_4k, _) = crash_clone(&db_4k);
    let log_file_from_8k = log_of("mismatch_4k.db.wal.1", log_bytes_from_8k);

    let err = match TestDB::open_using("mismatch_4k.db", main_file_4k, log_file_from_8k) {
        Err(e) => e,
        Ok(_) => panic!("expected LogHeaderMismatch, got Ok"),
    };
    assert!(
        matches!(err, StoreError::LogHeaderMismatch(_)),
        "expected LogHeaderMismatch, got {err:?}"
    );
}

#[test]
fn test_open_using_tolerates_a_torn_tail_and_recovers_everything_before_it() {
    let (db, tid) = make_db_with_table();
    let t1 = db.begin().unwrap();
    db.insert(tid, row(1, b"fully-committed"), &t1).unwrap();
    db.commit(t1).unwrap();
    let t2 = db.begin().unwrap();
    db.insert(tid, row(2, b"torn-away"), &t2).unwrap();
    db.commit(t2).unwrap();
    wait_for_durable_logs(&db, 4);

    sync_header_without_truncating_logs(&db);
    let (main_file, _) = crash_clone(&db);
    let (segment_path, mut torn_bytes) = current_segment(&db);
    torn_bytes.truncate(torn_bytes.len() - 3);
    let torn_log_file = log_of(&segment_path, torn_bytes);

    let db2 = TestDB::open_using("txn_test.db", main_file, torn_log_file)
        .expect("a torn tail must not fail Db::open");
    let t = db2.begin().unwrap();
    assert_eq!(
        db2.find(tid, id(1), &t).unwrap().unwrap().data.to_vec(),
        b"fully-committed",
        "everything before the torn record must still be recovered"
    );
    assert!(
        db2.find(tid, id(2), &t).unwrap().is_none(),
        "transaction 2's own Commit marker was torn off, so it must NOT appear \
         committed: recovery correctly treats it the same as a crash before commit"
    );
}

#[test]
fn test_open_using_refuses_a_log_file_with_mid_file_corruption() {
    let (db, tid) = make_db_with_table();
    let t = db.begin().unwrap();
    db.insert(tid, row(1, b"v1"), &t).unwrap();
    db.commit(t).unwrap();
    let t = db.begin().unwrap();
    db.insert(tid, row(2, b"v2"), &t).unwrap();
    db.commit(t).unwrap();
    wait_for_durable_logs(&db, 4);

    sync_header_without_truncating_logs(&db);
    let (main_file, _) = crash_clone(&db);
    let (segment_path, mut corrupted) = current_segment(&db);
    let header_len = LogHeader::encoded_len();
    let flip_at = header_len + 9;
    corrupted[flip_at] ^= 0xFF;
    let corrupted_log_file = log_of(&segment_path, corrupted);

    let err = match TestDB::open_using("txn_test.db", main_file, corrupted_log_file) {
        Err(e) => e,
        Ok(_) => panic!("expected LogCorruption, got Ok"),
    };
    assert!(
        matches!(err, StoreError::LogCorruption(_)),
        "expected LogCorruption, got {err:?}"
    );
}

#[test]
fn test_replay_handles_empty_file_backed_logs_without_panicking() {
    let db_name = "empty";
    let db = TestDB::create(db_name).unwrap();
    db.create_table("rows".to_string()).unwrap();

    sync_header_without_truncating_logs(&db);
    let (f, l) = crash_clone(&db);
    let db2 = TestDB::open_using(db_name, f, l).unwrap();
    assert_eq!(db2.get_tables().unwrap().len(), 1);

    drop(db2);
    drop(db);
}

#[test]
fn test_replay_recovers_committed_writes_on_file_backed_db() {
    let db_name = "recover";
    let db = TestDB::create(db_name).unwrap();
    let tid = db.create_table("rows".to_string()).unwrap();

    for i in 0..10u64 {
        let t = db.begin().unwrap();
        db.insert(tid, row(i, format!("v{i}").as_bytes()), &t)
            .unwrap();
        db.commit(t).unwrap();
    }

    wait_for_durable_logs(&db, 20);
    sync_header_without_truncating_logs(&db);
    let (f, l) = crash_clone(&db);
    let db2 = TestDB::open_using(db_name, f, l).unwrap();

    let t = db2.begin().unwrap();
    for i in 0..10u64 {
        assert_eq!(
            db2.find(tid, id(i), &t)
                .unwrap()
                .unwrap_or_else(|| panic!("row {i} missing after file-backed replay"))
                .data
                .to_vec(),
            format!("v{i}").as_bytes()
        );
    }
    drop(t);

    drop(db2);
    drop(db);
}

#[test]
fn test_replay_is_idempotent_across_repeated_reopens_file_backed() {
    let db_name = "idempotent";
    let db = TestDB::create(db_name).unwrap();
    let tid = db.create_table("rows".to_string()).unwrap();

    for i in 0..5u64 {
        let t = db.begin().unwrap();
        db.insert(tid, row(i, format!("v{i}").as_bytes()), &t)
            .unwrap();
        db.commit(t).unwrap();
    }

    wait_for_durable_logs(&db, 10);
    sync_header_without_truncating_logs(&db);
    let (f, l) = crash_clone(&db);
    let db2 = TestDB::open_using(db_name, f, l).unwrap();

    wait_for_durable_logs(&db, 10);
    sync_header_without_truncating_logs(&db2);
    let (f2, l2) = crash_clone(&db2);
    let db3 = TestDB::open_using(db_name, f2, l2).unwrap();

    let t = db3.begin().unwrap();
    for i in 0..5u64 {
        assert_eq!(
            db3.find(tid, id(i), &t).unwrap().unwrap().data.to_vec(),
            format!("v{i}").as_bytes()
        );
    }
    drop(t);

    drop(db3);
    drop(db2);
    drop(db);
}

#[test]
fn test_replay_seeds_lsn_watermark_from_prior_session() {
    let (db, tid) = make_db_with_table();
    for i in 0..5u64 {
        let t = db.begin().unwrap();
        db.insert(tid, row(i, format!("v{i}").as_bytes()), &t)
            .unwrap();
        db.commit(t).unwrap();
    }
    wait_for_durable_logs(&db, 10);
    let watermark_before_crash = db.last_written();
    assert_ne!(
        watermark_before_crash.0,
        u64::MAX,
        "sanity: the live session's own watermark must already be a real value, \
         not the cold-start sentinel"
    );

    sync_header_without_truncating_logs(&db);
    let (f, l) = crash_clone(&db);
    let db2 = TestDB::open_using("txn_test.db", f, l).unwrap();

    assert_eq!(
        db2.last_written(),
        watermark_before_crash,
        "replay must seed the reopened db's watermark from the highest lsn in the \
         prior session's redo log, not leave it at the cold-start sentinel"
    );
}

#[test]
fn test_lsn_watermark_does_not_regress_after_new_writes_post_reopen() {
    let (db, tid) = make_db_with_table();
    for i in 0..5u64 {
        let t = db.begin().unwrap();
        db.insert(tid, row(i, format!("v{i}").as_bytes()), &t)
            .unwrap();
        db.commit(t).unwrap();
    }
    wait_for_durable_logs(&db, 10);
    sync_header_without_truncating_logs(&db);
    let (f, l) = crash_clone(&db);
    let db2 = TestDB::open_using("txn_test.db", f, l).unwrap();

    let watermark_after_replay = db2.last_written();

    let t = db2.begin().unwrap();
    db2.insert(tid, row(999, b"new-after-reopen"), &t).unwrap();
    db2.commit(t).unwrap();
    db2.with(|d| d.sync_log());

    assert!(
        db2.last_written().0 >= watermark_after_replay.0,
        "a new write's own redo record landing regressed the watermark from {} down to {}: \
         the lsn counter must resume past the prior session's highest lsn, not just the \
         watermark",
        watermark_after_replay.0,
        db2.last_written().0
    );
}

#[test]
fn test_checkpoint_then_close_then_reopen_preserves_data() {
    let (db, tid) = make_db_with_table();
    for i in 0..10u64 {
        let t = db.begin().unwrap();
        db.insert(tid, row(i, format!("row-{i}").as_bytes()), &t)
            .unwrap();
        db.commit(t).unwrap();
    }
    db.checkpoint().unwrap();
    let page_count_at_checkpoint = db.page_count();

    let (f, l) = db.close().unwrap();
    let db2 = TestDB::open_using("txn_test.db", f, l).unwrap();
    assert_eq!(db2.page_count(), page_count_at_checkpoint);

    let t = db2.begin().unwrap();
    for i in 0..10u64 {
        assert_eq!(
            db2.find(tid, id(i), &t)
                .unwrap()
                .unwrap_or_else(|| panic!("row {i} missing after checkpoint+close+reopen"))
                .data
                .to_vec(),
            format!("row-{i}").as_bytes()
        );
    }
    drop(t);
}

#[test]
fn test_checkpoint_truncates_the_log_file_down_to_just_its_header() {
    let (db, tid) = make_db_with_table();
    for i in 0..20u64 {
        let t = db.begin().unwrap();
        db.insert(tid, row(i, b"v"), &t).unwrap();
        db.commit(t).unwrap();
    }

    db.checkpoint().unwrap();
    let (_, log_ns, log_file) = {
        let now = db.tick();
        let inner = db.inner.borrow_mut().take().unwrap();
        inner.close(now).unwrap()
    };

    assert_eq!(
        log_file.get_metadata(&log_ns).len,
        LogHeader::encoded_len() as u64,
        "the log file must be truncated down to just its header after a checkpoint"
    );
}

#[test]
fn test_checkpoint_keeps_log_bounded_across_many_rounds() {
    let (db, tid) = make_db_with_table();

    let header_len = LogHeader::encoded_len();
    for round in 0..20u64 {
        let t = db.begin().unwrap();
        db.insert(tid, row(round, b"v"), &t).unwrap();
        db.commit(t).unwrap();
        db.checkpoint().unwrap();

        let segments = wal_segments_of(&db);
        assert_eq!(
            segments.len(),
            1,
            "round {round}: nothing in flight, so only the fresh segment may remain: {:?}",
            segments
                .iter()
                .map(|(p, b)| (p.clone(), b.len()))
                .collect::<Vec<_>>()
        );
        assert_eq!(
            segments[0].1.len(),
            header_len,
            "round {round}: the fresh segment holds just its header: the log must not \
             accumulate round over round"
        );
        assert_eq!(db.stats().wal_segments, 1);
    }
}

#[test]
fn test_free_pages_empty_by_default_persists_as_empty() {
    let (db, _tid) = make_db_with_table();
    assert!(db.free_pages().is_empty());
    let (f, l) = db.close().unwrap();
    let db2 = TestDB::open_using("txn_test.db", f, l).unwrap();
    assert!(
        db2.free_pages().is_empty(),
        "a DB that never freed anything must not spuriously report free pages"
    );
}

#[test]
fn test_insert_over_a_committed_tombstone_is_a_new_version() {
    let (db, tid) = make_db_with_table();
    let t = db.begin().unwrap();
    db.insert(tid, row(3, b"first"), &t).unwrap();
    db.commit(t).unwrap();
    let t = db.begin().unwrap();
    db.remove(tid, id(3), &t).unwrap();
    db.commit(t).unwrap();
    assert_eq!(db.stats().tombstones_awaiting_purge, 1);

    let t = db.begin().unwrap();
    db.insert(tid, row(3, b"rolled back"), &t).unwrap();
    assert_eq!(
        db.find(tid, id(3), &t).unwrap().unwrap().data.to_vec(),
        b"rolled back"
    );
    db.rollback(t).unwrap();
    let t = db.begin().unwrap();
    assert!(db.find(tid, id(3), &t).unwrap().is_none());
    db.rollback(t).unwrap();

    let older = db.begin().unwrap();
    let t = db.begin().unwrap();
    db.insert(tid, row(3, b"second"), &t).unwrap();
    db.commit(t).unwrap();
    assert!(
        db.find(tid, id(3), &older).unwrap().is_none(),
        "older reader: still deleted"
    );
    let t = db.begin().unwrap();
    assert_eq!(
        db.find(tid, id(3), &t).unwrap().unwrap().data.to_vec(),
        b"second"
    );
    assert!(matches!(
        db.insert(tid, row(3, b"third"), &t),
        Err(StoreError::DuplicateKey(_))
    ));
    db.rollback(older).unwrap();
    db.rollback(t).unwrap();
    db.maintenance_pass().unwrap();
    assert_eq!(db.stats().version_records, 0);
    let t = db.begin().unwrap();
    assert_eq!(
        db.find(tid, id(3), &t).unwrap().unwrap().data.to_vec(),
        b"second"
    );
}

#[test]
fn test_insert_over_an_uncommitted_tombstone_from_another_txn_conflicts() {
    let (db, tid) = make_db_with_table();
    let t = db.begin().unwrap();
    db.insert(tid, row(4, b"v0"), &t).unwrap();
    db.commit(t).unwrap();
    let remover = db.begin().unwrap();
    db.remove(tid, id(4), &remover).unwrap();
    let t = db.begin().unwrap();
    let r = db.insert(tid, row(4, b"v1"), &t);
    assert!(matches!(r, Err(StoreError::WriteConflict(_))), "got {r:?}");
    db.rollback(remover).unwrap();
    assert!(matches!(
        db.insert(tid, row(4, b"v1"), &t),
        Err(StoreError::DuplicateKey(_))
    ));
}

#[test]
fn test_a_dropped_guard_is_fully_reverted_before_drop_returns() {
    let (db, tid) = make_db_with_table();
    let t = db.begin().unwrap();
    db.insert(tid, row(1, b"v0"), &t).unwrap();
    db.commit(t).unwrap();
    {
        let t = db.begin().unwrap();
        db.update(tid, row(1, b"dropped"), &t).unwrap();
        db.insert(tid, row(2, b"dropped"), &t).unwrap();
        assert_eq!(db.stats().version_records, 3);
    }
    let s = db.stats();
    assert_eq!(s.aborting_transactions, 0, "nothing parked");
    assert_eq!(s.active_transactions, 0);
    assert_eq!(
        s.version_records, 1,
        "only the committed insert's record remains"
    );
    let t = db.begin().unwrap();
    assert_eq!(
        db.find(tid, id(1), &t).unwrap().unwrap().data.to_vec(),
        b"v0"
    );
    assert!(db.find(tid, id(2), &t).unwrap().is_none());
}

#[test]
fn test_vacuum_never_reclaims_a_version_a_live_reader_can_reach() {
    let (db, tid) = make_db_with_table();
    let t = db.begin().unwrap();
    db.insert(tid, row(1, b"v0"), &t).unwrap();
    db.commit(t).unwrap();
    let reader = db.begin().unwrap();
    for i in 1..=20u64 {
        let t = db.begin().unwrap();
        db.update(tid, row(1, format!("v{i}").as_bytes()), &t)
            .unwrap();
        db.commit(t).unwrap();
    }
    db.maintenance_pass().unwrap();
    assert_eq!(
        db.find(tid, id(1), &reader).unwrap().unwrap().data.to_vec(),
        b"v0",
        "the reader's snapshot must survive 20 commits and any number of vacuum passes"
    );
    assert!(
        db.stats().version_records >= 20,
        "the chain is retained while the reader lives"
    );
    db.rollback(reader).unwrap();
    db.maintenance_pass().unwrap();
    let s = db.stats();
    assert_eq!(
        s.version_records, 0,
        "nothing needs the chain once the reader is gone: {s:?}"
    );
    assert_eq!(s.committed_retained, 0);
    assert_eq!(s.committed_awaiting_vacuum, 0);
}

#[test]
fn test_stats_report_zero_pending_work_after_quiescence() {
    let (db, tid) = make_db_with_table();
    for k in 0..10u64 {
        let t = db.begin().unwrap();
        db.insert(tid, row(k, b"v"), &t).unwrap();
        db.commit(t).unwrap();
    }
    for k in 0..5u64 {
        let t = db.begin().unwrap();
        db.remove(tid, id(k), &t).unwrap();
        db.commit(t).unwrap();
    }
    {
        let t = db.begin().unwrap();
        db.update(tid, row(7, b"abandoned"), &t).unwrap();
    }
    db.maintenance_pass().unwrap();
    let s = db.stats();
    assert_eq!(s.active_transactions, 0);
    assert_eq!(s.aborting_transactions, 0);
    assert_eq!(s.version_records, 0, "{s:?}");
    assert_eq!(s.committed_retained, 0, "{s:?}");
    assert_eq!(s.committed_awaiting_vacuum, 0, "{s:?}");
    assert_eq!(s.tombstones_awaiting_purge, 0, "{s:?}");
    assert_eq!(s.tombstones_purged, 5);
    assert_eq!(s.maintenance_errors, 0, "{s:?}");
    let t = db.begin().unwrap();
    for k in 0..5u64 {
        assert!(db.find(tid, id(k), &t).unwrap().is_none());
    }
    for k in 5..10u64 {
        assert!(db.find(tid, id(k), &t).unwrap().is_some());
    }
    db.insert(tid, row(0, b"again"), &t).unwrap();
    db.commit(t).unwrap();
}

#[test]
fn test_reopen_after_crash_seeds_the_counter_above_every_id_and_lsn_in_the_log() {
    let (db, tid) = make_db_with_table();
    db.checkpoint().unwrap();
    let mut highest = 0u64;
    for i in 0..5u64 {
        let t = db.begin().unwrap();
        highest = highest.max(t.id().id_num());
        db.insert(tid, row(i, b"x"), &t).unwrap();
        db.commit(t).unwrap();
    }
    let (data, log) = db.synced_snapshot();
    drop(db);
    let db = TestDB::open_using("txn_test.db", data, log).unwrap();
    let t = db.begin().unwrap();
    assert!(
        t.id().id_num() > highest,
        "new id {} must exceed every pre-crash id (highest {highest})",
        t.id().id_num()
    );
    db.rollback(t).unwrap();
    let (f, l) = db.close().unwrap();
    let db = TestDB::open_using("txn_test.db", f, l).unwrap();
    let t = db.begin().unwrap();
    assert!(t.id().id_num() > highest);
}

#[test]
fn test_sequence_values_are_never_reissued_after_a_crash() {
    let (db, tid) = make_db_with_table();
    db.create_generator("rowid", Some(0))
        .unwrap();
    db.checkpoint().unwrap();
    let mut used = Vec::new();
    for _ in 0..40 {
        let k = db.gen_key("rowid").unwrap();
        let t = db.begin().unwrap();
        db.insert(tid, row(k, b"r"), &t).unwrap();
        db.commit(t).unwrap();
        used.push(k);
    }
    let (data, log) = db.synced_snapshot();
    drop(db);
    let db = TestDB::open_using("txn_test.db", data, log).unwrap();
    let next = db.gen_key("rowid").unwrap();
    assert!(
        next > *used.iter().max().unwrap(),
        "sequence handed out {next} again after a crash; {} was already committed",
        used.iter().max().unwrap()
    );
    let t = db.begin().unwrap();
    for k in &used {
        assert!(db.find(tid, id(*k), &t).unwrap().is_some());
    }
    db.insert(tid, row(next, b"r"), &t).unwrap();
    db.commit(t).unwrap();
}

#[test]
fn test_recovery_tolerates_a_log_older_than_the_checkpoint() {
    let (db, tid) = make_db_with_table();
    let t = db.begin().unwrap();
    db.insert(tid, row(7, b"v0"), &t).unwrap();
    db.commit(t).unwrap();
    db.checkpoint().unwrap();
    let t = db.begin().unwrap();
    db.update(tid, row(7, b"v1"), &t).unwrap();
    db.commit(t).unwrap();
    let t = db.begin().unwrap();
    db.remove(tid, id(7), &t).unwrap();
    db.commit(t).unwrap();
    wait_for_durable_logs(&db, 4);
    let (_, stale_log) = db.synced_snapshot();
    db.maintenance_pass().unwrap();
    assert_eq!(db.stats().tombstones_awaiting_purge, 0);
    db.checkpoint().unwrap();
    let (data, _) = db.synced_snapshot();
    drop(db);
    let db = TestDB::open_using("txn_test.db", data, stale_log)
        .expect("a log older than the checkpoint must replay as a no-op, not fail");
    let t = db.begin().unwrap();
    assert!(db.find(tid, id(7), &t).unwrap().is_none());
}

#[test]
fn test_sequence_creation_and_removal_survive_a_crash() {
    let (db, _tid) = make_db_with_table();
    db.create_generator("doomed", Some(0))
        .unwrap();
    db.checkpoint().unwrap();
    db.create_generator("fresh", Some(100))
        .unwrap();
    db.remove_generator("doomed").unwrap();
    let t = db.begin().unwrap();
    db.commit(t).unwrap();
    let (data, log) = db.synced_snapshot();
    drop(db);
    let db = TestDB::open_using("txn_test.db", data, log).unwrap();
    assert_eq!(db.gen_key("fresh").unwrap(), 100);
    assert!(matches!(
        db.gen_key("doomed"),
        Err(StoreError::MissingKey(_))
    ));
}

#[test]
fn test_update_and_remove_on_a_committed_unreclaimed_tombstone_are_key_not_found() {
    let (db, tid) = make_db_with_table();
    let t = db.begin().unwrap();
    db.insert(tid, row(5, b"v0"), &t).unwrap();
    db.commit(t).unwrap();
    let reader = db.begin().unwrap();
    let t = db.begin().unwrap();
    db.remove(tid, id(5), &t).unwrap();
    db.commit(t).unwrap();
    assert_eq!(db.stats().tombstones_awaiting_purge, 1);

    let t = db.begin().unwrap();
    assert!(db.find(tid, id(5), &t).unwrap().is_none());
    assert!(matches!(
        db.update(tid, row(5, b"v1"), &t),
        Err(StoreError::KeyNotFound(_))
    ));
    assert!(matches!(
        db.remove(tid, id(5), &t),
        Err(StoreError::KeyNotFound(_))
    ));
    assert!(db.find(tid, id(5), &t).unwrap().is_none());
    db.rollback(t).unwrap();
    db.rollback(reader).unwrap();
}

#[test]
fn test_replay_applies_a_committed_insert_over_a_checkpointed_tombstone() {
    let (db, tid) = make_db_with_table();
    let t = db.begin().unwrap();
    db.insert(tid, row(7, b"first"), &t).unwrap();
    db.commit(t).unwrap();
    let t = db.begin().unwrap();
    db.remove(tid, id(7), &t).unwrap();
    db.commit(t).unwrap();
    assert_eq!(db.stats().tombstones_awaiting_purge, 1);
    db.checkpoint().unwrap();
    db.maintenance_pass().unwrap();
    assert_eq!(db.stats().tombstones_awaiting_purge, 0);
    let t = db.begin().unwrap();
    db.insert(tid, row(7, b"second"), &t).unwrap();
    db.commit(t).unwrap();
    let (data, log) = db.synced_snapshot();
    drop(db);
    let db = TestDB::open_using("txn_test.db", data, log).unwrap();
    let t = db.begin().unwrap();
    let found = db.find(tid, id(7), &t).unwrap();
    assert_eq!(
        found.map(|x| x.data.to_vec()),
        Some(b"second".to_vec()),
        "the committed reinsert must survive recovery over the checkpointed tombstone"
    );
}

#[test]
fn test_audit_t8_abort_refuses_to_move_an_already_finished_transaction_into_aborting() {
    let (db, tid) = make_db_with_table();
    let t0 = db.begin().unwrap();
    let t0_id = t0.id();
    db.insert(tid, row(1, b"v0"), &t0).unwrap();
    db.commit(t0).unwrap();

    let result = db.with(|d| d.engine.txns.abort(t0_id));
    assert!(
        result.is_err(),
        "abort() must refuse to move an already-finished (committed) transaction into \
         `aborting`: {result:?}"
    );

    let reader = db.begin().unwrap();
    assert_eq!(
        db.find(tid, id(1), &reader).unwrap().unwrap().data.to_vec(),
        b"v0",
        "the committed row must be unaffected regardless"
    );
}

#[test]
fn test_audit_t9_a_transaction_can_update_a_row_it_inserted_itself() {
    let (db, tid) = make_db_with_table();
    let t = db.begin().unwrap();
    db.insert(tid, row(1, b"v0"), &t).unwrap();
    let result = db.update(tid, row(1, b"v1"), &t);
    assert!(
        result.is_ok(),
        "updating a row inserted earlier in the SAME transaction must succeed: {result:?}"
    );
    db.commit(t).unwrap();

    let reader = db.begin().unwrap();
    assert_eq!(
        db.find(tid, id(1), &reader).unwrap().unwrap().data.to_vec(),
        b"v1"
    );
}

#[test]
fn test_audit_t9_a_transaction_can_remove_a_row_it_inserted_itself() {
    let (db, tid) = make_db_with_table();
    let t = db.begin().unwrap();
    db.insert(tid, row(1, b"v0"), &t).unwrap();
    let result = db.remove(tid, id(1), &t);
    assert!(
        result.is_ok(),
        "removing a row inserted earlier in the SAME transaction must succeed: {result:?}"
    );
    db.commit(t).unwrap();

    let reader = db.begin().unwrap();
    assert!(db.find(tid, id(1), &reader).unwrap().is_none());
}

#[test]
fn test_audit_t9_rollback_after_insert_then_update_leaves_no_trace_of_the_row() {
    let (db, tid) = make_db_with_table();
    let t = db.begin().unwrap();
    db.insert(tid, row(1, b"v0"), &t).unwrap();
    db.update(tid, row(1, b"v1"), &t).unwrap();
    db.rollback(t).unwrap();

    let reader = db.begin().unwrap();
    assert!(
        db.find(tid, id(1), &reader).unwrap().is_none(),
        "rolling back insert-then-update must leave the row looking like it never existed"
    );
}

#[test]
fn test_audit_t9_insert_then_remove_then_commit_allows_reinserting_the_same_key() {
    let (db, tid) = make_db_with_table();
    let t = db.begin().unwrap();
    db.insert(tid, row(1, b"v0"), &t).unwrap();
    db.remove(tid, id(1), &t).unwrap();
    db.commit(t).unwrap();

    let t2 = db.begin().unwrap();
    db.insert(tid, row(1, b"v2"), &t2).unwrap();
    db.commit(t2).unwrap();

    let reader = db.begin().unwrap();
    assert_eq!(
        db.find(tid, id(1), &reader).unwrap().unwrap().data.to_vec(),
        b"v2"
    );
}

#[test]
fn test_audit_t13_rollback_after_two_updates_in_one_txn_restores_the_original_not_an_intermediate_value()
 {
    let (db, tid) = make_db_with_table();
    let t0 = db.begin().unwrap();
    db.insert(tid, row(1, b"v0"), &t0).unwrap();
    db.commit(t0).unwrap();

    let t1 = db.begin().unwrap();
    db.update(tid, row(1, b"v1"), &t1).unwrap();
    db.update(tid, row(1, b"v2"), &t1).unwrap();
    db.rollback(t1).unwrap();

    let reader = db.begin().unwrap();
    assert_eq!(
        db.find(tid, id(1), &reader).unwrap().unwrap().data.to_vec(),
        b"v0",
        "rollback must restore the ORIGINAL pre-transaction value, not an intermediate one"
    );
}

#[test]
fn test_audit_t6_a_reader_snapshot_survives_a_concurrent_committed_delete() {
    let (db, tid) = make_db_with_table();
    let t0 = db.begin().unwrap();
    db.insert(tid, row(1, b"v0"), &t0).unwrap();
    db.commit(t0).unwrap();

    let reader = db.begin().unwrap();
    assert_eq!(
        db.find(tid, id(1), &reader).unwrap().unwrap().data.to_vec(),
        b"v0"
    );

    let t1 = db.begin().unwrap();
    db.remove(tid, id(1), &t1).unwrap();
    db.commit(t1).unwrap();

    assert_eq!(
        db.find(tid, id(1), &reader).unwrap().unwrap().data.to_vec(),
        b"v0",
        "a transaction's own snapshot must still see a row that was deleted and committed \
         by someone else after it began"
    );
}

#[test]
fn test_audit_s6_create_table_fails_cleanly_once_the_catalog_page_is_full() {
    let db = TestDB::create("audit_s6_catalog_full.db").unwrap();
    let mut failed_name = None;
    for i in 0..1000 {
        let name = format!("table_number_{i:05}");
        if db.create_table(name.clone()).is_err() {
            failed_name = Some(name);
            break;
        }
    }
    let failed_name = failed_name
        .expect("expected create_table to eventually fail once the catalog page is full");

    assert!(
        db.table_id_by_name(&failed_name).unwrap().is_none(),
        "a table whose create_table call FAILED must not be left half-created in memory"
    );
    assert!(
        db.checkpoint().is_ok(),
        "checkpoint must still succeed after a cleanly-rejected create_table, not fail \
         forever afterward"
    );
}

#[test]
fn test_audit_s7_the_system_prefix_is_reserved_as_a_whole_namespace() {
    let db = TestDB::create("audit_s7_system_prefix.db").unwrap();
    let result = db.create_table("__system.not_actually_used_anywhere".to_string());
    assert!(
        result.is_err(),
        "the entire __system. prefix must be reserved, not just the specific names \
         already in use internally"
    );
}

#[test]
fn test_audit_t12_rollback_of_a_transaction_whose_table_was_dropped_mid_flight_now_succeeds_cleanly()
 {
    let (db, tid) = make_db_with_table();
    let t0 = db.begin().unwrap();
    db.insert(tid, row(1, b"v0"), &t0).unwrap();
    db.commit(t0).unwrap();

    let t1 = db.begin().unwrap();
    let t1_id = t1.id();
    db.update(tid, row(1, b"v1"), &t1).unwrap();

    db.drop_table("rows").unwrap();

    let result = db.rollback(t1);
    assert!(
        result.is_ok(),
        "rollback must succeed here: its table is gone, so there's \
         nothing left to revert, not a failure: {result:?}"
    );

    assert!(
        !db.with(|d| d.engine.txns.is_transaction_active(&t1_id)),
        "a transaction whose rollback completed must not still be active"
    );
}

#[test]
fn test_audit_t10_a_wrapped_undo_id_must_not_alias_a_different_rows_undo_entry() {
    const NUM_ROW2_UPDATES: u64 = 65_536;

    let (db, tid) = make_db_with_table();

    let t0 = db.begin().unwrap();
    db.insert(tid, row(1, b"row1_original"), &t0).unwrap();
    db.insert(tid, row(2, b"row2_original"), &t0).unwrap();
    db.commit(t0).unwrap();

    let t1 = db.begin().unwrap();
    db.update(tid, row(1, b"row1_touched"), &t1).unwrap();
    for i in 0..NUM_ROW2_UPDATES {
        let data = format!("row2_v{i}");
        db.update(tid, row(2, data.as_bytes()), &t1).unwrap();
    }

    let reader = db.begin().unwrap();
    let visible = db.find(tid, id(2), &reader).unwrap().unwrap();
    assert_eq!(
        visible.id,
        id(2),
        "a lookup for row 2 resolved to a DIFFERENT row's identity: a wrapped UndoId \
         aliased row 1's undo slot instead of walking to row 2's own committed ancestor"
    );
    assert_eq!(visible.data.to_vec(), b"row2_original");
}

#[test]
fn test_audit_t1_commit_does_not_return_before_its_own_record_is_durable() {
    let (db, tid) = make_db_with_table();
    let t = db.begin().unwrap();
    db.insert(tid, row(1, b"v1"), &t).unwrap();
    db.commit(t).unwrap();
    assert_eq!(
        count_log_records(&db),
        2,
        "commit() must not return until its own commit record (and everything logged \
         earlier in this transaction) is actually durable, not just queued for the log \
         runner thread"
    );
}

#[test]
fn test_audit_t3_checkpoint_reverts_an_abandoned_write_before_flushing() {
    let (db, tid) = make_db_with_table();
    {
        let t = db.begin().unwrap();
        db.insert(tid, row(7, b"uncommitted"), &t).unwrap();
    }
    db.checkpoint().unwrap();

    let (f, l) = crash_clone(&db);
    let db2 = TestDB::open_using("txn_test.db", f, l).unwrap();
    let reader = db2.begin().unwrap();
    assert!(
        db2.find(tid, id(7), &reader).unwrap().is_none(),
        "checkpoint must not let an abandoned, never-committed write survive as if \
         it had committed: either by reverting it before flushing, or \
         (if that somehow didn't happen) by leaving enough log behind for replay to \
         still catch it"
    );
}

#[test]
fn test_checkpoint_does_not_wait_for_a_still_active_transaction() {
    let (db, tid) = make_db_with_table();
    let t = db.begin().unwrap();
    db.insert(tid, row(1, b"committed-before"), &t).unwrap();
    db.commit(t).unwrap();
    db.checkpoint().unwrap();
    assert_eq!(db.stats().wal_segments, 1);

    let writer = db.begin().unwrap();
    db.insert(tid, row(9, b"in-flight"), &writer).unwrap();

    db.checkpoint().unwrap();
    assert_eq!(
        db.stats().wal_segments,
        2,
        "the active transaction's records live in the older segment, which is retained"
    );

    let (data, log) = db.synced_snapshot();
    let crashed = TestDB::open_using("txn_test.db", data, log).unwrap();
    let r = crashed.begin().unwrap();
    assert_eq!(
        crashed.find(tid, id(1), &r).unwrap().unwrap().data.to_vec(),
        b"committed-before"
    );
    assert!(
        crashed.find(tid, id(9), &r).unwrap().is_none(),
        "uncommitted at the cut"
    );
    drop(r);
    drop(crashed);

    db.commit(writer).unwrap();
    db.checkpoint().unwrap();
    assert_eq!(
        db.stats().wal_segments,
        1,
        "nothing in flight: only the fresh segment"
    );
    let reader = db.begin().unwrap();
    assert_eq!(
        db.find(tid, id(9), &reader).unwrap().unwrap().data.to_vec(),
        b"in-flight",
        "the transaction's write committed after the checkpoint: it must still be there"
    );
}

#[test]
fn test_audit_t5_checkpoint_header_write_is_durable_before_returning() {
    let (db, tid) = make_db_with_table();
    let t = db.begin().unwrap();
    db.insert(tid, row(1, b"v1"), &t).unwrap();
    db.commit(t).unwrap();

    let page_count_before = db.page_count();
    db.checkpoint().unwrap();

    let (data, _) = db.synced_snapshot();
    let on_disk = Header::decode(&data.header).unwrap();
    assert_eq!(
        on_disk.page_count, page_count_before,
        "checkpoint() must not return until the header it just wrote is actually \
         durable on disk, not merely queued for the buffer's writer thread"
    );
}

#[test]
fn test_audit_t16_reopen_reconciles_the_free_list_against_reachable_pages() {
    let (db, tid) = make_db_with_table();
    let t = db.begin().unwrap();
    db.insert(tid, row(1, b"v1"), &t).unwrap();
    db.commit(t).unwrap();
    wait_for_durable_logs(&db, 2);

    let tables = db.get_tables().unwrap();
    assert_eq!(tables[0].id, tid);
    let reachable_page = tables[0].first_data_page;

    sync_header_without_truncating_logs(&db);
    let (mut f, l) = crash_clone(&db);
    let values = db.with(|d| d.generator.get_values());
    let stale = write_system_tables(&tables, &values, &vec![reachable_page], DEFAULT_PAGE_SIZE);
    f.system.free = stale.unwrap().free;
    let db2 = TestDB::open_using("txn_test.db", f, l).unwrap();
    assert!(
        !db2.free_pages().contains(&reachable_page),
        "a page reachable from a live table's own structure must never be left on \
         the free list after open, regardless of what a stale persisted snapshot \
         claims: otherwise a later allocation could hand it out again and clobber \
         committed data"
    );
}

#[test]
fn test_audit_s1_open_rejects_a_corrupted_header_checksum() {
    let (db, _tid) = make_db_with_table();
    let (mut f, l) = db.close().unwrap();
    tamper_header(&mut f, |hdr| hdr.header_checksum ^= 0xFFFF_FFFF);
    let result = TestDB::open_using("txn_test.db", f, l);
    assert!(
        matches!(result, Err(StoreError::HeaderCorruption(_))),
        "expected HeaderCorruption, got {:?}",
        result.err()
    );
}

#[test]
fn test_audit_s1_open_rejects_an_invalid_page_size() {
    let (db, _tid) = make_db_with_table();
    let (mut f, l) = db.close().unwrap();
    tamper_header(&mut f, |hdr| {
        hdr.page_size = 12345;
        hdr.seal();
    });
    let result = TestDB::open_using("txn_test.db", f, l);
    assert!(
        matches!(result, Err(StoreError::HeaderCorruption(_))),
        "expected HeaderCorruption, got {:?}",
        result.err()
    );
}

#[test]
fn test_audit_s1_open_rejects_a_first_page_offset_smaller_than_the_header_itself() {
    let (db, _tid) = make_db_with_table();
    let (mut f, l) = db.close().unwrap();
    tamper_header(&mut f, |hdr| {
        hdr.first_page_offset = 4;
        hdr.seal();
    });
    let result = TestDB::open_using("txn_test.db", f, l);
    assert!(
        matches!(result, Err(StoreError::HeaderCorruption(_))),
        "expected HeaderCorruption, got {:?}",
        result.err()
    );
}

#[test]
fn test_header_decodes_pre_stage3_v3_fixture_with_default_key_size() {
    let (db, _tid) = make_db_with_table();
    let (mut f, l) = db.close().unwrap();
    let current = Header::decode(&f.header).unwrap();
    let mut v3 = v3_of(current);
    v3.header_checksum = fnv1a_32(&v3.checksum_input());
    f.header = v3_block(&v3);

    let db2 = TestDB::open_using("txn_test.db", f, l).unwrap();
    assert_eq!(db2.header().max_index_key_size, DEFAULT_MAX_INDEX_KEY_SIZE);
    assert_eq!(db2.header().format_version, HEADER_FORMAT_VERSION);
    assert_eq!(db2.header().page_count, current.page_count);
    assert_eq!(db2.header().counter, current.counter);
}

#[test]
fn test_header_decode_rejects_a_v3_fixture_with_a_bad_checksum() {
    let (db, _tid) = make_db_with_table();
    let (mut f, l) = db.close().unwrap();
    let current = Header::decode(&f.header).unwrap();
    let mut v3 = v3_of(current);
    v3.header_checksum = 0xDEAD_BEEF;
    f.header = v3_block(&v3);

    let result = TestDB::open_using("txn_test.db", f, l);
    assert!(
        matches!(result, Err(StoreError::HeaderCorruption(_))),
        "expected HeaderCorruption, got {:?}",
        result.err()
    );
}

#[test]
fn test_header_decode_rejects_an_unrecognized_format_version() {
    let (db, _tid) = make_db_with_table();
    let (mut f, l) = db.close().unwrap();
    tamper_header(&mut f, |hdr| {
        hdr.format_version = 99;
        hdr.seal();
    });
    let result = TestDB::open_using("txn_test.db", f, l);
    assert!(
        matches!(result, Err(StoreError::HeaderCorruption(_))),
        "expected HeaderCorruption, got {:?}",
        result.err()
    );
}

#[test]
fn test_audit_t17_replay_survives_log_records_for_a_table_dropped_before_the_next_checkpoint() {
    let (db, tid) = make_db_with_table();
    let t = db.begin().unwrap();
    db.insert(tid, row(1, b"v1"), &t).unwrap();
    db.commit(t).unwrap();
    wait_for_durable_logs(&db, 2);

    db.drop_table("rows").unwrap();

    sync_header_without_truncating_logs(&db);
    let (f, l) = crash_clone(&db);
    let db2 = TestDB::open_using("txn_test.db", f, l).unwrap();
    assert!(
        db2.table_id_by_name("rows").unwrap().is_none(),
        "the dropped table must stay gone after replay, not resurrect or fail open"
    );
}

#[test]
fn test_audit_t15_replay_applies_a_committed_update_whose_own_page_flush_never_landed() {
    let (db, tid) = make_db_with_table();

    let t0 = db.begin().unwrap();
    db.insert(tid, row(1, b"v1"), &t0).unwrap();
    db.commit(t0).unwrap();
    db.checkpoint().unwrap();
    db.checkpoint().unwrap();
    let (stale_main_file, _) = db.synced_snapshot();

    let t1 = db.begin().unwrap();
    db.update(tid, row(1, b"v2"), &t1).unwrap();
    db.commit(t1).unwrap();

    wait_for_durable_logs(&db, 2);
    let (_, log_file) = crash_clone(&db);

    let db2 = TestDB::open_using("txn_test.db", stale_main_file, log_file).unwrap();
    let t = db2.begin().unwrap();
    assert_eq!(
        db2.find(tid, id(1), &t).unwrap().unwrap().data.to_vec(),
        b"v2",
        "replay must apply B's committed update even though its own page flush \
         never reached the main file: only A's (older) flush did"
    );
}

#[test]
fn test_audit_t11_reopen_advances_ts_past_everything_seen_in_the_log_not_just_the_persisted_value()
 {
    let (db, tid) = make_db_with_table();

    let t = db.begin().unwrap();
    let a_ts = t.id().id_num();
    db.insert(tid, row(1, b"v1"), &t).unwrap();
    db.commit(t).unwrap();
    wait_for_durable_logs(&db, 2);


    sync_header_without_truncating_logs(&db);
    let (f, l) = crash_clone(&db);
    let db2 = TestDB::open_using("txn_test.db", f, l).unwrap();
    let t2 = db2.begin().unwrap();
    assert!(
        t2.id().id_num() > a_ts,
        "a transaction begun after reopen must be ordered after every transaction \
         from the prior session, even one the persisted generator snapshot never \
         saw: got {} which must exceed {}",
        t2.id().id_num(),
        a_ts
    );
}

#[test]
fn test_audit_s8_find_returns_a_typed_error_for_a_tuple_missing_its_txn_id() {
    let (db, tid) = make_db_with_table();
    db.with(|d| d.engine.rows.put(tid, Tuple::new(1, b"corrupt")));

    let t = db.begin().unwrap();
    let result = db.find(tid, id(1), &t);
    assert!(
        matches!(result, Err(StoreError::Corruption(_))),
        "expected StoreError::Corruption, got {result:?}"
    );
}

#[test]
fn test_repeated_abort_failure_degrades_engine_instead_of_spinning() {
    let (db, tid) = make_db_with_table();
    let t = db.begin().unwrap();
    db.insert(tid, row(1, b"a"), &t).unwrap();
    db.commit(t).unwrap();

    let t = db.begin().unwrap();
    db.update(tid, row(1, b"dirty"), &t).unwrap();
    db.set_fail_reverts(true);
    assert!(
        db.rollback(t).is_err(),
        "the injected revert failure surfaces"
    );
    assert!(
        db.stats().degraded.is_none(),
        "one failure is not degradation"
    );
    assert_eq!(db.stats().aborting_transactions, 1);

    for attempt in 1..ABORT_RETRY_BUDGET {
        db.maintenance_pass().unwrap();
        assert!(
            db.stats().degraded.is_none(),
            "attempt {attempt} of {} must not degrade yet",
            ABORT_RETRY_BUDGET
        );
    }
    db.maintenance_pass().unwrap();
    let reason = db
        .stats()
        .degraded
        .expect("degraded after the retry budget");
    assert!(reason.contains("abort of"), "{reason}");
    assert!(reason.contains("revert failure injected"), "{reason}");

    let t = db.begin().unwrap();
    match db.insert(tid, row(2, b"b"), &t) {
        Err(StoreError::EngineDegraded(r)) => assert_eq!(r, reason),
        other => panic!("expected EngineDegraded, got {other:?}"),
    }
    assert_eq!(
        db.find(tid, id(1), &t).unwrap().unwrap().data.to_vec(),
        b"a"
    );
    assert!(matches!(db.commit(t), Err(StoreError::EngineDegraded(_))));
    db.set_fail_reverts(false);
    db.maintenance_pass().unwrap();
    assert_eq!(db.stats().aborting_transactions, 0);
    assert!(db.stats().degraded.is_some());
}

#[test]
fn test_retention_keeps_segments_for_an_aborting_transaction() {
    let (db, tid) = make_db_with_table();
    let t = db.begin().unwrap();
    db.insert(tid, row(1, b"a"), &t).unwrap();
    db.commit(t).unwrap();
    db.checkpoint().unwrap();
    assert_eq!(db.stats().wal_segments, 1);

    let t = db.begin().unwrap();
    db.update(tid, row(1, b"dirty"), &t).unwrap();
    db.set_fail_reverts(true);
    assert!(db.rollback(t).is_err());
    assert_eq!(db.stats().aborting_transactions, 1);
    db.checkpoint().unwrap();
    assert_eq!(
        db.stats().wal_segments,
        2,
        "an aborting transaction's records must outlive the checkpoint"
    );
    let (data, log) = db.synced_snapshot();
    let crashed = TestDB::open_using("txn_test.db", data, log).unwrap();
    let r = crashed.begin().unwrap();
    assert_eq!(
        crashed.find(tid, id(1), &r).unwrap().unwrap().data.to_vec(),
        b"a"
    );
    drop(r);
    drop(crashed);

    db.set_fail_reverts(false);
    db.maintenance_pass().unwrap();
    assert_eq!(db.stats().aborting_transactions, 0);
    db.checkpoint().unwrap();
    assert_eq!(
        db.stats().wal_segments,
        1,
        "finished: nothing pins the older segment"
    );
    let r = db.begin().unwrap();
    assert_eq!(
        db.find(tid, id(1), &r).unwrap().unwrap().data.to_vec(),
        b"a"
    );
}

#[test]
fn test_recovery_replays_every_retained_segment_in_order() {
    let (db, tid) = make_db_with_table();
    let pin = db.begin().unwrap();
    db.insert(tid, row(100, b"pinned-uncommitted"), &pin)
        .unwrap();
    for round in 0..3u64 {
        let t = db.begin().unwrap();
        db.insert(tid, row(round, format!("v{round}").as_bytes()), &t)
            .unwrap();
        if round == 0 {
            db.insert(tid, row(50, b"r0"), &t).unwrap();
        } else {
            db.update(tid, row(50, format!("r{round}").as_bytes()), &t)
                .unwrap();
        }
        db.commit(t).unwrap();
        db.checkpoint().unwrap();
        assert_eq!(
            db.stats().wal_segments,
            round as usize + 2,
            "the pinned transaction keeps every segment since it began"
        );
    }
    let (data, log) = db.synced_snapshot();
    assert_eq!(MemFile { at: 0, seek_pos: 0 }.list_siblings(&log, "txn_test.db.wal.").len(), 4);
    let crashed = TestDB::open_using("txn_test.db", data, log).unwrap();
    let r = crashed.begin().unwrap();
    for round in 0..3u64 {
        assert_eq!(
            crashed
                .find(tid, id(round), &r)
                .unwrap()
                .unwrap()
                .data
                .to_vec(),
            format!("v{round}").as_bytes(),
            "row from segment {}",
            round + 1
        );
    }
    assert_eq!(
        crashed
            .find(tid, id(50), &r)
            .unwrap()
            .unwrap()
            .data
            .to_vec(),
        b"r2",
        "last version wins"
    );
    assert!(
        crashed.find(tid, id(100), &r).unwrap().is_none(),
        "never committed"
    );
    drop(r);
    drop(crashed);

    db.rollback(pin).unwrap();
    db.checkpoint().unwrap();
    assert_eq!(db.stats().wal_segments, 1);
}

#[test]
fn test_async_commit_is_visible_at_once_and_durable_after_the_next_sync() {
    let (db, tid) = make_db_with_table();
    db.checkpoint().unwrap();
    let t = db.begin().unwrap();
    db.insert(tid, row(1, b"async"), &t).unwrap();
    db.commit_with(t, Durability::Async).unwrap();
    let r = db.begin().unwrap();
    assert_eq!(
        db.find(tid, id(1), &r).unwrap().unwrap().data.to_vec(),
        b"async"
    );
    db.rollback(r).unwrap();
    let t = db.begin().unwrap();
    db.insert(tid, row(2, b"sync"), &t).unwrap();
    db.commit(t).unwrap();
    let (data, log) = db.synced_snapshot();
    let crashed = TestDB::open_using("txn_test.db", data, log).unwrap();
    let r = crashed.begin().unwrap();
    assert_eq!(
        crashed.find(tid, id(1), &r).unwrap().unwrap().data.to_vec(),
        b"async"
    );
    assert_eq!(
        crashed.find(tid, id(2), &r).unwrap().unwrap().data.to_vec(),
        b"sync"
    );
}

#[test]
fn test_snapshot_too_old_on_retained_wal_bytes() {
    let (db, tid) = make_db_with_table();
    db.set_snapshot_limits(SnapshotLimits {
        max_retained_wal_bytes: u64::MAX,
        max_version_records: usize::MAX,
    });
    let pin = db.begin().unwrap();
    for i in 0..20u64 {
        let t = db.begin().unwrap();
        db.insert(tid, row(i, &[7u8; 200]), &t).unwrap();
        db.commit(t).unwrap();
        db.checkpoint().unwrap();
    }
    assert!(db.stats().wal_segments >= 2, "the pin retains segments");
    let retained = db.stats().wal_retained_bytes;
    assert!(retained > 1000);
    db.maintenance_pass().unwrap();
    assert_eq!(db.stats().snapshot_too_old_aborts, 0);
    assert!(
        db.find(tid, id(0), &pin).unwrap().is_none(),
        "pin still sees its snapshot"
    );

    db.set_snapshot_limits(SnapshotLimits {
        max_retained_wal_bytes: retained / 2,
        max_version_records: usize::MAX,
    });
    db.maintenance_pass().unwrap();
    assert_eq!(db.stats().snapshot_too_old_aborts, 1);
    match db.find(tid, id(0), &pin) {
        Err(StoreError::SnapshotTooOld(reason)) => {
            assert!(reason.contains("retained WAL"), "{reason}");
            assert!(reason.contains(&format!("{}", pin.id().id_num())), "{reason}");
        }
        other => panic!("expected SnapshotTooOld, got {other:?}"),
    }
    assert!(matches!(
        db.find(tid, id(0), &pin),
        Err(StoreError::TransactionAlreadyFinished)
    ));
    db.rollback(pin).unwrap();
    assert_eq!(
        db.stats().wal_segments,
        1,
        "the pinned segments went with it"
    );
    assert!(db.stats().wal_retained_bytes < retained);
    let r = db.begin().unwrap();
    assert_eq!(db.find(tid, id(19), &r).unwrap().unwrap().data.len(), 200);
}

#[test]
fn test_snapshot_too_old_on_version_records() {
    let (db, tid) = make_db_with_table();
    db.set_snapshot_limits(SnapshotLimits {
        max_retained_wal_bytes: u64::MAX,
        max_version_records: 10,
    });
    let pin = db.begin().unwrap();
    for i in 0..20u64 {
        let t = db.begin().unwrap();
        db.insert(tid, row(i, b"v"), &t).unwrap();
        db.commit(t).unwrap();
    }
    assert!(
        db.stats().version_records > 10,
        "the pin keeps versions alive"
    );
    db.maintenance_pass().unwrap();
    assert_eq!(db.stats().snapshot_too_old_aborts, 1);
    assert!(matches!(db.commit(pin), Err(StoreError::SnapshotTooOld(_))));
    db.maintenance_pass().unwrap();
    assert!(
        db.stats().version_records <= 10,
        "vacuum reclaimed once the pin was gone"
    );
}

#[test]
fn test_recovery_skips_records_below_the_persisted_floor() {
    let (db, tid) = make_db_with_table();
    let t = db.begin().unwrap();
    db.insert(tid, row(1, b"before-the-pin"), &t).unwrap();
    db.commit(t).unwrap();
    let pin = db.begin().unwrap();
    let t = db.begin().unwrap();
    db.insert(tid, row(2, b"after-the-pin"), &t).unwrap();
    db.commit(t).unwrap();
    db.checkpoint().unwrap();
    assert_eq!(
        db.stats().wal_segments,
        2,
        "row 2's records keep the segment, row 1's ride along"
    );
    let total: usize = wal_segments_of(&db)
        .iter()
        .map(|(_, b)| count_records_in_segment(b))
        .sum();
    assert!(
        total >= 4,
        "both transactions' records are on disk: {total}"
    );
    let floor = read_raw_header(&db).checkpoint_lsn;
    assert_eq!(floor, pin.id().id_num());

    let (data, log) = db.synced_snapshot();
    let crashed = TestDB::open_using("txn_test.db", data, log).unwrap();
    let replayed = crashed.stats().recovered_records;
    assert!(
        replayed < total,
        "records below the floor ({floor}) are not replayed: {replayed} of {total}"
    );
    assert!(replayed >= 2, "row 2's Add and Commit are above the floor");
    let r = crashed.begin().unwrap();
    assert_eq!(
        crashed.find(tid, id(1), &r).unwrap().unwrap().data.to_vec(),
        b"before-the-pin"
    );
    assert_eq!(
        crashed.find(tid, id(2), &r).unwrap().unwrap().data.to_vec(),
        b"after-the-pin"
    );
    drop(r);
    drop(crashed);
    db.rollback(pin).unwrap();
}

#[test]
fn test_reopen_starts_a_fresh_segment_and_a_torn_tail_never_hides_later_records() {
    let (db, tid) = make_db_with_table();
    let t = db.begin().unwrap();
    db.insert(tid, row(1, b"one"), &t).unwrap();
    db.commit(t).unwrap();
    wait_for_durable_logs(&db, 2);
    sync_header_without_truncating_logs(&db);
    let (main_file, _) = crash_clone(&db);
    let (segment_path, mut torn) = current_segment(&db);
    torn.truncate(torn.len() - 3);
    let disk = log_of(&segment_path, torn);

    let db2 = TestDB::open_using("txn_test.db", main_file, disk).unwrap();
    assert_eq!(
        db2.stats().wal_segments,
        2,
        "the recovered segment plus a fresh one"
    );
    let t = db2.begin().unwrap();
    assert!(
        db2.find(tid, id(1), &t).unwrap().is_none(),
        "torn commit: not committed"
    );
    db2.insert(tid, row(2, b"two"), &t).unwrap();
    db2.commit(t).unwrap();
    wait_for_durable_logs(&db2, 2 + 1);
    let (data, log) = db2.synced_snapshot();
    let db3 = TestDB::open_using("txn_test.db", data, log).unwrap();
    let r = db3.begin().unwrap();
    assert_eq!(
        db3.find(tid, id(2), &r).unwrap().unwrap().data.to_vec(),
        b"two"
    );
    assert!(db3.find(tid, id(1), &r).unwrap().is_none());
}

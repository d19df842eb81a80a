use store::catalog::write_system_tables;
use store::db::{Db, Durability, SnapshotLimits};
use store::error::{IoFault, StoreError};
use store::framing::{scan_log, LogHeader};
use store::header::Header;
use store::memfile::{MemFile, Namespace};
use store::operation::LogRecord;
use store::page::PageId;
use store::recovery::process_log;
use store::segment::list_segments;
use store::table::TableIdType;
use store::tuple::{DBIdType, Tuple};
use store::txn::Transaction;

fn key(n: u64) -> DBIdType {
    DBIdType::Int(n)
}

fn with_table(name: &str) -> (Db, TableIdType) {
    let mut db = Db::create(name, Namespace::new(), 1).unwrap();
    let tid = db.create_table("rows".to_string(), 2).unwrap();
    (db, tid)
}

fn put(db: &mut Db, tid: TableIdType, n: u64, data: &[u8]) {
    let t = db.begin().unwrap();
    match db.find(tid, key(n), &t).unwrap() {
        Some(_) => db.update(tid, Tuple::new(n, data), &t).unwrap(),
        None => db.insert(tid, Tuple::new(n, data), &t).unwrap(),
    }
    db.commit(t).unwrap();
}

fn read(db: &mut Db, tid: TableIdType, n: u64) -> Option<Vec<u8>> {
    let t = db.begin().unwrap();
    let found = db.find(tid, key(n), &t).unwrap().map(|x| x.data);
    db.rollback(t).unwrap();
    found
}

fn reopen(db: &Db, name: &str) -> Db {
    let (data, log) = db.synced_snapshot();
    Db::open_using(name, data, log).unwrap()
}

// The records that opening would replay, in the log's order.
fn durable_records(db: &Db) -> Vec<LogRecord> {
    let (data, mut log) = db.synced_snapshot();
    let floor = Header::decode(&data.header).unwrap().checkpoint_lsn;
    let handle = MemFile { at: 0, seek_pos: 0 };
    let mut out = Vec::new();
    for (_, path) in list_segments(&handle, &log, &db.name) {
        let bytes = handle.open_sibling(&mut log, &path).data(&log);
        let scanned = scan_log(&bytes[LogHeader::encoded_len()..]).unwrap();
        out.extend(scanned.records.into_iter().filter(|r| r.lsn.0 >= floor));
    }
    out
}

fn all_rows(db: &mut Db, tid: TableIdType) -> Vec<(DBIdType, Vec<u8>)> {
    db.table_scan(tid).unwrap().into_iter().map(|t| (t.id, t.data)).collect()
}

fn sequences(db: &Db) -> Vec<(String, u64)> {
    let mut out = db.generator.get_values();
    out.sort();
    out
}

#[test]
fn power_cuts_one_after_the_other_lose_nothing() {
    let (mut db, tid) = with_table("cuts");
    for round in 0..6u64 {
        put(&mut db, tid, round, format!("v{round}").as_bytes());
        put(&mut db, tid, 100, format!("r{round}").as_bytes());
        let pin = db.begin().unwrap();
        db.insert(tid, Tuple::new(200 + round, b"never"), &pin).unwrap();
        if round % 2 == 0 {
            db.checkpoint(10 + round as u128).unwrap();
        }
        db.sync_log();
        db = reopen(&db, "cuts");
        for n in 0..=round {
            assert_eq!(read(&mut db, tid, n), Some(format!("v{n}").into_bytes()));
        }
        assert_eq!(read(&mut db, tid, 100), Some(format!("r{round}").into_bytes()));
        assert_eq!(read(&mut db, tid, 200 + round), None);
    }
}

#[test]
fn a_commit_that_is_not_durable_is_lost_whole() {
    let (mut db, tid) = with_table("async");
    put(&mut db, tid, 1, b"kept");
    let t = db.begin().unwrap();
    db.update(tid, Tuple::new(1, b"lost"), &t).unwrap();
    db.insert(tid, Tuple::new(2, b"lost"), &t).unwrap();
    db.commit_with(t, Durability::Async).unwrap();
    assert_eq!(read(&mut db, tid, 1), Some(b"lost".to_vec()));
    let mut again = reopen(&db, "async");
    assert_eq!(read(&mut again, tid, 1), Some(b"kept".to_vec()));
    assert_eq!(read(&mut again, tid, 2), None);
    db.sync_log();
    let mut again = reopen(&db, "async");
    assert_eq!(read(&mut again, tid, 2), Some(b"lost".to_vec()));
}

#[test]
fn a_database_that_was_never_saved_does_not_open() {
    let db = Db::create("unsaved", Namespace::new(), 1).unwrap();
    let (data, log) = db.synced_snapshot();
    let header = Header::decode(&data.header).unwrap();
    assert_eq!(header, db.header);
    assert_eq!(header.page_count, 0);
    match Db::open_using("unsaved", data, log) {
        Err(StoreError::UnknownError(text)) => assert_eq!(text, "Unable to load system tables"),
        other => panic!("expected a refusal, got {:?}", other.err()),
    }
    let (mut data, log) = db.synced_snapshot();
    data.header.truncate(40);
    assert!(matches!(
        Db::open_using("unsaved", data, log),
        Err(StoreError::IoError(IoFault::UnexpectedEof))
    ));
}

#[test]
fn rows_and_tables_that_do_not_fit_are_refused() {
    let (mut db, tid) = with_table("misfit");
    put(&mut db, tid, 1, b"x");
    db.checkpoint(5).unwrap();
    let (mut data, log) = db.synced_snapshot();
    data.rows.put(TableIdType(77), Tuple::new(1, b"stray"));
    assert!(matches!(
        Db::open_using("misfit", data, log),
        Err(StoreError::Corruption(_))
    ));
}

#[test]
fn a_reader_sees_its_snapshot_through_everything() {
    let (mut db, tid) = with_table("snapshot");
    put(&mut db, tid, 1, b"old");
    let reader = db.begin().unwrap();
    for i in 0..5u64 {
        put(&mut db, tid, 1, format!("new{i}").as_bytes());
        put(&mut db, tid, 10 + i, b"more");
        db.maintenance_pass(20 + i as u128).unwrap();
        db.checkpoint(30 + i as u128).unwrap();
    }
    let t = db.begin().unwrap();
    db.remove(tid, key(1), &t).unwrap();
    db.commit(t).unwrap();
    db.maintenance_pass(40).unwrap();
    assert_eq!(db.find(tid, key(1), &reader).unwrap().unwrap().data, b"old");
    assert_eq!(db.table_scan_in_txn(tid, &reader).unwrap().len(), 1);
    db.commit(reader).unwrap();
    assert_eq!(read(&mut db, tid, 1), None);
    assert_eq!(db.table_scan(tid).unwrap().len(), 5);
}

#[test]
fn the_first_to_commit_wins() {
    let (mut db, tid) = with_table("first");
    put(&mut db, tid, 1, b"v0");
    let a = db.begin().unwrap();
    let b = db.begin().unwrap();
    db.update(tid, Tuple::new(1, b"a"), &a).unwrap();
    db.commit(a).unwrap();
    assert!(matches!(
        db.update(tid, Tuple::new(1, b"b"), &b),
        Err(StoreError::WriteConflict(DBIdType::Int(1)))
    ));
    assert!(matches!(
        db.remove(tid, key(1), &b),
        Err(StoreError::WriteConflict(DBIdType::Int(1)))
    ));
    db.rollback(b).unwrap();
    assert_eq!(read(&mut db, tid, 1), Some(b"a".to_vec()));
}

#[test]
fn sequences_go_on_above_what_was_handed_out() {
    let (mut db, _) = with_table("seq");
    db.create_generator("ids", Some(5)).unwrap();
    let mut top = 0;
    for _ in 0..40 {
        top = db.gen_key("ids").unwrap();
    }
    assert_eq!(top, 44);
    db.checkpoint(9).unwrap();
    // Values behind a checkpoint are covered by records of their own.
    for _ in 0..3 {
        top = db.gen_key("ids").unwrap();
    }
    db.sync_log();
    let mut again = reopen(&db, "seq");
    assert!(again.gen_key("ids").unwrap() > top);
    assert!(matches!(again.create_generator("ids", None), Err(StoreError::DuplicateName(_))));
    again.remove_generator("ids").unwrap();
    assert!(matches!(again.gen_key("ids"), Err(StoreError::MissingKey(_))));
}

#[test]
fn numbers_never_come_back() {
    let (mut db, tid) = with_table("numbers");
    let t = db.begin().unwrap();
    let used = t.id().id_num();
    db.insert(tid, Tuple::new(1, b"x"), &t).unwrap();
    db.commit(t).unwrap();
    let mut again = reopen(&db, "numbers");
    assert!(again.begin().unwrap().id().id_num() > used);
    let a = db.create_table("a".to_string(), 5).unwrap();
    db.drop_table("a", 6).unwrap();
    let mut again = reopen(&db, "numbers");
    assert!(again.create_table("b".to_string(), 7).unwrap().0 > a.0);
}

#[test]
fn names_of_tables_are_checked() {
    let (mut db, _) = with_table("names");
    assert!(matches!(
        db.create_table("x".repeat(256), 5),
        Err(StoreError::TableNameInvalid(255, 256))
    ));
    assert!(matches!(
        db.create_table("__system.x".to_string(), 5),
        Err(StoreError::ReservedTableName(_))
    ));
    assert!(matches!(
        db.create_table("rows".to_string(), 5),
        Err(StoreError::DuplicateName(_))
    ));
    assert!(db.create_table("x".repeat(255), 5).is_ok());
    assert!(matches!(db.drop_table("none", 6), Err(StoreError::TableNotFound(_))));
}

#[test]
fn a_finished_transaction_can_do_nothing_more() {
    let (mut db, tid) = with_table("finished");
    let t = db.begin().unwrap();
    let same = Transaction { id: t.id() };
    db.commit(t).unwrap();
    assert!(matches!(
        db.insert(tid, Tuple::new(1, b"x"), &same),
        Err(StoreError::TransactionAlreadyFinished)
    ));
    assert!(matches!(
        db.find(tid, key(1), &same),
        Err(StoreError::TransactionAlreadyFinished)
    ));
    let id = same.id();
    assert!(matches!(db.commit(same), Err(StoreError::TransactionAlreadyFinished)));
    assert!(db.abort(id).is_ok());
}

#[test]
fn a_lock_that_is_not_granted_takes_the_transaction_down() {
    let (mut db, tid) = with_table("lock");
    let t = db.begin().unwrap();
    db.insert(tid, Tuple::new(1, b"x"), &t).unwrap();
    let refused: Result<(), StoreError> = Err(StoreError::LockTimeout("page 3".to_string()));
    let id = t.id();
    assert!(matches!(db.write_with_policy(&id, refused), Err(StoreError::LockTimeout(_))));
    assert_eq!(db.stats().lock_timeouts, 1);
    assert!(db.commit(t).is_err());
    assert_eq!(read(&mut db, tid, 1), None);
}

#[test]
fn limits_and_names_are_told() {
    let (mut db, _) = with_table("told");
    assert_eq!(db.name(), "told");
    let limits = SnapshotLimits { max_retained_wal_bytes: 5, max_version_records: 6 };
    db.set_snapshot_limits(limits);
    assert_eq!(db.snapshot_limits(), limits);
    db.checkpoint(77).unwrap();
    assert_eq!(db.get_last_checkpoint(), 77);
    db.run_maintenance(78);
    assert_eq!(db.stats().maintenance_passes, 1);
    assert_eq!(db.retention_floor(), db.engine.clock.next_value());
}

#[test]
fn a_closed_database_opens_as_it_was() {
    let (mut db, tid) = with_table("closed");
    for n in 0..20u64 {
        put(&mut db, tid, n, &[n as u8; 40]);
    }
    let t = db.begin().unwrap();
    db.remove(tid, key(3), &t).unwrap();
    db.commit(t).unwrap();
    let (data, log, _) = db.close(9).unwrap();
    let mut again = Db::open_using("closed", data, log).unwrap();
    assert_eq!(again.stats().recovered_records, 0);
    assert_eq!(read(&mut again, tid, 3), None);
    assert_eq!(read(&mut again, tid, 4), Some(vec![4u8; 40]));
    assert_eq!(again.table_scan(tid).unwrap().len(), 19);
}

#[test]
fn test_a_refused_creation_leaves_no_trace_and_a_power_cut_is_survived() {
    let mut db = Db::create_with_page_size("full.db", Namespace::new(), 4096, 1).unwrap();
    let tid = db.create_table("rows".to_string(), 2).unwrap();
    let mut made = 1;
    let refused = loop {
        match db.create_table(format!("t{made}"), 3) {
            Ok(_) => made += 1,
            Err(e) => break e,
        }
    };
    assert!(matches!(refused, StoreError::PageCapacityError), "got {refused:?}");
    assert_eq!(db.get_tables().unwrap().len(), made);
    assert_eq!(db.table_id_by_name(&format!("t{made}")).unwrap(), None);
    assert!(!db.generator.has(&format!("t{made}")));

    let t = db.begin().unwrap();
    db.insert(tid, Tuple::new(1, b"kept"), &t).unwrap();
    db.commit(t).unwrap();

    let (data, log) = db.synced_snapshot();
    let mut again = Db::open_using("full.db", data, log).unwrap();
    assert_eq!(again.get_tables().unwrap().len(), made);
    let t = again.begin().unwrap();
    let found = again.find(tid, DBIdType::Int(1), &t).unwrap();
    assert_eq!(found.unwrap().data, b"kept".to_vec());
    again.rollback(t).unwrap();

    // What fits still fits without one of the tables.
    again.drop_table("t1", 4).unwrap();
    again.create_table("t0".to_string(), 5).unwrap();
    assert_eq!(again.get_tables().unwrap().len(), made);
}

#[test]
fn replaying_the_log_again_changes_no_read() {
    let (mut db, tid) = with_table("again");
    db.create_generator("ids", None).unwrap();
    db.create_generator("gone", None).unwrap();
    for n in 0..6u64 {
        put(&mut db, tid, n, b"first");
    }
    let t = db.begin().unwrap();
    db.insert(tid, Tuple::new(90, b"in flight"), &t).unwrap();
    db.update(tid, Tuple::new(5, b"in flight"), &t).unwrap();
    db.checkpoint(3).unwrap();
    put(&mut db, tid, 1, b"second");
    let r = db.begin().unwrap();
    db.remove(tid, key(2), &r).unwrap();
    db.commit(r).unwrap();
    db.gen_key("ids").unwrap();
    db.remove_generator("gone").unwrap();
    db.sync_log();

    let records = durable_records(&db);
    let mut once = reopen(&db, "again");
    assert_eq!(once.stats().recovered_records, records.len());
    let mut twice = reopen(&db, "again");
    let n = process_log(&mut twice.engine, &mut twice.generator, &records);
    assert_eq!(n, records.len());
    assert_eq!(sequences(&twice), sequences(&once));
    let rows = all_rows(&mut once, tid);
    assert_eq!(all_rows(&mut twice, tid), rows);
    assert_eq!(rows.len(), 5);
    assert_eq!(read(&mut twice, tid, 1), Some(b"second".to_vec()));
    assert_eq!(read(&mut twice, tid, 2), None);
    assert_eq!(read(&mut twice, tid, 5), Some(b"first".to_vec()));
    assert_eq!(read(&mut twice, tid, 90), None);
}

#[test]
fn a_deletion_mark_that_comes_back_stays_a_deletion() {
    let (mut db, tid) = with_table("mark");
    put(&mut db, tid, 1, b"old");
    let t = db.begin().unwrap();
    db.remove(tid, key(1), &t).unwrap();
    db.commit(t).unwrap();
    // The row is written over the mark, saved, and taken back; then the mark
    // is purged.
    let t = db.begin().unwrap();
    db.insert(tid, Tuple::new(1, b"never"), &t).unwrap();
    db.checkpoint(3).unwrap();
    db.rollback(t).unwrap();
    db.maintenance_pass(4).unwrap();
    db.sync_log();

    let records = durable_records(&db);
    let mut once = reopen(&db, "mark");
    assert_eq!(read(&mut once, tid, 1), None);
    let mut twice = reopen(&db, "mark");
    process_log(&mut twice.engine, &mut twice.generator, &records);
    assert_eq!(read(&mut twice, tid, 1), None);
    put(&mut once, tid, 1, b"new");
    put(&mut twice, tid, 1, b"new");
    assert_eq!(read(&mut once, tid, 1), Some(b"new".to_vec()));
    assert_eq!(read(&mut twice, tid, 1), Some(b"new".to_vec()));
}

#[test]
fn closing_keeps_pages_tables_and_sequences() {
    let (mut db, tid) = with_table("kept");
    db.create_table("other".to_string(), 3).unwrap();
    db.create_generator("ids", Some(7)).unwrap();
    db.gen_key("ids").unwrap();
    db.drop_table("other", 4).unwrap();
    put(&mut db, tid, 1, b"x");
    let page_count = db.page_count;
    let free = db.free_pages.clone();
    let links = db.links.clone();
    let values = sequences(&db);
    let counter = db.engine.clock.next_value();
    assert!(!free.is_empty());

    let (data, log, _) = db.close(9).unwrap();
    let mut again = Db::open_using("kept", data, log).unwrap();
    assert_eq!(again.page_count, page_count);
    assert_eq!(again.free_pages, free);
    assert_eq!(again.links, links);
    assert_eq!(sequences(&again), values);
    assert!(again.engine.clock.next_value() >= counter);
    assert_eq!(again.stats().recovered_records, 0);
    assert_eq!(again.last_checkpoint, 9);
    let tables = again.get_tables().unwrap();
    assert_eq!(tables.len(), 1);
    assert_eq!(tables[0].id, tid);
    assert_eq!(again.gen_key("ids").unwrap(), 8);
    assert_eq!(read(&mut again, tid, 1), Some(b"x".to_vec()));
}

#[test]
fn a_checkpoint_waits_for_nobody() {
    let (mut db, tid) = with_table("fuzzy");
    put(&mut db, tid, 1, b"v0");
    let pin = db.begin().unwrap();
    db.update(tid, Tuple::new(1, b"pinned"), &pin).unwrap();
    put(&mut db, tid, 2, b"done");
    db.checkpoint(6).unwrap();

    assert_eq!(db.retention_floor(), pin.id().id_num());
    let (data, _) = db.synced_snapshot();
    let header = Header::decode(&data.header).unwrap();
    assert_eq!(header.checkpoint_lsn, pin.id().id_num());
    assert_eq!(header.counter, db.engine.clock.next_value());
    assert_eq!(header.last_checkpoint, 6);

    let mut cut = reopen(&db, "fuzzy");
    assert_eq!(read(&mut cut, tid, 1), Some(b"v0".to_vec()));
    assert_eq!(read(&mut cut, tid, 2), Some(b"done".to_vec()));
    db.commit(pin).unwrap();
    let mut after = reopen(&db, "fuzzy");
    assert_eq!(read(&mut after, tid, 1), Some(b"pinned".to_vec()));
    assert_eq!(db.retention_floor(), db.engine.clock.next_value());
}

#[test]
fn writes_are_refused_from_the_third_failed_retry_on() {
    let (mut db, tid) = with_table("stuck");
    put(&mut db, tid, 1, b"a");
    let t = db.begin().unwrap();
    let stuck = t.id().id_num();
    db.update(tid, Tuple::new(1, b"dirty"), &t).unwrap();
    db.fail_reverts = true;
    assert!(db.rollback(t).is_err());
    for pass in 1..=2u128 {
        db.maintenance_pass(pass).unwrap();
        assert!(db.degraded.is_none());
    }
    db.maintenance_pass(3).unwrap();
    let why = db.degraded.clone().unwrap();
    assert!(why.starts_with(&format!("abort of {stuck} failed 3 times")), "{why}");
    db.fail_reverts = false;
    db.maintenance_pass(4).unwrap();
    assert_eq!(db.stats().aborting_transactions, 0);
    assert_eq!(db.degraded.as_ref(), Some(&why));

    let t = db.begin().unwrap();
    let refused = |r: Result<(), StoreError>| match r {
        Err(StoreError::EngineDegraded(text)) => assert_eq!(text, why),
        other => panic!("expected a refusal, got {other:?}"),
    };
    refused(db.insert(tid, Tuple::new(2, b"b"), &t));
    refused(db.update(tid, Tuple::new(1, b"b"), &t));
    refused(db.remove(tid, key(1), &t).map(|_| ()));
    assert_eq!(db.find(tid, key(1), &t).unwrap().unwrap().data, b"a");
    assert!(matches!(db.commit(t), Err(StoreError::EngineDegraded(_))));
}

#[test]
fn free_pages_that_the_file_does_not_have_are_forgotten() {
    let (mut db, tid) = with_table("outside");
    put(&mut db, tid, 1, b"x");
    db.checkpoint(5).unwrap();
    let (mut data, log) = db.synced_snapshot();
    let header = Header::decode(&data.header).unwrap();
    let outside = PageId(header.page_count + 5);
    let tables = db.get_tables().unwrap();
    let values = db.generator.get_values();
    data.system.free =
        write_system_tables(&tables, &values, &vec![outside], header.page_size).unwrap().free;
    let mut again = Db::open_using("outside", data, log).unwrap();
    assert!(again.free_pages.is_empty());
    assert_eq!(read(&mut again, tid, 1), Some(b"x".to_vec()));
}

// The pages of the rows go to the data file as they are, the header does not.
fn flush(db: &mut Db) {
    db.data.rows = db.engine.rows.copy();
}

#[test]
fn pages_may_be_newer_than_the_header() {
    let (mut db, tid) = with_table("pages");
    for n in 1..=3u64 {
        put(&mut db, tid, n, b"first");
    }
    db.checkpoint(3).unwrap();
    let old = Header::decode(&db.data.header).unwrap();
    put(&mut db, tid, 1, b"second");
    put(&mut db, tid, 4, b"new");
    let r = db.begin().unwrap();
    db.remove(tid, key(2), &r).unwrap();
    db.commit(r).unwrap();
    let t = db.begin().unwrap();
    db.update(tid, Tuple::new(1, b"in flight"), &t).unwrap();
    db.update(tid, Tuple::new(3, b"in flight"), &t).unwrap();
    db.update(tid, Tuple::new(3, b"in flight again"), &t).unwrap();
    db.insert(tid, Tuple::new(9, b"in flight"), &t).unwrap();
    db.sync_log();
    flush(&mut db);
    assert_eq!(Header::decode(&db.data.header).unwrap(), old);

    let mut again = reopen(&db, "pages");
    assert_eq!(read(&mut again, tid, 1), Some(b"second".to_vec()));
    assert_eq!(read(&mut again, tid, 2), None);
    assert_eq!(read(&mut again, tid, 3), Some(b"first".to_vec()));
    assert_eq!(read(&mut again, tid, 4), Some(b"new".to_vec()));
    assert_eq!(read(&mut again, tid, 9), None);

    // Some pages went to the file and some did not, and the power is cut again.
    put(&mut again, tid, 3, b"third");
    put(&mut again, tid, 5, b"late");
    again.sync_log();
    let rows = again.engine.rows.copy();
    for n in [1u64, 3] {
        let t = rows.get(tid, &key(n)).unwrap().clone();
        again.data.rows.put(tid, t);
    }
    let mut last = reopen(&again, "pages");
    assert_eq!(read(&mut last, tid, 1), Some(b"second".to_vec()));
    assert_eq!(read(&mut last, tid, 2), None);
    assert_eq!(read(&mut last, tid, 3), Some(b"third".to_vec()));
    assert_eq!(read(&mut last, tid, 4), Some(b"new".to_vec()));
    assert_eq!(read(&mut last, tid, 5), Some(b"late".to_vec()));
    assert_eq!(read(&mut last, tid, 9), None);
}

#[test]
fn a_row_without_its_record_is_refused() {
    let (mut db, tid) = with_table("ahead");
    put(&mut db, tid, 1, b"x");
    db.checkpoint(3).unwrap();
    let t = db.begin().unwrap();
    db.insert(tid, Tuple::new(2, b"not logged"), &t).unwrap();
    flush(&mut db);
    let (data, log) = db.synced_snapshot();
    assert!(matches!(
        Db::open_using("ahead", data, log),
        Err(StoreError::Corruption(_))
    ));
    db.sync_log();
    let mut again = reopen(&db, "ahead");
    assert_eq!(read(&mut again, tid, 1), Some(b"x".to_vec()));
    assert_eq!(read(&mut again, tid, 2), None);
}

#[test]
fn a_reader_that_writes_elsewhere_keeps_its_snapshot() {
    let (mut db, tid) = with_table("elsewhere");
    put(&mut db, tid, 1, b"old");
    let reader = db.begin().unwrap();
    assert_eq!(db.find(tid, key(1), &reader).unwrap().unwrap().data, b"old");
    db.insert(tid, Tuple::new(7, b"own"), &reader).unwrap();
    put(&mut db, tid, 1, b"new");
    put(&mut db, tid, 2, b"later");
    db.update(tid, Tuple::new(7, b"own again"), &reader).unwrap();
    db.maintenance_pass(5).unwrap();
    db.checkpoint(6).unwrap();
    assert_eq!(db.find(tid, key(1), &reader).unwrap().unwrap().data, b"old");
    assert!(db.find(tid, key(2), &reader).unwrap().is_none());
    assert_eq!(db.find(tid, key(7), &reader).unwrap().unwrap().data, b"own again");
    db.commit(reader).unwrap();
    assert_eq!(read(&mut db, tid, 1), Some(b"new".to_vec()));
}

#[test]
fn the_sequence_of_the_tables_cannot_be_removed() {
    let (mut db, _) = with_table("reserved");
    match db.remove_generator("__system.tables") {
        Err(StoreError::ReservedTableName(name)) => assert_eq!(name, "__system.tables"),
        other => panic!("expected a refusal, got {other:?}"),
    }
    assert!(db.generator.has("__system.tables"));
    db.create_table("still".to_string(), 3).unwrap();
}

#[test]
fn a_row_that_nobody_wrote_is_refused_unless_the_log_replaces_it() {
    let (mut db, tid) = with_table("nobody");
    put(&mut db, tid, 1, b"written");
    db.sync_log();
    let (mut data, log) = db.synced_snapshot();
    data.rows.put(tid, Tuple::new(1, b"nobody's"));
    let mut again = Db::open_using("nobody", data, log).unwrap();
    assert_eq!(read(&mut again, tid, 1), Some(b"written".to_vec()));

    let (mut data, log) = db.synced_snapshot();
    data.rows.put(tid, Tuple::new(2, b"nobody's"));
    assert!(matches!(
        Db::open_using("nobody", data, log),
        Err(StoreError::Corruption(_))
    ));
}

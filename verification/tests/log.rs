use store::clock::{LsnClock, LsnId};
use store::describe::describe_wal;
use store::error::StoreError;
use store::framing::{frame_is_complete_and_valid, frame_record, header_len, scan_log,
                     trailing_unscanned_bytes, validate_log_header, LogHeader,
                     CURRENT_LOG_VERSION, LOG_MAGIC};
use store::memfile::{MemFile, Namespace};
use store::operation::{LogRecord, Operation, Record};
use store::page::PageId;
use store::segment::{list_segments, segment_number, segment_path, segment_prefix};
use store::table::TableIdType;
use store::tuple::{DBIdType, Tuple};
use store::txn::TransactionId;
use store::wal::{log_runner, open_segments, read_and_validate_log_header, write_log_header,
                 LogMsg, WalState};

// A log with its clock and the messages that wait to be written.
struct Logger {
    clock: LsnClock,
    queue: Vec<LogMsg>,
    file: Option<(Namespace, WalState)>,
}

impl Logger {
    fn new() -> Logger {
        Logger { clock: LsnClock::default(), queue: Vec::new(), file: None }
    }

    fn set_db_for_test(&mut self) -> Result<(), StoreError> {
        let mut ns = Namespace::new();
        let handle = MemFile::new(&mut ns);
        let opened = open_segments("test", &handle, &mut ns, 4096)?;
        self.file = Some((ns, opened.wal));
        Ok(())
    }

    fn log_new(&mut self, operation: Operation) -> Result<LsnId, StoreError> {
        let lsn = self.clock.next_lsn();
        self.queue.push(LogMsg::Record(LogRecord { lsn, operation }));
        Ok(lsn)
    }

    fn run(&mut self) -> bool {
        let queue = std::mem::take(&mut self.queue);
        match &mut self.file {
            Some((ns, wal)) => log_runner(wal, ns, &mut self.clock, &queue),
            None => true,
        }
    }

    fn shutdown(&mut self) -> Result<(), StoreError> {
        self.queue.push(LogMsg::ShutDown);
        assert!(self.run());
        Ok(())
    }
}

fn sample_record() -> Record {
    Record::new(TableIdType::from(2), Tuple::new(5, b"hello"), Some(PageId::from(9)))
}

#[test]
fn test_operation_round_trip() {
    let txn = TransactionId::from(1);
    let record = sample_record();
    let ops = [
        Operation::Add { txn, post: record.clone() },
        Operation::Mod { txn, pre: record.clone(), post: record.clone() },
        Operation::Del { txn, pre: record.clone() },
        Operation::Commit(txn),
        Operation::Rollback(txn),
        Operation::Sequence { name: "s".to_string(), high_water: 7, dropped: false },
        Operation::Purge { txn, table_id: TableIdType::from(2), key: DBIdType::Int(5) },
    ];
    for op in ops {
        let bytes = op.to_bytes();
        let back = Operation::from_bytes(&bytes).unwrap();
        assert_eq!(format!("{op:?}"), format!("{back:?}"));
    }
}

#[test]
fn test_operation_unknown_tag_errors() {
    assert!(Operation::from_bytes(&[99, 1]).is_err());
}

fn assert_decodes(bytes: &[u8], expected: Operation) {
    assert_eq!(format!("{:?}", Operation::from_bytes(bytes).unwrap()), format!("{expected:?}"));
    assert_eq!(expected.to_bytes(), bytes);
}

#[test]
fn test_operation_decodes_pre_stage1_derived_fixtures() {
    const ADD_BYTES: &[u8] = &[0, 1, 2, 0, 5, 0, 0, 5, 104, 101, 108, 108, 111, 0, 1, 9];
    const MOD_BYTES: &[u8] = &[
        1, 1, 2, 0, 5, 0, 0, 5, 104, 101, 108, 108, 111, 0, 1, 9, 2, 0, 5, 0, 0, 5, 104, 101,
        108, 108, 111, 0, 1, 9,
    ];
    const DEL_BYTES: &[u8] = &[2, 1, 2, 0, 5, 0, 0, 5, 104, 101, 108, 108, 111, 0, 1, 9];
    const COMMIT_BYTES: &[u8] = &[3, 1];
    const ROLLBACK_BYTES: &[u8] = &[4, 1];
    const SEQ_BYTES: &[u8] = &[5, 1, 115, 7, 0];
    const PURGE_BYTES: &[u8] = &[6, 1, 2, 0, 5];

    let txn = TransactionId::from(1);
    let record = sample_record();
    assert_decodes(ADD_BYTES, Operation::Add { txn, post: record.clone() });
    assert_decodes(MOD_BYTES, Operation::Mod { txn, pre: record.clone(), post: record.clone() });
    assert_decodes(DEL_BYTES, Operation::Del { txn, pre: record.clone() });
    assert_decodes(COMMIT_BYTES, Operation::Commit(txn));
    assert_decodes(ROLLBACK_BYTES, Operation::Rollback(txn));
    assert_decodes(
        SEQ_BYTES,
        Operation::Sequence { name: "s".to_string(), high_water: 7, dropped: false },
    );
    assert_decodes(
        PURGE_BYTES,
        Operation::Purge { txn, table_id: TableIdType::from(2), key: DBIdType::Int(5) },
    );
}

#[test]
fn test_log_redo_returns_incrementing_lsn() {
    let mut logger = Logger::new();
    let op = Operation::new_commit(TransactionId::from(1));
    let lsn1 = logger.log_new(op.clone()).unwrap();
    let lsn2 = logger.log_new(op).unwrap();
    assert!(lsn2 > lsn1);
}

#[test]
fn test_log_redo_unique_lsns() {
    let mut logger = Logger::new();
    let mut lsns = Vec::new();
    for i in 0..5 {
        let op = Operation::new_commit(TransactionId::from(i));
        lsns.push(logger.log_new(op).unwrap());
    }
    let unique: std::collections::HashSet<_> = lsns.iter().cloned().collect();
    assert_eq!(unique.len(), 5);
}

#[test]
fn test_log_undo_commit_op_no_db() {
    let mut logger = Logger::new();
    let op = Operation::new_commit(TransactionId::from(1));
    assert!(logger.log_new(op).is_ok());
}

#[test]
fn test_log_undo_rollback_op_no_db() {
    let mut logger = Logger::new();
    let op = Operation::new_rollback(TransactionId::from(2));
    assert!(logger.log_new(op).is_ok());
}

#[test]
fn test_log_undo_add_op_with_txn_id() {
    let mut logger = Logger::new();
    let txn_id = TransactionId::from(10);
    let mut tuple = Tuple::new(1, b"hello");
    tuple.set_txn_id(txn_id);
    let record = Record::new(TableIdType::from(0), tuple, None);
    let op = Operation::new_add(txn_id, record);
    assert!(logger.log_new(op).is_ok());
}

#[test]
fn test_logger_with_memfile_shutdown() {
    let mut logger = Logger::new();
    logger.set_db_for_test().unwrap();
    let txn_id = TransactionId::from(99);
    let op = Operation::new_commit(txn_id);
    logger.log_new(op).unwrap();
    assert!(logger.shutdown().is_ok());
}

#[test]
fn test_logger_undo_add_with_db() {
    let mut logger = Logger::new();
    logger.set_db_for_test().unwrap();
    let txn_id = TransactionId::from(5);
    let mut tuple = Tuple::new(42, b"data");
    tuple.set_txn_id(txn_id);
    let record = Record::new(TableIdType::from(0), tuple, None);
    let op = Operation::new_add(txn_id, record);
    let lsn = logger.log_new(op).unwrap();
    assert!(logger.shutdown().is_ok());
    assert!(logger.clock.is_durable(lsn));
}

#[test]
fn an_isolated_write_leaves_no_reason_to_wait_for_company() {
    let mut logger = Logger::new();
    logger.set_db_for_test().unwrap();
    // At the start company is expected.
    assert!(logger.file.as_ref().unwrap().1.had_concurrency);
    let lsn = logger.log_new(Operation::new_commit(TransactionId::from(1))).unwrap();
    logger.run();
    assert!(logger.clock.is_durable(lsn));
    assert!(!logger.file.as_ref().unwrap().1.had_concurrency);
    logger.log_new(Operation::new_commit(TransactionId::from(2))).unwrap();
    logger.log_new(Operation::new_commit(TransactionId::from(3))).unwrap();
    logger.run();
    assert!(logger.file.as_ref().unwrap().1.had_concurrency);
}

#[test]
fn test_tuple_new_in_txn() {
    let txn = TransactionId::from(42);
    let pre_lsn = LsnId(7);
    let t = Tuple::new_with(
        DBIdType::Int(1),
        b"hello",
        Some(txn),
        Some(pre_lsn),
    );
    assert_eq!(t.txn_id, Some(txn));
    assert_eq!(t.pre_lsn, Some(pre_lsn));
    assert_eq!(t.data.to_vec(), b"hello");
    let b = t.to();
    let t2 = Tuple::from(&b).unwrap();
    assert_eq!(t2.txn_id, Some(txn));
    assert_eq!(t2.data.to_vec(), b"hello");
}

#[test]
fn test_log_header_round_trips_through_write_and_validate() {
    let mut ns = Namespace::new();
    let mut file = MemFile::new(&mut ns);
    let written = write_log_header(&mut file, &mut ns, 4096);
    let validated = read_and_validate_log_header(&mut file, &ns, 4096).unwrap();
    assert_eq!(written, validated);
}

#[test]
fn test_log_header_rejects_a_mismatched_page_size() {
    let mut ns = Namespace::new();
    let mut file = MemFile::new(&mut ns);
    write_log_header(&mut file, &mut ns, 4096);
    let err = read_and_validate_log_header(&mut file, &ns, 8192).unwrap_err();
    assert!(matches!(err, StoreError::LogHeaderMismatch(_)));
}

#[test]
fn test_log_header_rejects_a_wrong_magic() {
    let mut ns = Namespace::new();
    let mut file = MemFile::new(&mut ns);
    write_log_header(&mut file, &mut ns, 4096);
    let mut bytes = file.data(&ns);
    bytes[0] ^= 0xFF;
    let mut corrupted = MemFile::new(&mut ns);
    corrupted.write(&mut ns, &bytes);
    let err = read_and_validate_log_header(&mut corrupted, &ns, 4096).unwrap_err();
    assert!(matches!(err, StoreError::LogHeaderMismatch(_)));
}

const NO_LOG_VERSION: u16 = 0xFFFF;

#[test]
fn test_log_header_rejects_a_wrong_version() {
    let bad = LogHeader { magic: LOG_MAGIC, version: NO_LOG_VERSION, page_size: 4096 };
    let mut ns = Namespace::new();
    let mut file = MemFile::new(&mut ns);
    file.write(&mut ns, &bad.to_bytes());
    let err = read_and_validate_log_header(&mut file, &ns, 4096).unwrap_err();
    assert!(matches!(err, StoreError::LogHeaderMismatch(_)));
}

#[test]
fn test_log_header_names_every_mismatched_field_at_once() {
    let bad = LogHeader { magic: [0, 0, 0, 0], version: NO_LOG_VERSION, page_size: 1 };
    let mut ns = Namespace::new();
    let mut file = MemFile::new(&mut ns);
    file.write(&mut ns, &bad.to_bytes());
    let StoreError::LogHeaderMismatch(msg) =
        read_and_validate_log_header(&mut file, &ns, 4096).unwrap_err()
    else {
        panic!("expected LogHeaderMismatch");
    };
    assert!(msg.contains("magic"), "message was: {msg}");
    assert!(msg.contains("version"), "message was: {msg}");
    assert!(msg.contains("page_size"), "message was: {msg}");
}

fn sample_record_bytes(lsn: u64) -> Vec<u8> {
    let record = LogRecord {
        lsn: LsnId(lsn),
        operation: Operation::new_commit(TransactionId::from(lsn)),
    };
    record.to_bytes()
}

#[test]
fn test_scan_log_decodes_several_back_to_back_records() {
    let mut buf = Vec::new();
    buf.extend(frame_record(&sample_record_bytes(1)));
    buf.extend(frame_record(&sample_record_bytes(2)));
    buf.extend(frame_record(&sample_record_bytes(3)));
    let scanned = scan_log(&buf).unwrap();
    assert_eq!(scanned.records.len(), 3);
    assert_eq!(scanned.records[0].lsn, LsnId(1));
    assert_eq!(scanned.records[2].lsn, LsnId(3));
}

#[test]
fn test_scan_log_empty_buffer_is_not_an_error() {
    let scanned = scan_log(&[]).unwrap();
    assert!(scanned.records.is_empty());
}

#[test]
fn test_scan_log_torn_tail_at_frame_header_is_dropped_not_errored() {
    let mut buf = Vec::new();
    buf.extend(frame_record(&sample_record_bytes(1)));
    buf.extend_from_slice(&[1, 2, 3]);
    let scanned = scan_log(&buf).unwrap();
    assert_eq!(scanned.records.len(), 1, "the one complete record must still be recovered");
}

#[test]
fn test_scan_log_torn_tail_at_payload_is_dropped_not_errored() {
    let mut buf = Vec::new();
    buf.extend(frame_record(&sample_record_bytes(1)));
    let full_second = frame_record(&sample_record_bytes(2));
    buf.extend_from_slice(&full_second[..full_second.len() - 2]);
    let scanned = scan_log(&buf).unwrap();
    assert_eq!(scanned.records.len(), 1, "the torn second record must be dropped, not errored");
}

#[test]
fn test_scan_log_checksum_mismatch_with_nothing_valid_after_is_a_torn_tail() {
    let mut buf = frame_record(&sample_record_bytes(1));
    let last = buf.len() - 1;
    buf[last] ^= 0xFF;
    let scanned = scan_log(&buf).unwrap();
    assert!(scanned.records.is_empty(), "must be treated as a torn tail, not an error");
}

#[test]
fn test_scan_log_checksum_mismatch_with_a_valid_record_after_is_real_corruption() {
    let mut buf = frame_record(&sample_record_bytes(1));
    let last = buf.len() - 1;
    buf[last] ^= 0xFF;
    buf.extend(frame_record(&sample_record_bytes(2)));
    let err = scan_log(&buf).unwrap_err();
    assert!(
        matches!(err, StoreError::LogCorruption(_)),
        "a corrupted record with more valid data after it must be a hard error, not a \
         silently-dropped torn tail"
    );
}

#[test]
fn the_log_header_has_fixed_bytes() {
    let h = LogHeader { magic: LOG_MAGIC, version: CURRENT_LOG_VERSION, page_size: 4096 };
    let bytes = h.to_bytes();
    assert_eq!(bytes.len(), LogHeader::encoded_len());
    assert_eq!(bytes.len(), header_len());
    assert_eq!(&bytes[0..4], &LOG_MAGIC);
    assert!(validate_log_header(&bytes, 4096).is_ok());
    assert!(validate_log_header(&bytes, 4097).is_err());
}

#[test]
fn a_frame_holds_length_checksum_and_payload() {
    let framed = frame_record(b"a");
    // FNV-1a of "a".
    assert_eq!(framed, vec![1, 0, 0, 0, 0x2C, 0x29, 0x0C, 0xE4, b'a']);
    assert_eq!(trailing_unscanned_bytes(&framed[..5]), 5);
    let mut body = frame_record(&sample_record_bytes(1));
    let whole = body.len();
    body.extend_from_slice(&[9, 9]);
    assert_eq!(trailing_unscanned_bytes(&body), 2);
    assert_eq!(trailing_unscanned_bytes(&body[..whole]), 0);
}

#[test]
fn segment_names_carry_their_number() {
    assert_eq!(segment_prefix("db"), "db.wal.");
    assert_eq!(segment_path("db", 7), "db.wal.7");
    assert_eq!(segment_number("db.wal.", &segment_path("db", 7)), Some(7));
    assert_eq!(segment_number("db.wal.", "db.wal.x"), None);
    assert_eq!(segment_number("db.wal.", "other"), None);
    let mut ns = Namespace::new();
    let handle = MemFile::new(&mut ns);
    handle.open_sibling(&mut ns, "db.wal.10");
    handle.open_sibling(&mut ns, "db.wal.2");
    handle.open_sibling(&mut ns, "db.wal.lock");
    let found: Vec<u64> = list_segments(&handle, &ns, "db").iter().map(|s| s.0).collect();
    assert_eq!(found, vec![2, 10]);
}

#[test]
fn a_rolled_log_keeps_what_the_floor_needs() {
    let mut logger = Logger::new();
    logger.set_db_for_test().unwrap();
    let a = logger.log_new(Operation::new_commit(TransactionId::from(1))).unwrap();
    logger.queue.push(LogMsg::Roll(0));
    let b = logger.log_new(Operation::new_commit(TransactionId::from(2))).unwrap();
    assert!(!logger.run());
    let (ns, wal) = logger.file.as_ref().unwrap();
    assert_eq!(wal.segments(), 2);
    let number = wal.current_segment();
    let listed = list_segments(&wal.file, ns, "test");
    assert_eq!(listed.len(), 2);
    assert_eq!(listed[1].0, number);
    // Nothing above the first record is in the first segment.
    logger.queue.push(LogMsg::Roll(b.0));
    logger.run();
    let (ns, wal) = logger.file.as_mut().unwrap();
    assert_eq!(wal.segments(), 2);
    let handle = wal.file;
    let reopened = open_segments("test", &handle, ns, 4096).unwrap();
    let lsns: Vec<u64> = reopened.records.iter().map(|r| r.lsn.0).collect();
    assert_eq!(lsns, vec![b.0]);
    assert!(a < b);
    assert!(matches!(
        open_segments("test", &handle, ns, 8192),
        Err(StoreError::LogHeaderMismatch(_))
    ));
}

#[test]
fn sync_and_shutdown_end_a_batch() {
    let mut logger = Logger::new();
    logger.set_db_for_test().unwrap();
    let a = logger.log_new(Operation::new_commit(TransactionId::from(1))).unwrap();
    logger.queue.push(LogMsg::Sync);
    logger.queue.push(LogMsg::ShutDown);
    let b = logger.log_new(Operation::new_commit(TransactionId::from(2))).unwrap();
    assert!(logger.run());
    assert!(logger.clock.is_durable(a));
    // What comes behind the shutdown is never written.
    assert!(!logger.clock.is_durable(b));
}

#[test]
fn a_log_is_described_line_by_line() {
    let h = LogHeader { magic: LOG_MAGIC, version: CURRENT_LOG_VERSION, page_size: 4096 };
    let mut bytes = h.to_bytes();
    bytes.extend(frame_record(&sample_record_bytes(3)));
    bytes.extend_from_slice(&[1, 2]);
    let lines = describe_wal(&bytes);
    assert!(lines.iter().any(|l| l.contains("COMMIT") && l.contains("txn=3")), "{lines:?}");
    assert!(lines.len() >= 2);
}

#[test]
fn the_clock_counts_on() {
    let mut c = LsnClock::default();
    let a = c.next_lsn();
    let b = c.next_lsn();
    assert_eq!(b.0, a.0 + 1);
    assert!(!c.is_durable(b));
    c.mark_written(b);
    assert!(c.is_durable(a));
    assert_eq!(c.last_written(), b);
    c.mark_written(a);
    assert_eq!(c.last_written(), b);
    c.advance_counter_past(LsnId(100));
    assert_eq!(c.next_lsn(), LsnId(101));
    c.advance_counter_past(LsnId(5));
    assert_eq!(c.next_lsn(), LsnId(102));
}

#[test]
fn only_a_whole_frame_counts() {
    let frame = frame_record(b"payload");
    let mut longer = frame.clone();
    longer.extend_from_slice(b"more");
    assert!(frame_is_complete_and_valid(&frame, 0));
    assert!(frame_is_complete_and_valid(&longer, 0));
    for n in 0..frame.len() {
        assert!(!frame_is_complete_and_valid(&frame[..n], 0), "cut at {n}");
    }
    let mut spoilt = frame.clone();
    *spoilt.last_mut().unwrap() ^= 1;
    assert!(!frame_is_complete_and_valid(&spoilt, 0));
    assert!(!frame_is_complete_and_valid(&frame, frame.len()));
}

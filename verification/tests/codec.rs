use store::codec::{get_le, put_bool, put_bytes, put_le, put_opt, put_text, put_u128, put_u64,
                   take_bool, take_bytes, take_n, take_opt, take_text, CodecError};
use store::error::{IoFault, StoreError};
use store::freelist::{page_chain, reachable_pages, reconcile_free_list};
use store::hash::{db_hash, fnv1a_32};
use store::header::{Header, DEFAULT_MAX_INDEX_KEY_SIZE, DEFAULT_PAGE_SIZE,
                    HEADER_FORMAT_VERSION, HEADER_SIZE, MAGIC, ZERO_PAGE_SIZE};
use store::memfile::names_with_prefix;
use store::page::{Page, PageHeader, PageId, INDEX_PAGE, PINNED};
use store::table::{Table, TableIdType};
use store::text::{chars_of, comes_before, parse_u64, push_decimal, push_hex, same_text};
use store::tuple::{DBIdType, Tuple};

fn header() -> Header {
    let mut h = Header {
        magic: MAGIC,
        format_version: HEADER_FORMAT_VERSION,
        first_page_offset: ZERO_PAGE_SIZE,
        page_count: 3,
        page_size: DEFAULT_PAGE_SIZE,
        last_checkpoint: u128::MAX,
        counter: 17,
        checkpoint_lsn: 9,
        max_index_key_size: DEFAULT_MAX_INDEX_KEY_SIZE,
        header_checksum: 0,
    };
    h.seal();
    h
}

#[test]
fn small_integers_take_one_byte_and_large_ones_ten() {
    let mut out = Vec::new();
    put_u64(&mut out, 127);
    put_u64(&mut out, 128);
    assert_eq!(out, vec![127, 128, 1]);
    let mut out = Vec::new();
    put_u64(&mut out, u64::MAX);
    assert_eq!(out, vec![255, 255, 255, 255, 255, 255, 255, 255, 255, 1]);
    let mut out = Vec::new();
    put_u128(&mut out, u128::MAX);
    assert_eq!(out.len(), 19);
    assert_eq!(out[18], 3);
}

#[test]
fn fixed_width_integers_begin_with_the_low_byte() {
    let mut out = Vec::new();
    put_le(&mut out, 0x0102_0304, 4);
    assert_eq!(out, vec![4, 3, 2, 1]);
    assert_eq!(get_le(&out), 0x0102_0304);
}

#[test]
fn texts_and_options_read_back() {
    let mut out = Vec::new();
    put_text(&mut out, "h\u{e9}");
    put_opt(&mut out, None);
    put_opt(&mut out, Some(300));
    put_bool(&mut out, true);
    put_bytes(&mut out, b"xyz");
    assert_eq!(&out[..4], &[3, b'h', 0xC3, 0xA9]);
    let (t, rest) = take_text(&out).unwrap();
    assert_eq!(t, "h\u{e9}");
    let (a, rest) = take_opt(rest).unwrap();
    assert_eq!(a, None);
    let (b, rest) = take_opt(rest).unwrap();
    assert_eq!(b, Some(300));
    let (c, rest) = take_bool(rest).unwrap();
    assert!(c);
    let (d, rest) = take_bytes(rest).unwrap();
    assert_eq!(d, b"xyz");
    assert!(rest.is_empty());
}

#[test]
fn every_flaw_of_an_encoding_is_named() {
    assert_eq!(take_bool(&[]).unwrap_err(), CodecError::UnexpectedEnd);
    assert_eq!(take_bool(&[2]).unwrap_err(), CodecError::BadBool);
    assert_eq!(take_opt(&[2]).unwrap_err(), CodecError::BadOption);
    assert_eq!(take_opt(&[1, 0x80]).unwrap_err(), CodecError::UnexpectedEnd);
    assert_eq!(take_opt(&[1, 255, 255, 255, 255, 255, 255, 255, 255, 255, 2]).unwrap_err(),
               CodecError::BadVarint);
    assert_eq!(take_text(&[1, 0xFF]).unwrap_err(), CodecError::BadUtf8);
    assert_eq!(take_bytes(&[5, 1]).unwrap_err(), CodecError::UnexpectedEnd);
    assert_eq!(take_n(&[1, 2], 3).unwrap_err(), CodecError::UnexpectedEnd);
    assert!(matches!(
        Tuple::from(&[9, 1]),
        Err(StoreError::SerializationError(CodecError::UnknownTag))
    ));
    assert!(matches!(
        Tuple::from(&[255, 255, 255, 255, 31]),
        Err(StoreError::SerializationError(CodecError::BadVarint))
    ));
}

#[test]
fn a_header_reads_back_and_carries_its_checksum() {
    let h = header();
    let block = h.to_block();
    assert_eq!(block.len(), HEADER_SIZE as usize);
    let back = Header::decode(&block).unwrap();
    assert_eq!(back, h);
    assert_eq!(back.last_checkpoint, u128::MAX);
    assert_eq!(h.header_checksum, fnv1a_32(&h.checksum_input()));
    assert!(h.validate().is_ok());
    let mut bad = block.clone();
    bad[0] ^= 1;
    assert!(Header::decode(&bad).is_err());
    let mut odd = h;
    odd.max_index_key_size = 1;
    odd.seal();
    assert!(matches!(odd.validate(), Err(StoreError::HeaderCorruption(_))));
}

#[test]
fn page_flags_read_back() {
    let p = Page::new_pinned(1024);
    let h = PageHeader::from_bytes(&p.header().to_bytes()).unwrap();
    assert_eq!(h.flags, PINNED);
    let p = Page::new_indexed(1024, 50);
    let h = PageHeader::from_bytes(&p.header().to_bytes()).unwrap();
    assert_eq!(h.flags, INDEX_PAGE);
}

#[test]
fn hashes_have_known_values() {
    assert_eq!(fnv1a_32(b""), 0x811C_9DC5);
    assert_eq!(fnv1a_32(b"a"), 0xE40C_292C);
    assert_eq!(fnv1a_32(b"foobar"), 0xBF9C_F968);
    assert_eq!(db_hash(b"foobar"), 0xBF9C_F968);
}

#[test]
fn numbers_are_written_and_read() {
    let mut t = String::new();
    push_decimal(&mut t, 0);
    push_decimal(&mut t, 1250);
    push_hex(&mut t, 255);
    assert_eq!(t, "012500xff");
    assert_eq!(parse_u64(&chars_of("x18446744073709551615"), 1), Some(u64::MAX));
    assert_eq!(parse_u64(&chars_of("18446744073709551616"), 0), None);
    assert_eq!(parse_u64(&chars_of("+7"), 0), Some(7));
    assert_eq!(parse_u64(&chars_of("+"), 0), None);
    assert_eq!(parse_u64(&chars_of(""), 0), None);
    assert!(comes_before("ab", "abc"));
    assert!(comes_before("abc", "b"));
    assert!(!comes_before("b", "b"));
    assert!(same_text("b", "b"));
}

#[test]
fn errors_say_what_is_wrong() {
    assert_eq!(StoreError::PageCapacityError.message(), "No space in page");
    assert_eq!(StoreError::BadRowNumber(5).message(), "Invalid row number 5");
    assert_eq!(
        StoreError::TableNameInvalid(255, 300).message(),
        "Table name max length is 255, got 300"
    );
    assert_eq!(
        StoreError::TupleTooLarge(70, 64).message(),
        "value too large: 70 byte(s), maximum allowed is 64 byte(s)"
    );
    assert_eq!(StoreError::IoError(IoFault::NotFound).message(), "IO Error");
    assert_eq!(
        StoreError::EngineDegraded("why".to_string()).message(),
        "engine is degraded: why"
    );
    assert!(StoreError::KeyNotFound(DBIdType::Int(4)).message().contains('4'));
}

#[test]
fn chains_of_pages_are_followed() {
    let links = vec![0u64, 3, 0, 4, 0, 5];
    let found = reachable_pages(&vec![PageId(1)], &links).unwrap();
    let mut ids: Vec<u64> = found.into_iter().collect();
    ids.sort();
    assert_eq!(ids, vec![1, 3, 4]);
    assert_eq!(page_chain(PageId(1), &links), vec![PageId(1), PageId(3), PageId(4)]);
    let free = vec![PageId(2), PageId(4)];
    assert_eq!(reconcile_free_list(&free, &vec![PageId(1)], &links).unwrap(), vec![PageId(2)]);
    assert!(matches!(
        reachable_pages(&vec![PageId(9)], &links),
        Err(StoreError::IoError(IoFault::UnexpectedEof))
    ));
}

#[test]
fn a_table_reads_back() {
    let t = Table {
        id: TableIdType(3),
        name: "rows".to_string(),
        first_index_page: PageId(5),
        first_data_page: PageId(6),
        index_entry_size: 64,
    };
    let back = Table::from_bytes(&t.to_bytes()).unwrap();
    assert_eq!(back.name, "rows");
    assert_eq!(back.first_data_page, PageId(6));
    assert!(Table::from_bytes(&[3]).is_err());
}

#[test]
fn a_directory_is_searched_by_prefix() {
    let names = vec!["db".to_string(), "db.wal.2".to_string(), "x".to_string(),
                     "db.wal.1".to_string()];
    assert_eq!(names_with_prefix(&names, "db.wal."), vec!["db.wal.2", "db.wal.1"]);
    assert!(names_with_prefix(&names, "y").is_empty());
}

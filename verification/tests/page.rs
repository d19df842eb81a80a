use store::error::StoreError;
use store::page::{Page, PageHeader, PageId, PAGE_OVERHEAD, USABLE_DATA_MARGIN};
use store::tuple::{DBIdType, Tuple};

#[test]
fn page_test_unique_id() {
    let mut p = Page::new_data(2000);
    assert!(p.add_tuple(Tuple::new(1, b"abcdefabcd")).is_ok());
    assert!(p.add_tuple(Tuple::new(2, b"abcdefabcd")).is_ok());
    assert!(matches!(
        p.add_tuple(Tuple::new(2, b"aa")),
        Err(StoreError::DuplicateKey(_))
    ));
    assert!(p.is_dirty());
    assert!(p.can_store(&Tuple::new(3, b"abcd")));
}

#[test]
fn page_test_accurate_page_bytes() {
    let tuple_sz = Tuple::new(0, b"abcdef").size() as u64;
    let page_size = tuple_sz * 10 + USABLE_DATA_MARGIN + PAGE_OVERHEAD as u64 + 1;
    let mut p = Page::new_data(page_size);
    for i in 0..10 {
        assert!(
            p.add_tuple(Tuple::new(i, b"abcdef")).is_ok(),
            "Failed at i={i}"
        );
    }
    let b = p.to_bytes();
    assert_eq!(b.len(), page_size as usize);
    let p1 = Page::from_bytes(&b);
    assert!(p1.is_ok());
    let p1 = p1.unwrap();
    assert!(p1.same_shape(&p));
}

#[test]
fn page_test_4() {
    let p = Page::new_data(1024);
    let b = p.to_bytes();
    assert_eq!(b.len(), 1024);
    let p1 = Page::from_bytes(&b).unwrap();
    assert!(p.same_shape(&p1));
}

#[test]
fn page_test_get_existing_and_missing() {
    let mut p = Page::new_data(2000);
    p.add_tuple(Tuple::new(7, b"payload")).unwrap();
    let found = p.get(DBIdType::Int(7));
    assert!(found.is_some());
    assert_eq!(found.unwrap().data.to_vec(), b"payload");
    let missing = p.get(DBIdType::Int(99));
    assert!(missing.is_none());
}

#[test]
fn page_test_contains() {
    let mut p = Page::new_data(2000);
    p.add_tuple(Tuple::new(3, b"x")).unwrap();
    assert!(p.contains(DBIdType::Int(3)));
    assert!(!p.contains(DBIdType::Int(4)));
}

#[test]
fn page_test_iter_yields_all_tuples() {
    let mut p = Page::new_data(4000);
    for i in 0..5u64 {
        p.add_tuple(Tuple::new(i, b"data")).unwrap();
    }
    let count = p.iter().len();
    assert_eq!(count, 5);
}

#[test]
fn page_test_next_page() {
    let mut p = Page::new_data(1024);
    assert_eq!(p.get_next_page(), PageId::from(0));
    p.set_next_page(PageId::from(42));
    assert_eq!(p.get_next_page(), PageId::from(42));
}

#[test]
fn page_test_pinned_flag() {
    let p = Page::new_data(1024);
    assert!(!p.is_pinned());
    let p_pinned = Page::new_pinned(1024);
    assert!(p_pinned.is_pinned());
}

#[test]
fn page_test_dirty_state() {
    let mut p = Page::new_data(1024);
    assert!(p.is_dirty());
    p.set_dirty(false);
    assert!(!p.is_dirty());
    p.set_dirty(true);
    assert!(p.is_dirty());
}

#[test]
fn page_test_roundtrip_preserves_tuples() {
    let mut p = Page::new_data(2000);
    p.add_tuple(Tuple::new(1, b"first")).unwrap();
    p.add_tuple(Tuple::new(2, b"second")).unwrap();
    let bytes = p.to_bytes();
    let p2 = Page::from_bytes(&bytes).unwrap();
    assert!(p2.contains(DBIdType::Int(1)));
    assert!(p2.contains(DBIdType::Int(2)));
    assert_eq!(p2.get(DBIdType::Int(1)).unwrap().data.to_vec(), b"first");
    assert_eq!(p2.get(DBIdType::Int(2)).unwrap().data.to_vec(), b"second");
}

#[test]
fn page_iter_any_empty() {
    let p = Page::new_data(1024);
    assert_eq!(p.iter().len(), 0);
}

#[test]
fn page_iter_any_correct_data() {
    let mut p = Page::new_data(4000);
    p.add_tuple(Tuple::new(1, b"alpha")).unwrap();
    p.add_tuple(Tuple::new(2, b"beta")).unwrap();
    p.add_tuple(Tuple::new(3, b"gamma")).unwrap();
    assert_eq!(p.iter().len(), 3);
    assert!(p.iter().iter().any(|t| t.data.to_vec() == b"alpha"));
    assert!(p.iter().iter().any(|t| t.data.to_vec() == b"beta"));
    assert!(p.iter().iter().any(|t| t.data.to_vec() == b"gamma"));
}

#[test]
fn page_iter_any_after_roundtrip() {
    let mut p = Page::new_data(2000);
    p.add_tuple(Tuple::new(10, b"x")).unwrap();
    p.add_tuple(Tuple::new(20, b"y")).unwrap();
    let p2 = Page::from_bytes(&p.to_bytes()).unwrap();
    assert_eq!(p2.iter().len(), 2);
}

#[test]
fn page_iter_fixed_empty() {
    let record_size = Tuple::new(0, b"xxxx").size();
    let p = Page::new_indexed(1024, record_size);
    assert_eq!(p.iter().len(), 0);
}

#[test]
fn page_iter_fixed_correct_count() {
    let record_size = Tuple::new(0, b"data").size();
    let mut p = Page::new_indexed(4000, record_size);
    for i in 0..4u64 {
        p.add_tuple(Tuple::new(i, b"data")).unwrap();
    }
    assert_eq!(p.iter().len(), 4);
}

#[test]
fn page_iter_fixed_correct_data() {
    let record_size = Tuple::new(0, b"hello").size();
    let mut p = Page::new_indexed(4000, record_size);
    p.add_tuple(Tuple::new(10, b"hello")).unwrap();
    p.add_tuple(Tuple::new(20, b"hello")).unwrap();
    assert!(p.iter().iter().all(|t| t.data.to_vec() == b"hello"));
    let mut ids: Vec<u64> = p
        .iter()
        .iter()
        .map(|t| match t.id {
            DBIdType::Int(n) => n,
            _ => panic!("unexpected id type"),
        })
        .collect();
    ids.sort();
    assert_eq!(ids, vec![10, 20]);
}

#[test]
fn page_iter_fixed_oversized_rejected_iter_stays_empty() {
    let record_size = Tuple::new(0, b"hi").size();
    let mut p = Page::new_indexed(4000, record_size);
    assert!(p.add_tuple(Tuple::new(1, b"way_too_long_payload")).is_err());
    assert_eq!(p.iter().len(), 0);
}

#[test]
fn page_iter_fixed_after_roundtrip() {
    let record_size = Tuple::new(0, b"abc").size();
    let mut p = Page::new_indexed(2000, record_size);
    p.add_tuple(Tuple::new(1, b"abc")).unwrap();
    p.add_tuple(Tuple::new(2, b"abc")).unwrap();
    let p2 = Page::from_bytes(&p.to_bytes()).unwrap();
    assert_eq!(p2.iter().len(), 2);
    assert!(p2.iter().iter().all(|t| t.data.to_vec() == b"abc"));
}

#[test]
fn test_can_store_true_for_fresh_page() {
    let p = Page::new_data(1000);
    assert!(p.can_store(&Tuple::new(1, b"anything")));
}

#[test]
fn test_any_size_tuple_accepted_while_page_has_capacity() {
    let mut p = Page::new_data(1000);
    let big_data = vec![0u8; 2000];
    assert!(p.can_store(&Tuple::new(1, &big_data)));
    assert!(p.add_tuple(Tuple::new(1, &big_data)).is_ok());
}

#[test]
fn test_used_size_tracks_tuple_size() {
    let mut p = Page::new_data(1000);
    let t = Tuple::new(1, b"hello");
    let expected = t.size() as u64;
    p.add_tuple(t).unwrap();
    assert_eq!(p.header().page_used_size, expected);
}

#[test]
fn test_can_store_false_after_oversized_tuple() {
    let mut p = Page::new_data(1000);
    let big_data = vec![0u8; 2000];
    p.add_tuple(Tuple::new(1, &big_data)).unwrap();
    assert!(!p.can_store(&Tuple::new(2, b"x")));
}

#[test]
fn test_second_tuple_rejected_when_page_full() {
    let mut p = Page::new_data(1000);
    let big_data = vec![0u8; 2000];
    p.add_tuple(Tuple::new(1, &big_data)).unwrap();
    assert!(matches!(
        p.add_tuple(Tuple::new(2, b"tiny")),
        Err(StoreError::PageCapacityError)
    ));
}

#[test]
fn test_add_tuple_prefers_tuple_too_large_over_capacity_error_on_fixed_page() {
    let record_size = Tuple::new(0, b"small").size();
    let mut p = Page::new_indexed(300, record_size);
    let mut i = 0u64;
    while p.can_store(&Tuple::new(i, b"small")) {
        p.add_tuple(Tuple::new(i, b"small")).unwrap();
        i += 1;
    }
    assert!(!p.can_store(&Tuple::new(i, b"small")));
    let oversized = Tuple::new(i, b"this payload is far larger than record_size");
    match p.add_tuple(oversized.clone()) {
        Err(StoreError::TupleTooLarge(actual, budget)) => {
            assert_eq!(budget, record_size);
            assert_eq!(actual, oversized.size() as u64);
        }
        other => panic!("expected TupleTooLarge, got {other:?}"),
    }
}

#[test]
fn test_add_tuple_still_returns_capacity_error_for_within_budget_tuple_on_full_page() {
    let record_size = Tuple::new(0, b"small").size();
    let mut p = Page::new_indexed(300, record_size);
    let mut i = 0u64;
    while p.can_store(&Tuple::new(i, b"small")) {
        p.add_tuple(Tuple::new(i, b"small")).unwrap();
        i += 1;
    }
    assert!(matches!(
        p.add_tuple(Tuple::new(i, b"small")),
        Err(StoreError::PageCapacityError)
    ));
}

#[test]
fn a_snapshot_pairs_the_used_size_with_the_bytes() {
    let mut p = Page::new_data(1000);
    for i in 0..20u64 {
        p.add_tuple(Tuple::new(i, &vec![0u8; 2000])).unwrap();
        p.set_overflow(true);
        let (header, data) = p.to_bytes_snapshot();
        assert!(header.has_overflow());
        assert_eq!(header.page_used_size > 0, data.len() > header.page_data_size as usize);
        p.clear();
        p.set_overflow(false);
        let (header, data) = p.to_bytes_snapshot();
        assert!(!header.has_overflow());
        assert_eq!(header.page_used_size > 0, data.len() > header.page_data_size as usize);
    }
}

#[test]
fn tuples_are_replaced_and_removed() {
    let mut p = Page::new_data(1000);
    p.add_tuple(Tuple::new(1, b"one")).unwrap();
    p.add_tuple(Tuple::new(2, b"two")).unwrap();
    let before = p.replace_tuple(&DBIdType::Int(1), Tuple::new(1, b"uno")).unwrap();
    assert_eq!(before.data, b"one");
    assert_eq!(p.get(DBIdType::Int(1)).unwrap().data, b"uno");
    let gone = p.remove_tuple(DBIdType::Int(2)).unwrap();
    assert_eq!(gone.data, b"two");
    assert_eq!(p.count(), 1);
    assert!(matches!(
        p.remove_tuple(DBIdType::Int(2)),
        Err(StoreError::KeyNotFound(DBIdType::Int(2)))
    ));
    assert_eq!(p.header().page_used_size, Tuple::new(1, b"uno").size() as u64);
}

#[test]
fn a_page_header_reads_back() {
    let mut p = Page::new_indexed(2048, 40);
    p.set_next_page(PageId::from(9));
    p.set_high_key(Some(DBIdType::Int(77)));
    let h = p.header();
    let back = PageHeader::from_bytes(&h.to_bytes()).unwrap();
    assert_eq!(back.next_page, 9);
    assert_eq!(back.page_data_size, 2048 - PAGE_OVERHEAD as u64);
    assert_eq!(back.record_size, Some(40));
    assert_eq!(back.high_key, Some(DBIdType::Int(77)));
    assert!(p.is_index_page());
    assert_eq!(back.total_page_size(), PAGE_OVERHEAD);
    assert_eq!(back.usable_data_size(), 2048 - PAGE_OVERHEAD as u64 - USABLE_DATA_MARGIN);
}

#[test]
fn page_numbers_read_back() {
    let id = PageId::from(300);
    assert_eq!(id.to_bytes(), vec![172, 2]);
    assert_eq!(PageId::from_bytes(&id.to_bytes()).unwrap(), id);
    assert!(PageId::from_bytes(&[0x80]).is_err());
    assert!(id.is_valid_next_page());
    assert!(!PageId::from(0).is_valid_next_page());
}

#[test]
fn user_flags_do_not_touch_the_pages_own() {
    let mut p = Page::new_pinned(1024);
    p.set_page_flags(4);
    p.set_page_flags(15);
    assert!(p.is_flag_set(4));
    assert!(p.is_flag_set(15));
    p.clear_page_flag(4);
    assert!(!p.is_flag_set(4));
    assert!(p.is_flag_set(15));
    assert!(p.is_pinned());
}

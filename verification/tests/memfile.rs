use store::memfile::{MemFile, Namespace, SeekFrom};

#[test]
fn test_mem_file() {
    let mut ns = Namespace::new();
    let mut f = MemFile::new(&mut ns);
    assert_eq!(f.write(&mut ns, b"abcdef"), 6);
    assert_eq!(f.seek(&ns, SeekFrom::Start(0)), 0);
    let mut buf = vec![0u8; 10];
    assert_eq!(f.read(&ns, &mut buf), 6);
    assert_eq!(&buf[0..6], b"abcdef");
}

#[test]
fn test_seek_end_zero() {
    let mut ns = Namespace::new();
    let mut f = MemFile::new(&mut ns);
    f.write(&mut ns, b"hello world");
    let pos = f.seek(&ns, SeekFrom::End(0));
    assert_eq!(pos, 11);
    let mut buf = vec![0u8; 4];
    let n = f.read(&ns, &mut buf);
    assert_eq!(n, 0);
}

#[test]
fn test_seek_end_negative() {
    let mut ns = Namespace::new();
    let mut f = MemFile::new(&mut ns);
    f.write(&mut ns, b"hello world");
    let pos = f.seek(&ns, SeekFrom::End(-5));
    assert_eq!(pos, 6);
    let mut buf = vec![0u8; 5];
    f.read_exact(&ns, &mut buf).unwrap();
    assert_eq!(&buf, b"world");
}

#[test]
fn test_seek_current_forward() {
    let mut ns = Namespace::new();
    let mut f = MemFile::new(&mut ns);
    f.write(&mut ns, b"hello world");
    f.seek(&ns, SeekFrom::Start(0));
    f.seek(&ns, SeekFrom::Current(6));
    let mut buf = vec![0u8; 5];
    f.read_exact(&ns, &mut buf).unwrap();
    assert_eq!(&buf, b"world");
}

#[test]
fn test_seek_current_backward() {
    let mut ns = Namespace::new();
    let mut f = MemFile::new(&mut ns);
    f.write(&mut ns, b"hello world");
    f.seek(&ns, SeekFrom::Start(9));
    f.seek(&ns, SeekFrom::Current(-3));
    let mut buf = vec![0u8; 5];
    f.read_exact(&ns, &mut buf).unwrap();
    assert_eq!(&buf, b"world");
}

#[test]
fn test_overwrite_at_offset() {
    let mut ns = Namespace::new();
    let mut f = MemFile::new(&mut ns);
    f.write(&mut ns, b"hello world");
    f.seek(&ns, SeekFrom::Start(6));
    f.write(&mut ns, b"Rust!");
    f.seek(&ns, SeekFrom::Start(0));
    let mut buf = vec![0u8; 11];
    f.read_exact(&ns, &mut buf).unwrap();
    assert_eq!(&buf, b"hello Rust!");
}

#[test]
fn test_clone_shares_data() {
    let mut ns = Namespace::new();
    let mut f = MemFile::new(&mut ns);
    f.write(&mut ns, b"shared");
    let mut g = f.clone();
    g.seek(&ns, SeekFrom::Start(0));
    let mut buf = vec![0u8; 6];
    g.read_exact(&ns, &mut buf).unwrap();
    assert_eq!(&buf, b"shared");
    // A write through one handle is seen through the other.
    f.seek(&ns, SeekFrom::Start(0));
    f.write(&mut ns, b"SHARED");
    g.seek(&ns, SeekFrom::Start(0));
    g.read_exact(&ns, &mut buf).unwrap();
    assert_eq!(&buf, b"SHARED");
}

#[test]
fn test_synced_snapshot_holds_only_what_was_synced() {
    let mut ns = Namespace::new();
    let mut f = MemFile::new(&mut ns);
    f.write(&mut ns, b"durable");
    f.do_sync(&mut ns);
    f.write(&mut ns, b" and not");
    // A positioned write through a copy is not synced either.
    f.clone().pwrite(&mut ns, b"D", 0);
    assert_eq!(f.data(&ns), b"Durable and not".to_vec());
    assert_eq!(f.synced_data(&ns), b"durable".to_vec());
    let (snap_ns, snap) = f.synced_snapshot(&ns);
    assert_eq!(snap.data(&snap_ns), b"durable".to_vec());
    // A sync through any copy publishes the shared bytes.
    f.clone().do_sync(&mut ns);
    assert_eq!(f.synced_data(&ns), b"Durable and not".to_vec());
    // The snapshot does not follow.
    assert_eq!(snap.data(&snap_ns), b"durable".to_vec());
}

#[test]
fn test_synced_snapshot_tracks_truncate_and_partial_rewrites() {
    let mut ns = Namespace::new();
    let mut f = MemFile::new(&mut ns);
    f.write(&mut ns, b"0123456789");
    f.do_sync(&mut ns);
    // Overwriting a range in the middle is not seen before a sync.
    f.pwrite(&mut ns, b"ab", 3);
    assert_eq!(f.synced_data(&ns), b"0123456789".to_vec());
    f.do_sync(&mut ns);
    assert_eq!(f.synced_data(&ns), b"012ab56789".to_vec());
    // Emptied and written again, but shorter: what is synced shrinks too.
    f.truncate(&mut ns);
    f.seek(&ns, SeekFrom::Start(0));
    f.write(&mut ns, b"xy");
    assert_eq!(f.synced_data(&ns), b"012ab56789".to_vec());
    f.do_sync(&mut ns);
    assert_eq!(f.synced_data(&ns), b"xy".to_vec());
}

#[test]
fn test_siblings_share_a_namespace_but_files_from_new_do_not() {
    let mut ns = Namespace::new();
    let a = MemFile::open(&mut ns, "db");
    let mut seg1 = a.open_sibling(&mut ns, "db.wal.1");
    seg1.write(&mut ns, b"one");
    let _seg2 = a.open_sibling(&mut ns, "db.wal.2");
    let mut listed = a.list_siblings(&ns, "db.wal.");
    listed.sort();
    assert_eq!(listed, vec!["db.wal.1".to_string(), "db.wal.2".to_string()]);
    assert_eq!(a.clone().list_siblings(&ns, "db.wal.").len(), 2);
    assert_eq!(seg1.list_siblings(&ns, "db.wal.").len(), 2);
    // Opening a name again gives the same bytes, at their start.
    let mut again = a.open_sibling(&mut ns, "db.wal.1");
    let mut buf = vec![0u8; 3];
    again.read_exact(&ns, &mut buf).unwrap();
    assert_eq!(&buf, b"one");
    // The same names in another namespace are other files.
    let mut other = Namespace::new();
    let b = MemFile::open(&mut other, "db");
    assert!(b.list_siblings(&other, "db.wal.").is_empty());
    let mut alone = Namespace::new();
    let c = MemFile::new(&mut alone);
    assert!(c.list_siblings(&alone, "").is_empty());
    // Removing goes by name, and may be repeated.
    a.remove_sibling(&mut ns, "db.wal.1");
    a.remove_sibling(&mut ns, "db.wal.1");
    assert_eq!(a.list_siblings(&ns, "db.wal."), vec!["db.wal.2".to_string()]);
}

#[test]
fn test_synced_siblings_capture_only_synced_bytes() {
    let mut ns = Namespace::new();
    let a = MemFile::open(&mut ns, "db");
    let mut seg = a.open_sibling(&mut ns, "db.wal.1");
    seg.write(&mut ns, b"durable");
    seg.do_sync(&mut ns);
    seg.write(&mut ns, b"-not");
    let snap = a.synced_siblings(&ns, "db.wal.");
    assert_eq!(snap, vec![("db.wal.1".to_string(), b"durable".to_vec())]);
    // A disk that is built up from the snapshot has the names in its own
    // namespace.
    let mut disk_ns = Namespace::new();
    let disk = MemFile::from_bytes(&mut disk_ns, b"data".to_vec());
    for (path, bytes) in snap {
        disk.add_sibling_from_bytes(&mut disk_ns, &path, bytes);
    }
    assert_eq!(disk.list_siblings(&disk_ns, "db.wal."), vec!["db.wal.1".to_string()]);
    assert!(a.list_siblings(&ns, "other").is_empty());
}

#[test]
fn test_read_partial_data() {
    let mut ns = Namespace::new();
    let mut f = MemFile::new(&mut ns);
    f.write(&mut ns, b"abcde");
    f.seek(&ns, SeekFrom::Start(2));
    let mut buf = vec![0u8; 10];
    let n = f.read(&ns, &mut buf);
    assert_eq!(n, 3);
    assert_eq!(&buf[..3], b"cde");
}

#[test]
fn a_rewrite_after_truncate_is_synced_whole() {
    let mut ns = Namespace::new();
    let f = MemFile::new(&mut ns);
    f.pwrite(&mut ns, b"0123456789", 0);
    f.do_sync(&mut ns);
    f.truncate(&mut ns);
    f.pwrite(&mut ns, b"z", 4);
    f.do_sync(&mut ns);
    assert_eq!(f.synced_data(&ns), vec![0, 0, 0, 0, b'z']);
    assert_eq!(f.synced_data(&ns), f.data(&ns));
}

#[test]
fn positioned_reads_stop_at_the_end() {
    let mut ns = Namespace::new();
    let f = MemFile::from_bytes(&mut ns, b"abcdef".to_vec());
    let mut buf = vec![0u8; 4];
    assert_eq!(f.pread(&ns, &mut buf, 4), 2);
    assert_eq!(buf, vec![b'e', b'f', 0, 0]);
    assert_eq!(f.pread(&ns, &mut buf, 6), 0);
    assert_eq!(f.get_metadata(&ns).len, 6);
    let mut exact = vec![0u8; 7];
    let mut g = f;
    assert!(g.read_exact(&ns, &mut exact).is_err());
    let mut h = f;
    assert_eq!(h.seek(&ns, SeekFrom::Current(-1)), 0);
    assert_eq!(h.seek(&ns, SeekFrom::End(-7)), 0);
}

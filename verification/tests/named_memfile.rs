use store::db::Db;
use store::memfile::{Namespace, SeekFrom};
use store::named_memfile::NamedMemFile;

#[test]
fn test_reopen_by_name_sees_prior_writes() {
    let name = "test_reopen_by_name_sees_prior_writes";
    let mut ns = Namespace::new();
    NamedMemFile::delete(&mut ns, name);

    let mut f = NamedMemFile::open(&mut ns, name);
    f.file.write(&mut ns, b"hello");

    let mut f2 = NamedMemFile::open(&mut ns, name);
    let mut buf = vec![0u8; 5];
    f2.file.read_exact(&ns, &mut buf).unwrap();
    assert_eq!(&buf, b"hello");

    NamedMemFile::delete(&mut ns, name);
}

#[test]
fn test_different_names_do_not_share_data() {
    let a = "test_different_names_do_not_share_data_a";
    let b = "test_different_names_do_not_share_data_b";
    let mut ns = Namespace::new();
    NamedMemFile::delete(&mut ns, a);
    NamedMemFile::delete(&mut ns, b);

    let mut fa = NamedMemFile::open(&mut ns, a);
    fa.file.write(&mut ns, b"aaaaa");
    let mut fb = NamedMemFile::open(&mut ns, b);
    let mut buf = vec![0u8; 5];
    assert_eq!(fb.file.read(&ns, &mut buf), 0);

    NamedMemFile::delete(&mut ns, a);
    NamedMemFile::delete(&mut ns, b);
}

#[test]
fn test_delete_clears_prior_state_for_that_name() {
    let name = "test_delete_clears_prior_state_for_that_name";
    let mut ns = Namespace::new();
    NamedMemFile::delete(&mut ns, name);

    let mut f = NamedMemFile::open(&mut ns, name);
    f.file.write(&mut ns, b"stale");
    NamedMemFile::delete(&mut ns, name);

    let mut f2 = NamedMemFile::open(&mut ns, name);
    let mut buf = vec![0u8; 5];
    assert_eq!(f2.file.read(&ns, &mut buf), 0);

    NamedMemFile::delete(&mut ns, name);
}

#[test]
fn test_delete_also_clears_undo_and_redo_siblings() {
    let name = "test_delete_also_clears_undo_and_redo_siblings";
    let undo = format!("{name}.undo");
    let mut ns = Namespace::new();
    NamedMemFile::delete(&mut ns, name);

    let mut f = NamedMemFile::open(&mut ns, &undo);
    f.file.write(&mut ns, b"stale-undo");
    NamedMemFile::delete(&mut ns, name);

    let mut f2 = NamedMemFile::open(&mut ns, &undo);
    let mut buf = vec![0u8; 10];
    assert_eq!(f2.file.read(&ns, &mut buf), 0);
}

#[test]
fn test_db_close_then_reopen_round_trips_through_named_memfile() {
    let name = "test_db_close_then_reopen_round_trips_through_named_memfile";
    let mut db = Db::create(name, Namespace::new(), 1).unwrap();
    let tid = db.create_table("t".to_string(), 2).unwrap();
    let (data, ns, _file) = db.close(3).unwrap();

    let db2 = Db::open_using(name, data, ns).unwrap();
    assert_eq!(db2.table_id_by_name("t").unwrap(), Some(tid));
}

#[test]
fn test_clone_shares_data_like_memfile() {
    let name = "test_clone_shares_data_like_memfile";
    let mut ns = Namespace::new();
    NamedMemFile::delete(&mut ns, name);

    let mut f = NamedMemFile::open(&mut ns, name);
    f.file.write(&mut ns, b"shared");
    let mut g = f.clone();
    g.file.seek(&ns, SeekFrom::Start(0));
    let mut buf = vec![0u8; 6];
    g.file.read_exact(&ns, &mut buf).unwrap();
    assert_eq!(&buf, b"shared");

    NamedMemFile::delete(&mut ns, name);
}

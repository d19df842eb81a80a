//! What outlasts a database: the files that a clean close leaves, and those
//! that a power cut leaves.
use vstd::prelude::*;
use vstd::string::*;

use crate::catalog::SystemPages;
use crate::checkpoint;
use crate::checkpoint::copy_links;
use crate::db;
use crate::db::{DataFile, Db};
use crate::error::{Fault, StoreError};
use crate::memfile;
use crate::memfile::{Bytes, Disk, MemFile, Namespace};
use crate::page::Sheet;
use crate::segment;
use crate::segment::segment_prefix;
use crate::text;
use crate::tuple::copy_bytes;
use crate::upkeep;

verus! {

/// Do two data files hold the same?
pub open spec fn same_data(a: DataFile, b: DataFile) -> bool {
    same_but_rows(a, b) && a.rows@ == b.rows@
}

/// Do two data files hold the same but for the rows?
pub open spec fn same_but_rows(a: DataFile, b: DataFile) -> bool {
    &&& a.header@ == b.header@
    &&& a.system.catalog@ == b.system.catalog@
    &&& a.system.catalog.list() == b.system.catalog.list()
    &&& a.system.sequences@ == b.system.sequences@
    &&& a.system.free@ == b.system.free@
    &&& a.links@ == b.links@
}

/// Is everything in order in a data file?
pub open spec fn data_wf(data: DataFile) -> bool {
    &&& data.system.catalog.wf()
    &&& data.system.sequences.wf()
    &&& data.system.free.wf()
    &&& data.rows.wf()
}

impl DataFile {
    /// The same file once more.
    pub fn copy(&self) -> (data: DataFile)
        requires
            data_wf(*self),
        ensures
            data_wf(data),
            same_data(data, *self),
    {
        DataFile {
            header: copy_bytes(self.header.as_slice()),
            system: SystemPages {
                catalog: self.system.catalog.copy(),
                sequences: self.system.sequences.copy(),
                free: self.system.free.copy(),
            },
            rows: self.rows.copy(),
            links: copy_links(&self.links),
        }
    }
}

/// Does `e` hold the files of `d` whose names begin with the prefix, as far as
/// they were durable, and no others?
pub open spec fn survived(d: Disk, e: Disk, prefix: Seq<char>) -> bool {
    forall|p: Seq<char>| #[trigger]
        e.names.dom().contains(p) <==> d.names.dom().contains(p) && text::starts_with(p, prefix)
}

/// Do the files in `e` hold what those in `d` held that was durable?
pub open spec fn durable_part(d: Disk, e: Disk) -> bool {
    forall|p: Seq<char>| #[trigger]
        e.names.dom().contains(p) ==> e.names[p] < e.files.len() && e.files[e.names[p] as int]
            == (Bytes {
            data: d.files[d.names[p] as int].synced,
            synced: d.files[d.names[p] as int].synced,
        })
}

/// Is everything in the files durable?
pub open spec fn all_durable(d: Disk) -> bool {
    forall|i: int| 0 <= i < d.files.len() ==> (#[trigger] d.files[i]).data == d.files[i].synced
}

impl Db {
    /// What would be left if the power were cut now: the data file as of the
    /// last checkpoint, and the durable part of every segment of the log.
    pub fn synced_snapshot(&self) -> (r: (DataFile, Namespace))
        requires
            self.wf(),
        ensures
            data_wf(r.0),
            same_data(r.0, self.data),
            r.1.wf(),
            survived(self.ns@, r.1@, segment::prefix_text(self.name@)),
            durable_part(self.ns@, r.1@),
            all_durable(r.1@),
    {
        let data = self.data.copy();
        let mut disk = Namespace::new();
        let handle = MemFile::new(&mut disk);
        let prefix = segment_prefix(self.name.as_str());
        let mut found = self.wal.file.synced_siblings(&self.ns, prefix.as_str());
        let ghost all = found@;
        let ghost names = all.map_values(|p: (String, Vec<u8>)| p.0);
        let ghost d = self.ns@;
        proof {
            assert forall|p: Seq<char>| !(#[trigger] disk@.names.dom().contains(p)) by {}
        }
        for entry in it: found
            invariant
                it.seq() == all,
                d == self.ns@,
                names == all.map_values(|p: (String, Vec<u8>)| p.0),
                memfile::listing(d, prefix@, names),
                forall|i: int|
                    0 <= i < all.len() ==> (#[trigger] all[i]).1@
                        == d.files[d.names[all[i].0@] as int].synced,
                disk.wf(),
                forall|p: Seq<char>| #[trigger]
                    disk@.names.dom().contains(p) <==> exists|i: int|
                        0 <= i < it.index() && (#[trigger] names[i])@ == p,
                durable_part(d, disk@),
                all_durable(disk@),
        {
            let (path, bytes) = entry;
            let ghost k = it.index();
            let ghost before = disk@;
            assert(names[k]@ == path@);
            assert(all[k].1@ == d.files[d.names[all[k].0@] as int].synced);
            let _f = handle.add_sibling_from_bytes(&mut disk, path.as_str(), bytes);
            proof {
                assert forall|p: Seq<char>| #[trigger]
                    disk@.names.dom().contains(p) <==> exists|i: int|
                        0 <= i < k + 1 && (#[trigger] names[i])@ == p by {
                    if exists|i: int| 0 <= i < k && (#[trigger] names[i])@ == p {
                        let i = choose|i: int| 0 <= i < k && (#[trigger] names[i])@ == p;
                        assert(names[i]@ == p);
                    }
                    if disk@.names.dom().contains(p) && p != path@ {
                        assert(before.names.dom().contains(p));
                    }
                    if exists|i: int| 0 <= i < k + 1 && (#[trigger] names[i])@ == p {
                        let i = choose|i: int| 0 <= i < k + 1 && (#[trigger] names[i])@ == p;
                        if i < k {
                            assert(before.names.dom().contains(p));
                        }
                    }
                }
            }
        }
        (data, disk)
    }

    /// Closes the database: aborts that failed are finished, and a checkpoint
    /// makes everything durable. Returns the data file, the files of the log,
    /// and a handle to the newest segment.
    pub fn close(self, now: u128) -> (r: Result<(DataFile, Namespace, MemFile), StoreError>)
        requires
            self.wf(),
            self.room(self.engine.txns.aborting@.len()),
            self.wal.current.n < u64::MAX,
        ensures
            ({
                let ids = self.engine.txns.aborting@;
                if self.fail_reverts && ids.len() > 0 {
                    r matches Err(e) && e@ == Fault::Unknown(db::revert_text())
                } else {
                    exists|mid: Db|
                        {
                            &&& mid == Db { engine: mid.engine, ..self }
                            &&& #[trigger] upkeep::finished_all(self, mid, ids)
                            &&& mid.wf()
                            &&& match r {
                                Ok((data, ns, f)) => exists|last: Db|
                                    {
                                        &&& #[trigger] checkpoint::checkpointed(mid, last, now)
                                        &&& last.wf()
                                        &&& data == last.data
                                        &&& ns == last.ns
                                        &&& f.at == last.wal@.at
                                        &&& f.seek_pos == 0
                                    },
                                Err(e) => checkpoint::catalog_of(mid) == Err::<Sheet, Fault>(e@),
                            }
                        }
                }
            }),
    {
        let mut db = self;
        if let Err(e) = db.finish_aborts() {
            return Err(e);
        }
        let ghost mid = db;
        if let Err(e) = db.checkpoint(now) {
            return Err(e);
        }
        let handle = MemFile { at: db.wal.file.at, seek_pos: 0 };
        assert(checkpoint::checkpointed(mid, db, now));
        Ok((db.data, db.ns, handle))
    }
}

} // verus!

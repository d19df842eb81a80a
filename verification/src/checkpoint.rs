//! Checkpoints: what the data file holds is brought up to date, and the log
//! that is not needed any more goes.
use vstd::prelude::*;

use crate::catalog;
use crate::catalog::write_system_tables;
use crate::codec;
use crate::db::Db;
use crate::engine::Engine;
use crate::error::{Fault, StoreError};
use crate::generator;
use crate::header;
use crate::header::Header;
use crate::mvcc::Core;
use crate::page::Sheet;
use crate::promise;
use crate::table;
use crate::wal;

verus! {

/// The number below which no record is needed once a checkpoint is complete:
/// the clock's next, or that of the oldest transaction that has not finished.
/// Every record of a transaction has a number above the transaction's own.
pub open spec fn floor_of(c: Core) -> u64 {
    match c.txns.oldest_in_flight() {
        Some(x) => if x < c.counter {
            x
        } else {
            c.counter as u64
        },
        None => c.counter as u64,
    }
}

/// The header that a checkpoint writes.
pub open spec fn checkpoint_header(db: Db, now: u128) -> Header {
    header::sealed(
        Header {
            page_count: db.page_count,
            last_checkpoint: now,
            counter: db.engine.clock.counter,
            checkpoint_lsn: floor_of(db.engine@),
            ..db.header
        },
    )
}

/// The page of the tables, if they fit.
pub open spec fn catalog_of(db: Db) -> Result<Sheet, Fault> {
    catalog::catalog_sheet(table::tabs(db.tables@), db.header.page_size)
}

/// What a checkpoint leaves in the data file: the header, the tables, the
/// sequences, the free pages, and every row as it is, whether its writer has
/// finished or not.
pub open spec fn saved(db: Db, now: u128, data: crate::db::DataFile) -> bool {
    let values = generator::next_pairs(db.generator.gens@);
    &&& data.header@ == header::block(checkpoint_header(db, now))
    &&& catalog_of(db) == Ok::<Sheet, Fault>(data.system.catalog@)
    &&& data.system.sequences@ == catalog::single_sheet(
        codec::varint(values.len()) + catalog::enc_values(values),
        db.header.page_size,
    )
    &&& data.system.free@ == catalog::single_sheet(
        codec::varint(db.free_pages@.len()) + catalog::enc_ids(db.free_pages@),
        db.header.page_size,
    )
    &&& data.rows@ == db.engine.rows@
    &&& data.links@ == db.links@
}

/// What a checkpoint does: the log is durable before the data file, the data
/// file before the log is cut, and from then on nothing below the floor is
/// kept. Transactions go on as they were.
pub open spec fn checkpointed(before: Db, after: Db, now: u128) -> bool {
    &&& after == Db {
        data: after.data,
        ns: after.ns,
        wal: after.wal,
        engine: after.engine,
        generator: after.generator,
        last_checkpoint: now,
        ..before
    }
    &&& saved(before, now, after.data)
    &&& after.engine == Engine {
        out: after.engine.out,
        clock: after.engine.clock,
        ..before.engine
    }
    &&& after.engine.clock.counter == before.engine.clock.counter
    &&& after.engine.out@.len() == 0
    &&& after.log() == wal::rolled(
        wal::ran(before.log(), wal::record_msgs(before.queued()), 0),
        floor_of(before.engine@),
    )
    &&& after.generator@ == generator::rebased(before.generator@)
    &&& generator::next_pairs(after.generator.gens@) == generator::next_pairs(
        before.generator.gens@,
    )
}

/// The same numbers once more.
pub fn copy_links(s: &Vec<u64>) -> (out: Vec<u64>)
    ensures
        out@ == s@,
{
    let mut out: Vec<u64> = Vec::new();
    for i in 0..s.len()
        invariant
            out@ == s@.take(i as int),
    {
        out.push(s[i]);
        assert(s@.take(i + 1) =~= s@.take(i as int).push(s@[i as int]));
    }
    assert(s@.take(s@.len() as int) =~= s@);
    out
}

impl Db {
    /// The number below which no record is needed once a checkpoint that
    /// begins now is complete.
    pub fn retention_floor(&self) -> (floor: u64)
        requires
            self.wf(),
        ensures
            floor == floor_of(self.engine@),
    {
        let counter: u64 = self.engine.clock.counter;
        match self.engine.txns.oldest_in_flight() {
            Some(x) => if x < counter {
                x
            } else {
                counter
            },
            None => counter,
        }
    }

    /// Takes a checkpoint at the time `now`. It never waits for a transaction:
    /// what is written may hold rows of transactions that have not finished,
    /// and the records that undo those are kept. Fails, and changes nothing,
    /// if there are more tables than the catalog holds.
    pub fn checkpoint(&mut self, now: u128) -> (r: Result<(), StoreError>)
        requires
            old(self).wf(),
            old(self).wal.current.n < u64::MAX,
        ensures
            final(self).wf(),
            match r {
                Ok(()) => checkpointed(*old(self), *final(self), now),
                Err(e) => catalog_of(*old(self)) == Err::<Sheet, Fault>(e@) && *final(self)
                    == *old(self),
            },
    {
        let floor: u64 = self.retention_floor();
        let values = self.generator.get_values();
        proof {
            assert(generator::value_pairs(values@).len() == values@.len());
        }
        let pages = match write_system_tables(
            &self.tables,
            &values,
            &self.free_pages,
            self.header.page_size,
        ) {
            Ok(pages) => pages,
            Err(e) => {
                return Err(e);
            },
        };
        self.sync_log();
        let ghost mid = *self;
        proof {
            wal::records_in_batches(old(self).log(), old(self).queued(), 0);
        }
        self.data.system = pages;
        self.data.rows = self.engine.rows.copy();
        self.data.links = copy_links(&self.links);
        let mut hdr = self.header;
        hdr.page_count = self.page_count;
        hdr.last_checkpoint = now;
        hdr.counter = self.engine.clock.counter;
        hdr.checkpoint_lsn = floor;
        hdr.seal();
        self.data.header = hdr.to_block();
        self.wal.roll(&mut self.ns, floor);
        self.last_checkpoint = now;
        self.generator.start_chunks();
        proof {
            assert(mid.wal.log(mid.ns@, mid.engine.clock) == mid.log());
        }
        Ok(())
    }
}

/// The header that a checkpoint writes says when it was, how many pages there
/// are and which number comes next; its floor is above no transaction that has
/// not finished; the sizes stay as they are, and the checksum holds.
pub proof fn saved_header_says_where_things_stand(db: Db, now: u128, x: u64)
    requires
        db.wf(),
    ensures
        ({
            let h = checkpoint_header(db, now);
            &&& h.last_checkpoint == now
            &&& h.page_count == db.page_count
            &&& h.counter == db.engine.clock.counter
            &&& h.checkpoint_lsn <= h.counter
            &&& db.engine@.txns.unfinished(x) ==> h.checkpoint_lsn <= x
            &&& h.page_size == db.header.page_size
            &&& h.max_index_key_size == db.header.max_index_key_size
            &&& h.format_version == db.header.format_version
            &&& h.header_checksum == header::sum_of(h)
        }),
{
    promise::floor_is_least(db.engine@);
}

} // verus!

//! What a database promises its users: what was committed is there after a
//! power cut, and a database that was saved opens again.
use vstd::prelude::*;

use crate::assoc;
use crate::catalog;
use crate::checkpoint;
use crate::clock::LsnId;
use crate::codec;
use crate::crash;
use crate::db;
use crate::db::{DataFile, Db, Durability};
use crate::durable;
use crate::ending;
use crate::engine;
use crate::error::Fault;
use crate::framing;
use crate::generator;
use crate::generator::Marks;
use crate::header;
use crate::header::Header;
use crate::history;
use crate::history::{Event, State};
use crate::memfile;
use crate::memfile::Disk;
use crate::mvcc;
use crate::mvcc::{Core, Grave, Place};
use crate::opening;
use crate::operation;
use crate::operation::{Entry, Op};
use crate::recovery;
use crate::segment;
use crate::table;
use crate::table::{Tab, TableIdType};
use crate::tuple::{Key, Row};
use crate::txn::TransactionId;
use crate::wal;
use crate::wal::Log;

verus! {

// ---------------------------------------------------------------------------
// Durability
// ---------------------------------------------------------------------------

/// Does the log of the database hold these records, segment by segment, all of
/// them durable?
pub open spec fn log_holds(db: Db, parts: Seq<Seq<Entry>>) -> bool {
    durable::holds(db.wal@, db.ns@, db.header.page_size, parts)
}

/// The records with more behind them.
pub open spec fn with_more(parts: Seq<Seq<Entry>>, es: Seq<Entry>) -> Seq<Seq<Entry>> {
    parts.update(parts.len() - 1, parts.last() + es)
}

/// Once queued records were written, they are in the log behind those that
/// were there.
pub proof fn written_is_held(
    l: Log,
    page_size: u64,
    parts: Seq<Seq<Entry>>,
    es: Seq<Entry>,
)
    requires
        durable::holds(l.wal, l.disk, page_size, parts),
        forall|k: int| 0 <= k < es.len() ==> framing::entry_fits(#[trigger] es[k]),
        wal::fits(
            wal::ran(l, wal::record_msgs(es), 0).wal,
            wal::ran(l, wal::record_msgs(es), 0).disk,
        ),
    ensures
        durable::holds(
            wal::ran(l, wal::record_msgs(es), 0).wal,
            wal::ran(l, wal::record_msgs(es), 0).disk,
            page_size,
            with_more(parts, es),
        ),
{
    wal::records_in_batches(l, es, 0);
    assert(es.skip(0) =~= es);
    durable::batch_is_held(l, page_size, parts, es);
}

/// A commit that has returned is durable: the log holds its record, and behind
/// nothing that was not durable before it. What was durable stays.
pub proof fn commit_is_durable(before: Db, after: Db, x: u64, parts: Seq<Seq<Entry>>)
    requires
        before.wf(),
        after.wf(),
        db::committed(before, after, x, Durability::Sync, None),
        log_holds(before, parts),
        forall|k: int|
            0 <= k < before.queued().len() ==> framing::entry_fits(#[trigger] before.queued()[k]),
    ensures
        ({
            let commit = Entry {
                lsn: LsnId(before.engine.clock.counter),
                op: Op::Commit(TransactionId(x)),
            };
            let now = with_more(parts, before.queued().push(commit));
            &&& log_holds(after, now)
            &&& wal::scan_all(
                durable::after_power_cut(after.ns@),
                after.header.page_size,
                segment::segments_of(durable::after_power_cut(after.ns@), after.name@),
            ) == Ok::<Seq<Seq<Entry>>, Fault>(now)
            &&& now.last().last() == commit
        }),
{
    let commit = Entry {
        lsn: LsnId(before.engine.clock.counter),
        op: Op::Commit(TransactionId(x)),
    };
    let es = before.queued().push(commit);
    end_fits(commit.lsn, x);
    assert forall|k: int| 0 <= k < es.len() implies framing::entry_fits(#[trigger] es[k]) by {
        if k < before.queued().len() {
            assert(es[k] == before.queued()[k]);
        }
    }
    written_is_held(before.log(), before.header.page_size, parts, es);
    durable::power_cut_loses_nothing_durable(
        after.wal@,
        after.ns@,
        after.header.page_size,
        with_more(parts, es),
    );
}

/// The records that end a transaction can be framed.
pub proof fn end_fits(lsn: LsnId, x: u64)
    ensures
        framing::entry_fits(Entry { lsn, op: Op::Commit(TransactionId(x)) }),
        framing::entry_fits(Entry { lsn, op: Op::Rollback(TransactionId(x)) }),
{
    reveal(operation::enc_entry);
    codec::u64_round_trip(lsn.0, seq![]);
    codec::u64_round_trip(x, seq![]);
}

/// A checkpoint keeps every record that is needed: what was queued is durable,
/// and the records at or above the floor are those that were, in order.
pub proof fn checkpoint_keeps_what_is_needed(
    before: Db,
    after: Db,
    now: u128,
    parts: Seq<Seq<Entry>>,
)
    requires
        before.wf(),
        after.wf(),
        before.wal.current.n < u64::MAX,
        checkpoint::checkpointed(before, after, now),
        log_holds(before, parts),
        forall|k: int|
            0 <= k < before.queued().len() ==> framing::entry_fits(#[trigger] before.queued()[k]),
    ensures
        ({
            let all = with_more(parts, before.queued());
            let floor = checkpoint::floor_of(before.engine@);
            exists|left: Seq<Seq<Entry>>|
                {
                    &&& #[trigger] log_holds(after, left)
                    &&& recovery::above(wal::joined(left), floor) == recovery::above(
                        wal::joined(all),
                        floor,
                    )
                }
        }),
{
    let es = before.queued();
    let l = before.log();
    let mid = wal::ran(l, wal::record_msgs(es), 0);
    let floor = checkpoint::floor_of(before.engine@);
    wal::records_in_batches(l, es, 0);
    assert(es.skip(0) =~= es);
    let at = before.wal@.at as int;
    assert(after.ns@.files[at] == mid.disk.files[at]);
    after.ns.lengths_fit(at);
    after.ns.count_fits();
    wal::batched_fits(l, es);
    let left = roll_of_written(l, es, floor, before.header.page_size, parts);
    assert(log_holds(after, left));
}

/// A roll behind records that were written keeps every record at or above the
/// floor.
proof fn roll_of_written(
    l: Log,
    es: Seq<Entry>,
    floor: u64,
    page_size: u64,
    parts: Seq<Seq<Entry>>,
) -> (left: Seq<Seq<Entry>>)
    requires
        durable::holds(l.wal, l.disk, page_size, parts),
        forall|k: int| 0 <= k < es.len() ==> framing::entry_fits(#[trigger] es[k]),
        ({
            let mid = wal::ran(l, wal::record_msgs(es), 0);
            &&& wal::fits(mid.wal, mid.disk)
            &&& wal::fits(wal::rolled(mid, floor).wal, wal::rolled(mid, floor).disk)
            &&& mid.wal.current.n < u64::MAX
            &&& mid.disk.files.len() <= usize::MAX
        }),
    ensures
        ({
            let end = wal::rolled(wal::ran(l, wal::record_msgs(es), 0), floor);
            let all = with_more(parts, es);
            &&& durable::holds(end.wal, end.disk, page_size, left)
            &&& recovery::above(wal::joined(left), floor) == recovery::above(
                wal::joined(all),
                floor,
            )
        }),
{
    let mid = wal::ran(l, wal::record_msgs(es), 0);
    let all = with_more(parts, es);
    written_is_held(l, page_size, parts, es);
    durable::roll_keeps_what_is_needed(mid, page_size, all, floor);
    let left = durable::parts_kept(durable::all_segs(mid.wal), all, floor).push(seq![]);
    left
}

// ---------------------------------------------------------------------------
// Opening what was saved
// ---------------------------------------------------------------------------

/// A header fits the room that is set aside for it.
proof fn header_fits(h: Header)
    ensures
        header::enc_header(h).len() <= header::HEADER_SIZE,
{
    codec::u128_round_trip(h.last_checkpoint, seq![]);
    codec::le_bytes_len(h.format_version as nat, 4);
    codec::le_bytes_len(h.first_page_offset as nat, 8);
    codec::le_bytes_len(h.page_count as nat, 8);
    codec::le_bytes_len(h.page_size as nat, 8);
    codec::le_bytes_len(h.counter as nat, 8);
    codec::le_bytes_len(h.checkpoint_lsn as nat, 8);
    codec::le_bytes_len(h.max_index_key_size as nat, 8);
    codec::le_bytes_len(h.header_checksum as nat, 4);
}

/// A header reads back as it was written, unless it has a flaw.
pub proof fn written_header_reads_back(h: Header)
    requires
        h.magic@ == header::MAGIC@,
        h.format_version == header::HEADER_FORMAT_VERSION,
    ensures
        header::block(h).len() == header::HEADER_SIZE,
        header::decoded(header::block(h).take(header::HEADER_SIZE as int)) == match header::flaw(
            h,
        ) {
            Some(t) => Err::<Header, Fault>(Fault::HeaderCorruption(t)),
            None => Ok::<Header, Fault>(h),
        },
{
    let s = header::block(h);
    header_fits(h);
    let zeros = s.skip(header::enc_header(h).len() as int);
    assert(s =~= header::enc_header(h) + zeros);
    assert(s.take(header::HEADER_SIZE as int) =~= s);
    header::header_round_trip(h, zeros);
}

/// The header that a checkpoint saves reads back.
pub proof fn saved_header_reads_back(ck: Db, now: u128, s: Seq<u8>)
    requires
        header::as_written(ck.header),
        header::sizes_ok(ck.header),
        s == header::block(checkpoint::checkpoint_header(ck, now)),
    ensures
        s.len() == header::HEADER_SIZE,
        header::decoded(s.take(header::HEADER_SIZE as int)) == Ok::<Header, Fault>(
            checkpoint::checkpoint_header(ck, now),
        ),
{
    written_header_reads_back(checkpoint::checkpoint_header(ck, now));
}

/// Raising sequences puts each of them at or above its number.
proof fn raised_all_reaches(m: Map<Seq<char>, Marks>, vs: Seq<(Seq<char>, u64)>, i: int)
    requires
        0 <= i < vs.len(),
    ensures
        generator::raised_all(m, vs).dom().contains(vs[i].0),
        vs[i].1 <= generator::raised_all(m, vs)[vs[i].0].next,
    decreases vs.len(),
{
    if i < vs.len() - 1 {
        assert(vs.drop_last()[i] == vs[i]);
        raised_all_reaches(m, vs.drop_last(), i);
    }
}

/// Does no record drop the sequence?
pub open spec fn never_drops(ops: Seq<Op>, name: Seq<char>) -> bool {
    forall|i: int|
        0 <= i < ops.len() ==> !((#[trigger] ops[i]) matches Op::Sequence { name: n, dropped, .. }
            && dropped && n == name)
}

/// Replay lowers no sequence that is not dropped.
pub proof fn replay_reaches(m: Map<Seq<char>, Marks>, ops: Seq<Op>, name: Seq<char>)
    requires
        m.dom().contains(name),
        never_drops(ops, name),
    ensures
        generator::replay_marks(m, ops).dom().contains(name),
        m[name].next <= generator::replay_marks(m, ops)[name].next,
    decreases ops.len(),
{
    if ops.len() > 0 {
        let front = ops.drop_last();
        assert forall|i: int| 0 <= i < front.len() implies !((
        #[trigger] front[i]) matches Op::Sequence { name: n, dropped, .. } && dropped && n == name) by {
            assert(front[i] == ops[i]);
        }
        replay_reaches(m, front, name);
        assert(ops[ops.len() - 1] == ops.last());
    }
}

/// The number behind all tables is no higher than a bound on all of them.
pub proof fn next_id_bound(ts: Seq<Tab>, bound: nat)
    requires
        forall|i: int| 0 <= i < ts.len() ==> (#[trigger] ts[i]).id.0 < bound,
    ensures
        opening::next_id(ts) <= bound,
    decreases ts.len(),
{
    if ts.len() > 0 {
        let front = ts.drop_last();
        assert forall|i: int| 0 <= i < front.len() implies (#[trigger] front[i]).id.0 < bound by {
            assert(front[i] == ts[i]);
        }
        next_id_bound(front, bound);
        assert(ts[ts.len() - 1].id.0 < bound);
    }
}

/// The sequence that numbers the tables comes back at or above every number
/// that a table may have.
pub proof fn saved_marks_reach(ck: Db, es: Seq<Entry>)
    requires
        ck.wf(),
        never_drops(recovery::entry_ops(es), db::system_name()),
    ensures
        ({
            let m = opening::marks_after(generator::next_pairs(ck.generator.gens@), es);
            m.dom().contains(db::system_name()) && ck.engine@.next_table
                <= m[db::system_name()].next
        }),
{
    let vs = generator::next_pairs(ck.generator.gens@);
    let name = db::system_name();
    let i = assoc::assoc_find(generator::seq_pairs(ck.generator.gens@), name);
    assert(vs[i] == (name, ck.generator@[name].next));
    raised_all_reaches(Map::empty(), vs, i);
    replay_reaches(
        generator::raised_all(Map::empty(), vs),
        recovery::entry_ops(es),
        name,
    );
}

/// The sequence that numbers the tables comes back above them all.
proof fn saved_marks_are_sound(ck: Db, es: Seq<Entry>)
    requires
        ck.wf(),
        never_drops(recovery::entry_ops(es), db::system_name()),
    ensures
        opening::marks_sound(
            opening::marks_after(generator::next_pairs(ck.generator.gens@), es),
            table::tabs(ck.tables@),
        ),
{
    saved_marks_reach(ck, es);
    let ts = table::tabs(ck.tables@);
    assert forall|k: int| 0 <= k < ts.len() implies (#[trigger] ts[k]).id.0
        < ck.engine@.next_table by {
        assert(ck.tables@[k].id == ts[k].id);
        assert(ck.engine@.live.contains(ts[k].id));
    }
    next_id_bound(ts, ck.engine@.next_table as nat);
}

/// The tables and rows that are saved fit each other.
pub proof fn saved_rows_are_sound(ck: Db, top: nat)
    requires
        ck.wf(),
        ck.engine.clock.counter <= top,
    ensures
        opening::tabs_sound(table::tabs(ck.tables@)),
        opening::ids_of(table::tabs(ck.tables@)) == ck.engine@.live,
        opening::rows_sound(ck.engine.rows@, ck.engine@.live, top),
{
    let ts = table::tabs(ck.tables@);
    assert forall|i: int, j: int| 0 <= i < j < ts.len() implies (#[trigger] ts[i]).id != (
    #[trigger] ts[j]).id && ts[i].name != ts[j].name by {
        assert(ck.tables@[i].id != ck.tables@[j].id);
    }
    assert forall|i: int| 0 <= i < ts.len() implies (#[trigger] ts[i]).name != db::system_name()
        && ts[i].id.0 < u64::MAX by {
        assert(ck.tables@[i].name@ != db::system_name());
        assert(ck.tables@[i].id == ts[i].id);
        assert(ck.engine@.live.contains(ts[i].id));
    }
    assert forall|x: TableIdType| opening::ids_of(ts).contains(x)
        == #[trigger] ck.engine@.live.contains(x) by {
        if opening::ids_of(ts).contains(x) {
            let i = choose|i: int| 0 <= i < ts.len() && (#[trigger] ts[i]).id == x;
            assert(ck.tables@[i].id == x);
        }
        if ck.engine@.live.contains(x) {
            let i = choose|i: int| 0 <= i < ck.tables@.len() && (#[trigger] ck.tables@[i]).id == x;
            assert(ts[i].id == x);
        }
    }
    assert(opening::ids_of(ts) =~= ck.engine@.live);
    assert forall|p: Place| #[trigger] ck.engine.rows@.dom().contains(p) implies recovery::usable(
        p,
        ck.engine.rows@[p],
        ck.engine@.live,
        top,
    ) by {
        assert(mvcc::row_ok(ck.engine@, p, ck.engine@.rows[p]));
    }
}

/// Can everything that the catalog holds be encoded?
pub open spec fn encodable(db: Db) -> bool {
    let values = generator::next_pairs(db.generator.gens@);
    &&& db.tables@.len() <= u64::MAX
    &&& values.len() <= u64::MAX
    &&& db.free_pages@.len() <= u64::MAX
    &&& forall|i: int|
        0 <= i < db.tables@.len() ==> vstd::utf8::encode_utf8(
            (#[trigger] table::tabs(db.tables@)[i]).name,
        ).len() < codec::WIDE
    &&& forall|i: int|
        0 <= i < values.len() ==> vstd::utf8::encode_utf8((#[trigger] values[i]).0).len()
            < codec::WIDE
}

/// A database opens again after a power cut, from what its last checkpoint
/// saved and from the log: with the tables it had, and with the records to be
/// replayed that are at or above the checkpoint's floor.
pub proof fn saved_database_opens(
    ck: Db,
    now: u128,
    data: DataFile,
    at_end: Db,
    parts: Seq<Seq<Entry>>,
)
    requires
        ck.wf(),
        at_end.wf(),
        checkpoint::saved(ck, now, data),
        ending::data_wf(data),
        encodable(ck),
        header::sizes_ok(ck.header),
        at_end.name@ == ck.name@,
        at_end.header.page_size == ck.header.page_size,
        log_holds(at_end, parts),
        ({
            let es = recovery::above(wal::joined(parts), checkpoint::floor_of(ck.engine@));
            &&& forall|i: int|
                0 <= i < es.len() ==> recovery::entry_top(#[trigger] es[i]) < u64::MAX
                    && recovery::versions_ok(
                    es[i],
                    recovery::clock_after(
                        crate::clock::larger(ck.engine.clock.counter, 1) as nat,
                        es,
                    ),
                )
            &&& never_drops(recovery::entry_ops(es), db::system_name())
        }),
    ensures
        opening::opening(
            ck.name@,
            data,
            durable::after_power_cut(at_end.ns@),
        ) matches Ok(o) && {
            &&& o.header == checkpoint::checkpoint_header(ck, now)
            &&& o.parts == parts
            &&& o.records == recovery::above(
                wal::joined(parts),
                checkpoint::floor_of(ck.engine@),
            )
            &&& o.tables == table::tabs(ck.tables@)
            &&& o.links == ck.links@
        },
{
    let d = durable::after_power_cut(at_end.ns@);
    let ts = table::tabs(ck.tables@);
    let vs = generator::next_pairs(ck.generator.gens@);
    let h = checkpoint::checkpoint_header(ck, now);
    let es = recovery::above(wal::joined(parts), checkpoint::floor_of(ck.engine@));
    saved_header_reads_back(ck, now, data.header@);
    durable::power_cut_loses_nothing_durable(
        at_end.wal@,
        at_end.ns@,
        ck.header.page_size,
        parts,
    );
    catalog::system_pages_read_back(
        ts,
        vs,
        ck.free_pages@,
        ck.header.page_size,
        data.system,
    );
    let top = recovery::clock_after(opening::seeded(h) as nat, es);
    saved_rows_are_sound(ck, top);
    recovery::log_top_bound(es);
    recovery::recovered_rows_ok(data.rows@, ck.engine@.live, es, top);
    saved_marks_are_sound(ck, es);
    assert(data.links@.take(h.page_count as int) =~= ck.links@);
    assert(opening::seeded(h) == crate::clock::larger(ck.engine.clock.counter, 1));
}

/// The floor is the clock's next number, or that of the oldest transaction that
/// has not finished, whichever is lower.
pub proof fn floor_is_least(c: Core)
    requires
        c.counter <= u64::MAX,
    ensures
        checkpoint::floor_of(c) <= c.counter,
        forall|x: u64| #[trigger] c.txns.unfinished(x) ==> checkpoint::floor_of(c) <= x,
        checkpoint::floor_of(c) == c.counter || c.txns.unfinished(checkpoint::floor_of(c)),
{
    let ids = c.txns.active.dom().union(c.txns.aborting);
    assert forall|x: u64| #[trigger] c.txns.unfinished(x) implies checkpoint::floor_of(c) <= x by {
        assert(ids.contains(x));
        crash::has_least(ids, x);
        let m = choose|m: u64| mvcc::is_least(ids, m) && m <= x;
        mvcc::least_is(ids, m);
    }
    if c.txns.oldest_in_flight() is Some {
        let m = choose|m: u64| mvcc::is_least(ids, m);
        mvcc::least_is(ids, m);
        assert(ids.contains(m));
    }
}

/// A checkpoint waits for no transaction and changes nothing that anybody sees.
/// The header that it leaves can be read, and names the floor and the number of
/// pages. Every record at or above the floor is still in the log, and no older
/// segment is left whose records are all below it.
pub proof fn checkpoint_is_fuzzy(before: Db, after: Db, now: u128, parts: Seq<Seq<Entry>>)
    requires
        before.wf(),
        after.wf(),
        header::sizes_ok(before.header),
        before.wal.current.n < u64::MAX,
        checkpoint::checkpointed(before, after, now),
        log_holds(before, parts),
        forall|k: int|
            0 <= k < before.queued().len() ==> framing::entry_fits(#[trigger] before.queued()[k]),
    ensures
        ({
            let c = before.engine@;
            let floor = checkpoint::floor_of(c);
            let all = with_more(parts, before.queued());
            &&& after.engine@ == c
            &&& forall|v: mvcc::Viewer, p: Place| #[trigger] after.engine@.look(v, p) == c.look(v, p)
            &&& floor <= c.counter && (floor == c.counter || c.txns.unfinished(floor))
            &&& forall|x: u64| #[trigger] c.txns.unfinished(x) ==> floor <= x
            &&& header::decoded(after.data.header@.take(header::HEADER_SIZE as int)) matches Ok(h)
                && header::flaw(h) is None && h.checkpoint_lsn == floor && h.page_count
                == before.page_count && h.counter == c.counter
            &&& exists|left: Seq<Seq<Entry>>|
                #[trigger] log_holds(after, left) && recovery::above(wal::joined(left), floor)
                    == recovery::above(wal::joined(all), floor)
            &&& forall|i: int|
                0 <= i < after.wal@.older.len() ==> (#[trigger] after.wal@.older[i]).max_lsn
                    >= floor
            &&& segment::lists_segments(
                after.ns@,
                after.name@,
                wal::seg_pairs(after.wal@.older.push(after.wal@.current)),
            )
        }),
{
    let run = wal::ran(before.log(), wal::record_msgs(before.queued()), 0);
    floor_is_least(before.engine@);
    saved_header_reads_back(before, now, after.data.header@);
    header::decoded_is_sound(after.data.header@.take(header::HEADER_SIZE as int));
    checkpoint_keeps_what_is_needed(before, after, now, parts);
    wal::kept_at_floor(
        run.wal.older.push(segment::Seg { bytes: run.wal.segment_bytes, ..run.wal.current }),
        checkpoint::floor_of(before.engine@),
    );
}

/// The files that survive scan like those that were cut off.
proof fn survivors_scan_alike(
    d: Disk,
    e: Disk,
    page_size: u64,
    list: Seq<(u64, Seq<char>)>,
)
    requires
        ending::durable_part(d, e),
        forall|i: int|
            0 <= i < list.len() ==> e.names.dom().contains((#[trigger] list[i]).1)
                && d.names[list[i].1] < d.files.len(),
    ensures
        wal::scan_all(e, page_size, list) == wal::scan_all(
            durable::after_power_cut(d),
            page_size,
            list,
        ),
    decreases list.len(),
{
    if list.len() > 0 {
        let front = list.drop_last();
        assert forall|i: int| 0 <= i < front.len() implies e.names.dom().contains(
            (#[trigger] front[i]).1,
        ) && d.names[front[i].1] < d.files.len() by {
            assert(front[i] == list[i]);
        }
        survivors_scan_alike(d, e, page_size, front);
        let path = list[list.len() - 1].1;
        assert(e.names.dom().contains(path));
        let cut = durable::after_power_cut(d);
        assert(cut.files[cut.names[path] as int].data == e.files[e.names[path] as int].data);
    }
}

/// The log of a snapshot scans like what a power cut leaves.
pub proof fn snapshot_scans_alike(db: Db, disk: Disk, page_size: u64)
    requires
        db.wf(),
        ending::survived(db.ns@, disk, segment::prefix_text(db.name@)),
        ending::durable_part(db.ns@, disk),
    ensures
        wal::scan_all(disk, page_size, segment::segments_of(disk, db.name@)) == wal::scan_all(
            durable::after_power_cut(db.ns@),
            page_size,
            segment::segments_of(durable::after_power_cut(db.ns@), db.name@),
        ),
{
    let d = db.ns@;
    let cut = durable::after_power_cut(d);
    let name = db.name@;
    let list = wal::seg_pairs(db.wal@.older.push(db.wal@.current));
    memfile::names_are_apart(db.ns);
    assert forall|x: (u64, Seq<char>)| #[trigger] list.contains(x) <==> segment::is_segment(
        disk,
        name,
        x,
    ) by {
        assert(list.contains(x) <==> segment::is_segment(d, name, x));
    }
    assert(segment::lists_segments(disk, name, list));
    assert forall|x: (u64, Seq<char>)| #[trigger] list.contains(x) <==> segment::is_segment(
        cut,
        name,
        x,
    ) by {
        assert(list.contains(x) <==> segment::is_segment(d, name, x));
    }
    assert(segment::lists_segments(cut, name, list));
    segment::one_listing(disk, name, list, segment::segments_of(disk, name));
    segment::one_listing(cut, name, list, segment::segments_of(cut, name));
    assert forall|i: int| 0 <= i < list.len() implies disk.names.dom().contains(
        (#[trigger] list[i]).1,
    ) && d.names[list[i].1] < d.files.len() by {
        assert(list.contains(list[i]));
        assert(segment::is_segment(disk, name, list[i]));
    }
    survivors_scan_alike(d, disk, page_size, list);
}

/// What a snapshot takes is what a power cut leaves: opening the one is
/// opening the other.
pub proof fn snapshot_is_the_power_cut(db: Db, data: DataFile, disk: Disk)
    requires
        db.wf(),
        ending::same_data(data, db.data),
        ending::survived(db.ns@, disk, segment::prefix_text(db.name@)),
        ending::durable_part(db.ns@, disk),
    ensures
        opening::opening(db.name@, data, disk) == opening::opening(
            db.name@,
            db.data,
            durable::after_power_cut(db.ns@),
        ),
{
    if let Ok(h) = header::decoded(data.header@.take(header::HEADER_SIZE as int)) {
        snapshot_scans_alike(db, disk, h.page_size);
    }
    assert(catalog::loaded(data.system) == catalog::loaded(db.data.system));
}

// ---------------------------------------------------------------------------
// What the calls come to
// ---------------------------------------------------------------------------

/// Whatever an insert, an update or a removal writes is a write that can
/// happen, and leaves the row that recovery would redo.
pub proof fn writes_can_happen(s: State, table: TableIdType, row: Row, key: Key, x: u64)
    requires
        engine::may_write(s.core, table, x),
    ensures
        engine::insert_plan(s.core, table, row, x) matches Ok((op, new)) ==> history::allowed(
            s,
            Event::Write(op, new),
        ),
        engine::update_plan(s.core, table, row, x) matches Ok((op, new)) ==> history::allowed(
            s,
            Event::Write(op, new),
        ),
        engine::remove_plan(s.core, table, key, x) matches Ok((op, new)) ==> history::allowed(
            s,
            Event::Write(op, new),
        ),
{
    engine::insert_plan_ok(s.core, table, row, x);
    engine::update_plan_ok(s.core, table, row, x);
    engine::remove_plan_ok(s.core, table, key, x);
}

/// The purge of a deletion mark that everybody sees is a number handed out, or
/// that and a purge that can happen.
pub proof fn purges_can_happen(s: State, g: Grave)
    requires
        s.core.counter < u64::MAX - 1,
        s.done.contains(g.txn.0),
        forall|v: mvcc::Viewer| #[trigger]
            mvcc::may_look(s.core.txns, v) ==> mvcc::sees(s.core.txns, v, g.txn.0),
    ensures
        ({
            let p = Place { table: g.table_id, key: g.key };
            let ticked = history::next(s, Event::Tick);
            let c = engine::purge_core(s.core, g);
            ||| c == s.core
            ||| c == ticked.core
            ||| (history::allowed(ticked, Event::Purge(p, g.txn.0)) && c == history::next(
                ticked,
                Event::Purge(p, g.txn.0),
            ).core)
        }),
{
}

/// No number that is found in the log, nor any that was handed out before the
/// last checkpoint, is handed out again.
pub proof fn no_number_comes_back(db: Db, name: Seq<char>, data: DataFile, o: opening::Opening)
    requires
        opening::resumed(db, name, data, o),
        forall|i: int|
            0 <= i < o.records.len() ==> recovery::entry_top(#[trigger] o.records[i]) < u64::MAX,
    ensures
        o.header.counter <= db.engine.clock.counter,
        forall|i: int|
            0 <= i < o.records.len() ==> recovery::entry_top(#[trigger] o.records[i])
                < db.engine.clock.counter,
{
    recovery::log_top_bound(o.records);
}

} // verus!

//! The write-ahead log: batches of records appended to the newest segment,
//! each made durable with one sync, and the segments that are kept before it.
use vstd::prelude::*;
use vstd::slice::slice_subrange;

use crate::clock;
use crate::clock::{LsnClock, LsnId};
use crate::codec;
use crate::codec::put_raw;
use crate::error::{Fault, IoFault, StoreError};
use crate::framing;
use crate::framing::{
    frame_record, scan_log, validate_log_header, LogHeader, CURRENT_LOG_VERSION, LOG_MAGIC,
};
use crate::memfile;
use crate::memfile::{Bytes, Disk, MemFile, Namespace};
use crate::operation;
use crate::operation::{Entry, LogRecord};
use crate::segment;
use crate::segment::{list_segments, segment_path, Seg, Segment};

verus! {

// ---------------------------------------------------------------------------
// A segment's header
// ---------------------------------------------------------------------------

/// The header of every segment of a database with pages of this size.
pub open spec fn header_of(page_size: u64) -> LogHeader {
    LogHeader { magic: LOG_MAGIC, version: CURRENT_LOG_VERSION, page_size }
}

/// Writes a segment's header where the handle is and returns its bytes.
pub fn write_log_header(file: &mut MemFile, ns: &mut Namespace, page_size: u64) -> (bytes: Vec<u8>)
    requires
        old(ns).wf(),
        old(file).is_of(old(ns)@),
        old(file).seek_pos + framing::log_header_len() <= usize::MAX,
    ensures
        final(ns).wf(),
        bytes@ == framing::enc_log_header(header_of(page_size)),
        bytes@.len() == framing::log_header_len(),
        final(file).at == old(file).at,
        final(file).seek_pos == old(file).seek_pos + framing::log_header_len(),
        final(ns)@ == old(file).updated(
            old(ns)@,
            Bytes {
                data: memfile::written(
                    old(file).of(old(ns)@).data,
                    old(file).seek_pos as nat,
                    bytes@,
                ),
                ..old(file).of(old(ns)@)
            },
        ),
{
    let header = LogHeader { magic: LOG_MAGIC, version: CURRENT_LOG_VERSION, page_size };
    let bytes = header.to_bytes();
    file.write(ns, bytes.as_slice());
    bytes
}

/// What is wrong with the beginning of a segment, if anything.
pub open spec fn header_fault(s: Seq<u8>, page_size: u64) -> Option<Fault> {
    if s.len() < framing::log_header_len() {
        Some(Fault::Io(IoFault::UnexpectedEof))
    } else if !framing::header_matches(s.take(framing::log_header_len() as int), page_size) {
        Some(
            Fault::LogHeaderMismatch(
                framing::header_problems(s.take(framing::log_header_len() as int), page_size),
            ),
        )
    } else {
        None
    }
}

/// Reads a segment's header from the start of the file and checks it against
/// the page size of the database. Leaves the handle behind the header.
pub fn read_and_validate_log_header(file: &mut MemFile, ns: &Namespace, expected_page_size: u64)
    -> (r: Result<Vec<u8>, StoreError>)
    requires
        old(file).is_of(ns@),
    ensures
        final(file).at == old(file).at,
        match r {
            Ok(bytes) => header_fault(old(file).of(ns@).data, expected_page_size) is None && bytes@
                == old(file).of(ns@).data.take(framing::log_header_len() as int)
                && final(file).seek_pos == framing::log_header_len(),
            Err(e) => header_fault(old(file).of(ns@).data, expected_page_size) == Some(e@),
        },
{
    let mut bytes: Vec<u8> = Vec::new();
    bytes.resize(LogHeader::encoded_len(), 0);
    file.seek_pos = 0;
    match file.read_exact(ns, &mut bytes) {
        Ok(()) => {},
        Err(e) => {
            return Err(e);
        },
    }
    assert(bytes@ =~= old(file).of(ns@).data.take(framing::log_header_len() as int));
    match validate_log_header(bytes.as_slice(), expected_page_size) {
        Ok(()) => Ok(bytes),
        Err(e) => Err(e),
    }
}

/// The header that is written is accepted when it is read, and only for the
/// page size that it was written for.
pub proof fn header_reads_back(page_size: u64, expected: u64, rest: Seq<u8>)
    ensures
        header_fault(framing::enc_log_header(header_of(page_size)) + rest, expected) is None
            <==> page_size == expected,
{
    let h = framing::enc_log_header(header_of(page_size));
    framing::log_header_round_trip(header_of(page_size), Seq::empty());
    assert(h + Seq::<u8>::empty() =~= h);
    assert((h + rest).take(framing::log_header_len() as int) =~= h);
}

// ---------------------------------------------------------------------------
// The state of the log
// ---------------------------------------------------------------------------

/// The most messages that one batch takes.
pub const MAX_LOG_BATCH: usize = 256;

/// A message to the log.
#[derive(Debug)]
pub enum LogMsg {
    /// Append this record.
    Record(LogRecord),
    /// Write what is queued, and stop.
    ShutDown,
    /// Answer once everything queued before is durable.
    Sync,
    /// Start a new segment and drop the older ones that nothing at or above
    /// the floor is in.
    Roll(u64),
}

/// A message that is no record: it ends a batch.
#[derive(Debug, Clone, Copy, PartialEq, Eq, Structural)]
pub enum Control {
    ShutDown,
    Sync,
    Roll(u64),
}

/// A message, as values.
pub enum Msg {
    Record(Entry),
    Other(Control),
}

impl View for LogMsg {
    type V = Msg;

    open spec fn view(&self) -> Msg {
        match *self {
            LogMsg::Record(r) => Msg::Record(r@),
            LogMsg::ShutDown => Msg::Other(Control::ShutDown),
            LogMsg::Sync => Msg::Other(Control::Sync),
            LogMsg::Roll(floor) => Msg::Other(Control::Roll(floor)),
        }
    }
}

/// Everything that is known about the segments of an open log.
pub struct WalState {
    /// A handle to the newest segment.
    pub file: MemFile,
    /// The name of the database.
    pub name: String,
    /// The newest segment: the one that is appended to.
    pub current: Segment,
    /// The segments before it, oldest first.
    pub older: Vec<Segment>,
    /// What every segment begins with.
    pub header_bytes: Vec<u8>,
    /// The size of the newest segment.
    pub segment_bytes: u64,
    /// Did the last batch hold more than one record? Then waiting for company
    /// before the next sync is worth it.
    pub had_concurrency: bool,
}

/// The state of a log, as values.
#[verifier::ext_equal]
pub struct Wal {
    pub at: usize,
    pub name: Seq<char>,
    pub current: Seg,
    pub older: Seq<Seg>,
    pub header: Seq<u8>,
    pub segment_bytes: u64,
    pub had_concurrency: bool,
}

/// Segments as values.
pub open spec fn segs(s: Seq<Segment>) -> Seq<Seg> {
    s.map_values(|x: Segment| x@)
}

impl View for WalState {
    type V = Wal;

    open spec fn view(&self) -> Wal {
        Wal {
            at: self.file.at,
            name: self.name@,
            current: self.current@,
            older: segs(self.older@),
            header: self.header_bytes@,
            segment_bytes: self.segment_bytes,
            had_concurrency: self.had_concurrency,
        }
    }
}

/// A log, the files that it is in, and how far it is durable.
#[verifier::ext_equal]
pub struct Log {
    pub wal: Wal,
    pub disk: Disk,
    pub written: u64,
}

/// The segments with their numbers and names, oldest first.
pub open spec fn seg_pairs(s: Seq<Seg>) -> Seq<(u64, Seq<char>)> {
    s.map_values(|x: Seg| (x.n, x.path))
}

/// Does the state fit the files? The newest segment is the file that its name
/// stands for, of the size that is kept, and the segments are all that the
/// files hold of this log.
pub open spec fn fits(w: Wal, d: Disk) -> bool {
    &&& w.at < d.files.len()
    &&& w.segment_bytes == d.files[w.at as int].data.len()
    &&& w.current.path == segment::path_text(w.name, w.current.n)
    &&& d.names.dom().contains(w.current.path)
    &&& d.names[w.current.path] == w.at
    &&& segment::lists_segments(d, w.name, seg_pairs(w.older.push(w.current)))
}

/// The highest sequence number of records, or `floor` if none is higher.
pub open spec fn top_lsn(floor: u64, es: Seq<Entry>) -> u64
    decreases es.len(),
{
    if es.len() == 0 {
        floor
    } else {
        clock::larger(top_lsn(floor, es.drop_last()), es.last().lsn.0)
    }
}

/// The log after a batch of records: they are in the newest segment, and
/// durable. A batch without records changes nothing but what it says about
/// company.
pub open spec fn batched(l: Log, es: Seq<Entry>) -> Log {
    let quiet = Wal { had_concurrency: es.len() > 1, ..l.wal };
    if es.len() == 0 {
        Log { wal: quiet, ..l }
    } else {
        let data = l.disk.files[l.wal.at as int].data + framing::log_bytes(es);
        Log {
            wal: Wal {
                segment_bytes: data.len() as u64,
                current: Seg { max_lsn: top_lsn(l.wal.current.max_lsn, es), ..l.wal.current },
                ..quiet
            },
            disk: Disk {
                files: l.disk.files.update(l.wal.at as int, Bytes { data, synced: data }),
                ..l.disk
            },
            written: top_lsn(l.written, es),
        }
    }
}

/// The segments that something at or above the floor is in.
pub open spec fn kept(s: Seq<Seg>, floor: u64) -> Seq<Seg>
    decreases s.len(),
{
    if s.len() == 0 {
        s
    } else if s.last().max_lsn < floor {
        kept(s.drop_last(), floor)
    } else {
        kept(s.drop_last(), floor).push(s.last())
    }
}

/// The names without those of the segments that go.
pub open spec fn names_kept(names: Map<Seq<char>, usize>, s: Seq<Seg>, floor: u64) -> Map<
    Seq<char>,
    usize,
>
    decreases s.len(),
{
    if s.len() == 0 {
        names
    } else if s.last().max_lsn < floor {
        names_kept(names, s.drop_last(), floor).remove(s.last().path)
    } else {
        names_kept(names, s.drop_last(), floor)
    }
}

/// The log after a roll: a new segment that holds only its header is the
/// newest, and of those before it only the ones are left that something at or
/// above the floor is in.
pub open spec fn rolled(l: Log, floor: u64) -> Log {
    let n = (l.wal.current.n + 1) as u64;
    let path = segment::path_text(l.wal.name, n);
    let at = l.disk.files.len() as usize;
    let before = l.wal.older.push(Seg { bytes: l.wal.segment_bytes, ..l.wal.current });
    Log {
        wal: Wal {
            at,
            current: Seg { n, path, max_lsn: 0, bytes: l.wal.header.len() as u64 },
            older: kept(before, floor),
            segment_bytes: l.wal.header.len() as u64,
            ..l.wal
        },
        disk: Disk {
            files: l.disk.files.push(Bytes { data: l.wal.header, synced: l.wal.header }),
            names: names_kept(l.disk.names.insert(path, at), before, floor),
        },
        ..l
    }
}

/// How many of the messages from `from` on are records, before the first that
/// is none, and no more than fit a batch.
pub open spec fn batch_len(msgs: Seq<Msg>, from: nat) -> nat {
    leading(msgs, from, MAX_LOG_BATCH as nat)
}

/// How many of the messages from `from` on are records, at most `most`.
pub open spec fn leading(msgs: Seq<Msg>, from: nat, most: nat) -> nat
    decreases most,
{
    if most == 0 || from >= msgs.len() || !(msgs[from as int] is Record) {
        0
    } else {
        1 + leading(msgs, from + 1, (most - 1) as nat)
    }
}

/// The messages that count are there, and all are records.
pub proof fn leading_bound(msgs: Seq<Msg>, from: nat, most: nat)
    ensures
        from <= msgs.len() ==> from + leading(msgs, from, most) <= msgs.len(),
        leading(msgs, from, most) <= most,
        forall|i: int|
            from <= i < from + leading(msgs, from, most) ==> (#[trigger] msgs[i]) is Record,
        leading(msgs, from, most) < most && from + leading(msgs, from, most) < msgs.len() ==> !(
        msgs[(from + leading(msgs, from, most)) as int] is Record),
    decreases most,
{
    if most > 0 && from < msgs.len() && msgs[from as int] is Record {
        leading_bound(msgs, from + 1, (most - 1) as nat);
    }
}

/// The records among messages that are all records.
pub open spec fn records_of(msgs: Seq<Msg>) -> Seq<Entry> {
    msgs.map_values(|m: Msg| m->Record_0)
}

/// The message that ends the batch from `from` on, if it is not full before.
pub open spec fn control_at(msgs: Seq<Msg>, from: nat) -> Option<Control> {
    let k = batch_len(msgs, from);
    if k < MAX_LOG_BATCH && from + k < msgs.len() {
        Some(msgs[(from + k) as int]->Other_0)
    } else {
        None
    }
}

/// The log after the messages from `from` on, up to a shutdown.
pub open spec fn ran(l: Log, msgs: Seq<Msg>, from: nat) -> Log
    decreases msgs.len() - from,
{
    if from >= msgs.len() {
        l
    } else {
        proof {
            leading_bound(msgs, from, MAX_LOG_BATCH as nat);
        }
        let k = batch_len(msgs, from);
        let next = batched(l, records_of(msgs.subrange(from as int, (from + k) as int)));
        match control_at(msgs, from) {
            Some(Control::ShutDown) => next,
            Some(Control::Sync) => ran(next, msgs, from + k + 1),
            Some(Control::Roll(floor)) => ran(rolled(next, floor), msgs, from + k + 1),
            None => ran(next, msgs, from + k),
        }
    }
}

/// More records go behind those that are there.
pub proof fn log_bytes_join(a: Seq<Entry>, b: Seq<Entry>)
    ensures
        framing::log_bytes(a + b) == framing::log_bytes(a) + framing::log_bytes(b),
    decreases a.len(),
{
    if a.len() == 0 {
        assert(a + b =~= b);
        assert(framing::log_bytes(a) + framing::log_bytes(b) =~= framing::log_bytes(b));
    } else {
        let rest = a.skip(1);
        log_bytes_join(rest, b);
        assert((a + b).skip(1) =~= rest + b);
        codec::regroup(
            framing::frame(operation::enc_entry(a[0])),
            framing::log_bytes(rest),
            framing::log_bytes(b),
        );
    }
}

/// One record's bytes.
proof fn log_bytes_one(e: Entry)
    ensures
        framing::log_bytes(seq![e]) == framing::frame(operation::enc_entry(e)),
{
    let s = seq![e];
    assert(s.skip(1) =~= seq![]);
    assert(framing::log_bytes(s.skip(1)) =~= seq![]);
    assert(framing::log_bytes(s) =~= framing::frame(operation::enc_entry(e)));
}

/// What a batch came to: where the next one begins, and the message that
/// ended it.
pub struct Batch {
    pub next: usize,
    pub control: Option<Control>,
}

/// The messages as values.
pub open spec fn msg_views(s: Seq<LogMsg>) -> Seq<Msg> {
    s.map_values(|m: LogMsg| m@)
}

impl WalState {
    /// The log that this is the state of.
    pub open spec fn log(&self, d: Disk, c: LsnClock) -> Log {
        Log { wal: self@, disk: d, written: c.last_written }
    }

    /// Writes one batch: the records from `from` on, up to the first message
    /// that is none, are appended to the newest segment and made durable with
    /// one sync. Only then do their numbers count as written.
    pub fn run_batch(
        &mut self,
        ns: &mut Namespace,
        clock: &mut LsnClock,
        queue: &Vec<LogMsg>,
        from: usize,
    ) -> (b: Batch)
        requires
            old(ns).wf(),
            fits(old(self)@, old(ns)@),
            from < queue@.len(),
        ensures
            final(ns).wf(),
            fits(final(self)@, final(ns)@),
            ({
                let msgs = msg_views(queue@);
                let k = batch_len(msgs, from as nat);
                &&& final(self).log(final(ns)@, *final(clock)) == batched(
                    old(self).log(old(ns)@, *old(clock)),
                    records_of(msgs.subrange(from as int, (from + k) as int)),
                )
                &&& b.control == control_at(msgs, from as nat)
                &&& b.next == from + k + if b.control is Some {
                    1int
                } else {
                    0
                }
                &&& from < b.next <= queue@.len()
            }),
            final(clock).counter == old(clock).counter,
    {
        let ghost msgs = msg_views(queue@);
        let ghost k = batch_len(msgs, from as nat);
        proof {
            leading_bound(msgs, from as nat, MAX_LOG_BATCH as nat);
        }
        let mut batch: Vec<u8> = Vec::new();
        let mut count: usize = 0;
        let mut highest: Option<u64> = None;
        let mut control: Option<Control> = None;
        let mut at: usize = from;
        proof {
            assert(msgs.subrange(from as int, from as int) =~= seq![]);
            assert(records_of(seq![]) =~= seq![]);
        }
        while count < MAX_LOG_BATCH && at < queue.len() && control.is_none()
            invariant
                msgs == msg_views(queue@),
                from <= at <= queue@.len(),
                count <= MAX_LOG_BATCH,
                k == batch_len(msgs, from as nat),
                count <= k,
                k == count + leading(msgs, (from + count) as nat, (MAX_LOG_BATCH - count) as nat),
                at == from + count + if control is Some {
                    1int
                } else {
                    0
                },
                control is Some ==> count == k && control == control_at(msgs, from as nat),
                control is None ==> (at < queue@.len() || count == k),
                batch@ == framing::log_bytes(
                    records_of(msgs.subrange(from as int, from + count)),
                ),
                match highest {
                    Some(h) => count > 0 && forall|f: u64| #[trigger]
                        top_lsn(f, records_of(msgs.subrange(from as int, from + count)))
                            == clock::larger(f, h),
                    None => count == 0,
                },
            decreases queue@.len() - at,
        {
            assert(msgs[at as int] == queue@[at as int]@);
            match &queue[at] {
                LogMsg::ShutDown => {
                    control = Some(Control::ShutDown);
                },
                LogMsg::Sync => {
                    control = Some(Control::Sync);
                },
                LogMsg::Roll(floor) => {
                    control = Some(Control::Roll(*floor));
                },
                LogMsg::Record(rec) => {
                    let ghost done = records_of(msgs.subrange(from as int, from + count));
                    let ghost e = rec@;
                    proof {
                        let more = records_of(msgs.subrange(from as int, from + count + 1));
                        assert(more =~= done.push(e));
                        assert(done.push(e) =~= done + seq![e]);
                        assert(done.push(e).drop_last() =~= done);
                        log_bytes_join(done, seq![e]);
                        log_bytes_one(e);
                    }
                    highest =
                    match highest {
                        Some(h) => if h >= rec.lsn.0 {
                            Some(h)
                        } else {
                            Some(rec.lsn.0)
                        },
                        None => Some(rec.lsn.0),
                    };
                    let payload = rec.to_bytes();
                    let framed = frame_record(payload.as_slice());
                    put_raw(&mut batch, framed.as_slice());
                    count = count + 1;
                    proof {
                        assert forall|f: u64| #[trigger]
                            top_lsn(
                                f,
                                records_of(msgs.subrange(from as int, from + count)),
                            ) == clock::larger(f, highest->0) by {
                            assert(top_lsn(f, done.push(e)) == clock::larger(
                                top_lsn(f, done),
                                e.lsn.0,
                            ));
                        }
                    }
                },
            }
            at = at + 1;
            assert(msgs.len() == queue@.len());
            assert(control is None && at == queue@.len() ==> leading(
                msgs,
                at as nat,
                (MAX_LOG_BATCH - count) as nat,
            ) == 0);
        }
        let ghost es = records_of(msgs.subrange(from as int, from + count));
        assert(count == k);
        self.had_concurrency = count > 1;
        match highest {
            Some(h) => {
                self.file.append(ns, batch.as_slice());
                self.file.do_sync(ns);
                self.segment_bytes = self.file.get_metadata(ns).len;
                if self.current.max_lsn < h {
                    self.current.max_lsn = h;
                }
                clock.mark_written(LsnId(h));
                proof {
                    let l = old(self).log(old(ns)@, *old(clock));
                    assert(top_lsn(l.wal.current.max_lsn, es) == clock::larger(
                        l.wal.current.max_lsn,
                        h,
                    ));
                    assert(top_lsn(l.written, es) == clock::larger(l.written, h));
                    assert(ns@ =~= batched(l, es).disk);
                    assert(self@ =~= batched(l, es).wal);
                }
            },
            None => {
                assert(self@ =~= batched(old(self).log(old(ns)@, *old(clock)), es).wal);
            },
        }
        proof {
            assert(seg_pairs(self@.older.push(self@.current)) =~= seg_pairs(
                old(self)@.older.push(old(self)@.current),
            ));
            assert forall|x: (u64, Seq<char>)| #[trigger]
                seg_pairs(self@.older.push(self@.current)).contains(x) <==> segment::is_segment(
                    ns@,
                    self@.name,
                    x,
                ) by {
                assert(segment::is_segment(old(ns)@, self@.name, x) <==> segment::is_segment(
                    ns@,
                    self@.name,
                    x,
                ));
            }
        }
        Batch { next: at, control }
    }

    /// Starts a new segment and makes it the newest, then drops every older
    /// one that nothing at or above the floor is in. The new segment is
    /// durable before the old one stops being the newest, so a power cut in
    /// between leaves at worst one more segment that is empty.
    pub fn roll(&mut self, ns: &mut Namespace, floor: u64)
        requires
            old(ns).wf(),
            fits(old(self)@, old(ns)@),
            old(self).current.n < u64::MAX,
        ensures
            final(ns).wf(),
            fits(final(self)@, final(ns)@),
            forall|c: LsnClock|
                final(self).log(final(ns)@, c) == rolled(
                    #[trigger] old(self).log(old(ns)@, c),
                    floor,
                ),
    {
        let ghost l = old(self).log(old(ns)@, LsnClock { counter: 0, last_written: 0 });
        let n: u64 = self.current.n + 1;
        let path = segment_path(self.name.as_str(), n);
        proof {
            next_is_free(self@, ns@, n);
        }
        let mut f = self.file.open_sibling(ns, path.as_str());
        f.append(ns, self.header_bytes.as_slice());
        f.do_sync(ns);
        let ghost new_path = path@;
        let header_size: u64 = self.header_bytes.len() as u64;
        let mut previous = Segment { n, path, max_lsn: 0, bytes: header_size };
        std::mem::swap(&mut self.current, &mut previous);
        previous.bytes = self.segment_bytes;
        self.file = f;
        let ghost before = segs(self.older@).push(previous@);
        self.older.push(previous);
        self.segment_bytes = header_size;
        let ghost names0 = ns@.names;
        let ghost files0 = ns@.files;
        proof {
            assert(segs(self.older@) =~= before);
            assert(Seq::<u8>::empty() + self.header_bytes@ =~= self.header_bytes@);
            assert(files0 =~= l.disk.files.push(
                Bytes { data: l.wal.header, synced: l.wal.header },
            ));
            assert(names0 == l.disk.names.insert(new_path, f.at));
        }
        // One rule: a segment goes when nothing at or above the floor is in
        // it.
        let mut older: Vec<Segment> = Vec::new();
        std::mem::swap(&mut older, &mut self.older);
        let mut keep: Vec<Segment> = Vec::new();
        let count: usize = older.len();
        let mut done: usize = 0;
        proof {
            assert(before.take(0) =~= seq![]);
            assert(segs(older@).skip(0) =~= before.skip(0));
            assert(segs(keep@) =~= seq![]);
        }
        while done < count
            invariant
                ns.wf(),
                done <= count,
                count == before.len(),
                segs(older@) == before.skip(done as int),
                segs(keep@) == kept(before.take(done as int), floor),
                ns@.files == files0,
                ns@.names == names_kept(names0, before.take(done as int), floor),
                self.file == f,
                self.current@ == (Seg {
                    n,
                    path: new_path,
                    max_lsn: 0,
                    bytes: header_size,
                }),
                self.name == old(self).name,
                self.header_bytes == old(self).header_bytes,
                self.segment_bytes == header_size,
                self.had_concurrency == old(self).had_concurrency,
            decreases count - done,
        {
            let ghost was = segs(older@);
            assert(was.len() == older@.len());
            assert(was[0] == older@[0]@);
            let seg = older.remove(0);
            proof {
                assert(seg@ == was[0]);
                assert(was[0] == before[done as int]);
                assert(before.take(done + 1).drop_last() =~= before.take(done as int));
                assert(before.take(done + 1).last() == before[done as int]);
                assert(segs(older@) =~= was.skip(1));
                assert(was.skip(1) =~= before.skip(done + 1));
            }
            if seg.max_lsn < floor {
                f.remove_sibling(ns, seg.path.as_str());
            } else {
                let ghost kept_so_far = segs(keep@);
                let ghost this = seg@;
                keep.push(seg);
                assert(segs(keep@) =~= kept_so_far.push(this));
            }
            done = done + 1;
        }
        assert(before.take(before.len() as int) =~= before);
        self.older = keep;
        proof {
            assert forall|c: LsnClock| self.log(ns@, c) == rolled(
                #[trigger] old(self).log(old(ns)@, c),
                floor,
            ) by {
                let want = rolled(old(self).log(old(ns)@, c), floor);
                assert(self@ =~= want.wal);
                assert(ns@ =~= want.disk);
            }
            rolled_fits(l, floor);
            assert(self@ =~= rolled(l, floor).wal);
            assert(ns@ =~= rolled(l, floor).disk);
        }
    }
}

/// Runs the log on the messages that are queued, in order, until there are no
/// more or one says to stop. Returns whether one did.
pub fn log_runner(
    st: &mut WalState,
    ns: &mut Namespace,
    clock: &mut LsnClock,
    queue: &Vec<LogMsg>,
) -> (stopped: bool)
    requires
        old(ns).wf(),
        fits(old(st)@, old(ns)@),
        old(st).current.n + rolls(msg_views(queue@), 0) <= u64::MAX,
    ensures
        final(ns).wf(),
        fits(final(st)@, final(ns)@),
        final(st).log(final(ns)@, *final(clock)) == ran(
            old(st).log(old(ns)@, *old(clock)),
            msg_views(queue@),
            0,
        ),
        final(clock).counter == old(clock).counter,
        stopped == stops(msg_views(queue@), 0),
{
    let ghost msgs = msg_views(queue@);
    let ghost l0 = st.log(ns@, *clock);
    let mut next: usize = 0;
    while next < queue.len()
        invariant
            ns.wf(),
            fits(st@, ns@),
            msgs == msg_views(queue@),
            next <= queue@.len(),
            st.current.n + rolls(msgs, next as nat) <= u64::MAX,
            ran(l0, msgs, 0) == ran(st.log(ns@, *clock), msgs, next as nat),
            stops(msgs, 0) == stops(msgs, next as nat),
            clock.counter == old(clock).counter,
            l0 == old(st).log(old(ns)@, *old(clock)),
        decreases queue@.len() - next,
    {
        let ghost l = st.log(ns@, *clock);
        let b = st.run_batch(ns, clock, queue, next);
        match b.control {
            Some(Control::ShutDown) => {
                return true;
            },
            Some(Control::Sync) => {},
            Some(Control::Roll(floor)) => {
                let ghost mid = st.log(ns@, *clock);
                st.roll(ns, floor);
                assert(st.log(ns@, *clock) == rolled(mid, floor));
            },
            None => {},
        }
        next = b.next;
    }
    false
}

/// Records as messages to the log.
pub open spec fn record_msgs(es: Seq<Entry>) -> Seq<Msg> {
    es.map_values(|e: Entry| Msg::Record(e))
}

/// Makes messages of records.
pub fn messages(records: Vec<LogRecord>) -> (queue: Vec<LogMsg>)
    ensures
        msg_views(queue@) == record_msgs(operation::entries(records@)),
{
    let mut queue: Vec<LogMsg> = Vec::new();
    for r in it: records
        invariant
            queue@.len() == it.index(),
            it.seq() == records@,
            forall|j: int|
                0 <= j < queue@.len() ==> (#[trigger] queue@[j])@ == Msg::Record(records@[j]@),
    {
        queue.push(LogMsg::Record(r));
    }
    assert(msg_views(queue@) =~= record_msgs(operation::entries(records@)));
    queue
}

/// Records alone start no new segment and stop nothing.
pub proof fn records_only(es: Seq<Entry>, from: nat)
    ensures
        rolls(record_msgs(es), from) == 0,
        !stops(record_msgs(es), from),
    decreases es.len() - from,
{
    let msgs = record_msgs(es);
    if from < msgs.len() {
        leading_bound(msgs, from, MAX_LOG_BATCH as nat);
        let k = batch_len(msgs, from);
        assert(msgs[from as int] is Record);
        reveal_with_fuel(leading, 2);
        if k < MAX_LOG_BATCH && from + k < msgs.len() {
            assert(msgs[(from + k) as int] is Record);
        }
        assert(control_at(msgs, from) is None);
        assert(k > 0);
        records_only(es, from + k);
    }
}

/// The highest number is below a bound on all of them.
pub proof fn top_lsn_bound(floor: u64, es: Seq<Entry>, bound: u64)
    requires
        floor < bound,
        forall|i: int| 0 <= i < es.len() ==> (#[trigger] es[i]).lsn.0 < bound,
    ensures
        floor <= top_lsn(floor, es) < bound,
        forall|i: int| 0 <= i < es.len() ==> (#[trigger] es[i]).lsn.0 <= top_lsn(floor, es),
    decreases es.len(),
{
    if es.len() > 0 {
        let front = es.drop_last();
        assert forall|i: int| 0 <= i < front.len() implies (#[trigger] front[i]).lsn.0 < bound by {
            assert(es[i].lsn.0 < bound);
        }
        top_lsn_bound(floor, front, bound);
        assert(es[es.len() - 1].lsn.0 < bound);
        assert forall|i: int| 0 <= i < es.len() implies (#[trigger] es[i]).lsn.0 <= top_lsn(
            floor,
            es,
        ) by {
            if i < front.len() {
                assert(front[i].lsn.0 <= top_lsn(floor, front));
            }
        }
    }
}

/// The highest number of records goes over those that come behind.
pub proof fn top_lsn_join(floor: u64, a: Seq<Entry>, b: Seq<Entry>)
    ensures
        top_lsn(floor, a + b) == top_lsn(top_lsn(floor, a), b),
    decreases b.len(),
{
    if b.len() == 0 {
        assert(a + b =~= a);
    } else {
        assert((a + b).drop_last() =~= a + b.drop_last());
        top_lsn_join(floor, a, b.drop_last());
    }
}

/// A batch leaves the state in step with the files.
pub proof fn batched_fits(l: Log, es: Seq<Entry>)
    requires
        fits(l.wal, l.disk),
        batched(l, es).disk.files[l.wal.at as int].data.len() <= u64::MAX,
    ensures
        fits(batched(l, es).wal, batched(l, es).disk),
{
    let b = batched(l, es);
    assert(seg_pairs(b.wal.older.push(b.wal.current)) =~= seg_pairs(
        l.wal.older.push(l.wal.current),
    ));
    assert forall|x: (u64, Seq<char>)| #[trigger]
        seg_pairs(b.wal.older.push(b.wal.current)).contains(x) <==> segment::is_segment(
            b.disk,
            b.wal.name,
            x,
        ) by {
        assert(segment::is_segment(l.disk, l.wal.name, x) <==> segment::is_segment(
            b.disk,
            b.wal.name,
            x,
        ));
    }
}

/// Two batches leave what one leaves, but for what it says about company.
proof fn batches_join(l: Log, a: Seq<Entry>, b: Seq<Entry>)
    requires
        l.wal.at < l.disk.files.len(),
    ensures
        ({
            let two = batched(batched(l, a), b);
            let one = batched(l, a + b);
            &&& two.disk == one.disk
            &&& two.written == one.written
            &&& two.wal == (Wal { had_concurrency: two.wal.had_concurrency, ..one.wal })
        }),
{
    log_bytes_join(a, b);
    top_lsn_join(l.wal.current.max_lsn, a, b);
    top_lsn_join(l.written, a, b);
    let two = batched(batched(l, a), b);
    let one = batched(l, a + b);
    if a.len() == 0 {
        assert(a + b =~= b);
    } else if b.len() == 0 {
        assert(a + b =~= a);
    } else {
        let at = l.wal.at as int;
        let d = l.disk.files[at].data;
        assert(d + framing::log_bytes(a) + framing::log_bytes(b) =~= d + (framing::log_bytes(a)
            + framing::log_bytes(b)));
        assert(two.disk.files =~= one.disk.files);
    }
}

/// However records are split into batches, they leave what one batch leaves,
/// but for what the last one says about company.
pub proof fn records_in_batches(l: Log, es: Seq<Entry>, from: nat)
    requires
        l.wal.at < l.disk.files.len(),
        from <= es.len(),
    ensures
        ({
            let many = ran(l, record_msgs(es), from);
            let one = batched(l, es.skip(from as int));
            &&& many.disk == one.disk
            &&& many.written == one.written
            &&& many.wal == (Wal { had_concurrency: many.wal.had_concurrency, ..one.wal })
        }),
    decreases es.len() - from,
{
    let msgs = record_msgs(es);
    if from < msgs.len() {
        leading_bound(msgs, from, MAX_LOG_BATCH as nat);
        let k = batch_len(msgs, from);
        assert(msgs[from as int] is Record);
        reveal_with_fuel(leading, 2);
        if k < MAX_LOG_BATCH && from + k < msgs.len() {
            assert(msgs[(from + k) as int] is Record);
        }
        assert(control_at(msgs, from) is None);
        let part = records_of(msgs.subrange(from as int, (from + k) as int));
        assert(part =~= es.subrange(from as int, (from + k) as int));
        assert(es.skip(from as int) =~= part + es.skip((from + k) as int));
        batches_join(l, part, es.skip((from + k) as int));
        records_in_batches(batched(l, part), es, from + k);
        assert(ran(l, msgs, from) == ran(batched(l, part), msgs, from + k));
    }
}

/// How many of the messages from `from` on start a new segment.
pub open spec fn rolls(msgs: Seq<Msg>, from: nat) -> nat
    decreases msgs.len() - from,
{
    if from >= msgs.len() {
        0
    } else {
        proof {
            leading_bound(msgs, from, MAX_LOG_BATCH as nat);
        }
        let k = batch_len(msgs, from);
        match control_at(msgs, from) {
            Some(Control::Roll(_)) => 1 + rolls(msgs, from + k + 1),
            Some(_) => rolls(msgs, from + k + 1),
            None => rolls(msgs, from + k),
        }
    }
}

/// Does one of the messages from `from` on say to stop?
pub open spec fn stops(msgs: Seq<Msg>, from: nat) -> bool
    decreases msgs.len() - from,
{
    if from >= msgs.len() {
        false
    } else {
        proof {
            leading_bound(msgs, from, MAX_LOG_BATCH as nat);
        }
        let k = batch_len(msgs, from);
        match control_at(msgs, from) {
            Some(Control::ShutDown) => true,
            Some(_) => stops(msgs, from + k + 1),
            None => stops(msgs, from + k),
        }
    }
}

/// The bytes that segments take together.
pub open spec fn total_bytes(s: Seq<Seg>) -> nat
    decreases s.len(),
{
    if s.len() == 0 {
        0
    } else {
        total_bytes(s.drop_last()) + s.last().bytes as nat
    }
}

/// A number, or the largest that there is.
pub open spec fn at_most_max(n: nat) -> u64 {
    if n > u64::MAX {
        u64::MAX
    } else {
        n as u64
    }
}

impl WalState {
    /// How many segments there are: those that are kept, and the newest.
    pub fn segments(&self) -> (n: usize)
        ensures
            n == if self.older@.len() < usize::MAX {
                self.older@.len() + 1
            } else {
                usize::MAX as nat
            },
    {
        self.older.len().saturating_add(1)
    }

    /// The number of the newest segment.
    pub fn current_segment(&self) -> (n: u64)
        ensures
            n == self@.current.n,
    {
        self.current.n
    }

    /// The bytes of all segments: what long-lived transactions cost.
    pub fn retained_wal_bytes(&self) -> (n: u64)
        ensures
            n == at_most_max(total_bytes(self@.older) + self@.segment_bytes as nat),
    {
        let ghost all = segs(self.older@);
        let mut sum: u64 = 0;
        for i in 0..self.older.len()
            invariant
                all == segs(self.older@),
                sum == at_most_max(total_bytes(all.take(i as int))),
        {
            sum = sum.saturating_add(self.older[i].bytes);
            proof {
                assert(all.take(i + 1).drop_last() =~= all.take(i as int));
                assert(all.take(i + 1).last() == all[i as int]);
            }
        }
        assert(all.take(all.len() as int) =~= all);
        sum.saturating_add(self.segment_bytes)
    }
}

/// No file is named like a segment that is yet to come.
pub proof fn next_is_free(w: Wal, d: Disk, n: u64)
    requires
        segment::lists_segments(d, w.name, seg_pairs(w.older.push(w.current))),
        n > w.current.n,
    ensures
        !d.names.dom().contains(segment::path_text(w.name, n)),
{
    let path = segment::path_text(w.name, n);
    segment::path_gives_number(w.name, n);
    if d.names.dom().contains(path) {
        let all = seg_pairs(w.older.push(w.current));
        assert(segment::is_segment(d, w.name, (n, path)));
        assert(all.contains((n, path)));
        let i = choose|i: int| 0 <= i < all.len() && all[i] == (n, path);
        assert(all[all.len() - 1] == (w.current.n, w.current.path));
        if i < all.len() - 1 {
            assert(segment::before(all[i], all[all.len() - 1]));
        }
    }
}

/// Something at or above the floor is in every segment that is kept.
pub proof fn kept_at_floor(s: Seq<Seg>, floor: u64)
    ensures
        forall|i: int| 0 <= i < kept(s, floor).len() ==> (#[trigger] kept(s, floor)[i]).max_lsn
            >= floor,
    decreases s.len(),
{
    if s.len() > 0 {
        let front = kept(s.drop_last(), floor);
        kept_at_floor(s.drop_last(), floor);
        assert forall|i: int| 0 <= i < kept(s, floor).len() implies (#[trigger] kept(
            s,
            floor,
        )[i]).max_lsn >= floor by {
            if i < front.len() {
                assert(kept(s, floor)[i] == front[i]);
            }
        }
    }
}

/// The segments that are kept are those with something at or above the floor,
/// in the order they were in.
proof fn kept_facts(s: Seq<Seg>, floor: u64)
    requires
        segment::ordered(seg_pairs(s)),
    ensures
        segment::ordered(seg_pairs(kept(s, floor))),
        forall|x: Seg| #[trigger]
            kept(s, floor).contains(x) <==> s.contains(x) && x.max_lsn >= floor,
    decreases s.len(),
{
    if s.len() > 0 {
        let front = s.drop_last();
        assert forall|i: int, j: int| 0 <= i < j < seg_pairs(front).len() implies segment::before(
            #[trigger] seg_pairs(front)[i],
            #[trigger] seg_pairs(front)[j],
        ) by {
            assert(seg_pairs(s)[i] == seg_pairs(front)[i]);
            assert(seg_pairs(s)[j] == seg_pairs(front)[j]);
        }
        kept_facts(front, floor);
        let k = kept(front, floor);
        let r = kept(s, floor);
        assert forall|x: Seg| #[trigger] r.contains(x) <==> s.contains(x) && x.max_lsn
            >= floor by {
            assert(k.contains(x) <==> front.contains(x) && x.max_lsn >= floor);
            if r.contains(x) {
                let i = choose|i: int| 0 <= i < r.len() && r[i] == x;
                if i < k.len() {
                    assert(k[i] == x);
                    let j = choose|j: int| 0 <= j < front.len() && front[j] == x;
                    assert(s[j] == x);
                } else {
                    assert(s[s.len() - 1] == x);
                }
            }
            if s.contains(x) && x.max_lsn >= floor {
                let i = choose|i: int| 0 <= i < s.len() && s[i] == x;
                if i < front.len() {
                    assert(front[i] == x);
                    let j = choose|j: int| 0 <= j < k.len() && k[j] == x;
                    assert(r[j] == x);
                } else {
                    assert(r[k.len() as int] == x);
                }
            }
        }
        assert forall|i: int, j: int| 0 <= i < j < seg_pairs(r).len() implies segment::before(
            #[trigger] seg_pairs(r)[i],
            #[trigger] seg_pairs(r)[j],
        ) by {
            assert(seg_pairs(k)[i] == seg_pairs(r)[i]);
            if j < k.len() {
                assert(seg_pairs(k)[j] == seg_pairs(r)[j]);
            } else {
                assert(k.contains(k[i]));
                assert(front.contains(k[i]));
                let m = choose|m: int| 0 <= m < front.len() && front[m] == k[i];
                assert(segment::before(seg_pairs(s)[m], seg_pairs(s)[s.len() - 1]));
            }
        }
    }
}

/// A roll leaves the state in step with the files.
proof fn rolled_fits(l: Log, floor: u64)
    requires
        fits(l.wal, l.disk),
        l.wal.current.n < u64::MAX,
        l.disk.files.len() <= usize::MAX,
        l.wal.header.len() <= u64::MAX,
    ensures
        fits(rolled(l, floor).wal, rolled(l, floor).disk),
{
    let n = (l.wal.current.n + 1) as u64;
    let path = segment::path_text(l.wal.name, n);
    let at = l.disk.files.len() as usize;
    let before = l.wal.older.push(Seg { bytes: l.wal.segment_bytes, ..l.wal.current });
    let r = rolled(l, floor);
    let prefix = segment::prefix_text(l.wal.name);
    let was = seg_pairs(l.wal.older.push(l.wal.current));
    let names = l.disk.names.insert(path, at);
    let now = seg_pairs(r.wal.older.push(r.wal.current));
    next_is_free(l.wal, l.disk, n);
    segment::path_gives_number(l.wal.name, n);
    assert(seg_pairs(before) =~= was);
    kept_facts(before, floor);
    names_kept_facts(names, before, floor);
    // Every segment that was there has its number and lies before the new one.
    assert forall|i: int| 0 <= i < before.len() implies segment::number_of(
        prefix,
        (#[trigger] before[i]).path,
    ) == Some(before[i].n) && before[i].n < n && l.disk.names.dom().contains(before[i].path) by {
        assert(was[i] == (before[i].n, before[i].path));
        assert(was.contains(was[i]));
        assert(segment::is_segment(l.disk, l.wal.name, was[i]));
        if i < before.len() - 1 {
            assert(segment::before(was[i], was[was.len() - 1]));
        }
    }
    let k = r.wal.older;
    assert(now =~= seg_pairs(k).push((n, path)));
    assert forall|i: int, j: int| 0 <= i < j < now.len() implies segment::before(
        #[trigger] now[i],
        #[trigger] now[j],
    ) by {
        assert(now[i] == seg_pairs(k)[i]);
        if j < k.len() {
            assert(now[j] == seg_pairs(k)[j]);
        } else {
            assert(k.contains(k[i]));
            let m = choose|m: int| 0 <= m < before.len() && before[m] == k[i];
            assert(before[m].n < n);
        }
    }
    assert forall|x: (u64, Seq<char>)| #[trigger] now.contains(x) <==> segment::is_segment(
        r.disk,
        l.wal.name,
        x,
    ) by {
        if now.contains(x) {
            let i = choose|i: int| 0 <= i < now.len() && now[i] == x;
            if i < k.len() {
                assert(k.contains(k[i]));
                assert(before.contains(k[i]));
                let m = choose|m: int| 0 <= m < before.len() && before[m] == k[i];
                assert(before[m].path == x.1);
                if exists|j: int|
                    0 <= j < before.len() && (#[trigger] before[j]).path == x.1
                        && before[j].max_lsn < floor {
                    let j = choose|j: int|
                        0 <= j < before.len() && (#[trigger] before[j]).path == x.1
                            && before[j].max_lsn < floor;
                    // The same name has the same number, and occurs once.
                    assert(was[j] == was[m]);
                    segment::before_total(was[j], was[m]);
                    assert(j == m);
                }
                assert(names.dom().contains(x.1));
                assert(r.disk.names.dom().contains(x.1));
            } else {
                assert(x == (n, path));
                assert(r.disk.names.dom().contains(path));
            }
        }
        if segment::is_segment(r.disk, l.wal.name, x) {
            assert(names.dom().contains(x.1));
            if x.1 == path {
                assert(now[k.len() as int] == x);
            } else {
                assert(segment::is_segment(l.disk, l.wal.name, x));
                assert(was.contains(x));
                let m = choose|m: int| 0 <= m < was.len() && was[m] == x;
                assert(before[m].path == x.1);
                assert(before[m].max_lsn >= floor);
                assert(before.contains(before[m]));
                assert(k.contains(before[m]));
                let i = choose|i: int| 0 <= i < k.len() && k[i] == before[m];
                assert(now[i] == x);
            }
        }
    }
    assert(r.disk.names.dom().contains(path));
    assert(r.disk.files[at as int] == (Bytes { data: l.wal.header, synced: l.wal.header }));
}

/// Dropping names only takes away those of the segments that go.
pub proof fn names_kept_facts(names: Map<Seq<char>, usize>, s: Seq<Seg>, floor: u64)
    ensures
        forall|p: Seq<char>| #[trigger]
            names_kept(names, s, floor).dom().contains(p) <==> names.dom().contains(p) && !(exists|
                i: int,
            |
                0 <= i < s.len() && (#[trigger] s[i]).path == p && s[i].max_lsn < floor),
        forall|p: Seq<char>| #[trigger]
            names_kept(names, s, floor).dom().contains(p) ==> names_kept(names, s, floor)[p]
                == names[p],
    decreases s.len(),
{
    if s.len() > 0 {
        let front = s.drop_last();
        names_kept_facts(names, front, floor);
        let m = names_kept(names, front, floor);
        assert forall|p: Seq<char>| #[trigger]
            names_kept(names, s, floor).dom().contains(p) <==> names.dom().contains(p) && !(exists|
                i: int,
            |
                0 <= i < s.len() && (#[trigger] s[i]).path == p && s[i].max_lsn < floor) by {
            let _ = m.dom().contains(p);
            if exists|i: int|
                0 <= i < front.len() && (#[trigger] front[i]).path == p && front[i].max_lsn
                    < floor {
                let i = choose|i: int|
                    0 <= i < front.len() && (#[trigger] front[i]).path == p && front[i].max_lsn
                        < floor;
                assert(s[i].path == p);
            }
            if exists|i: int|
                0 <= i < s.len() && (#[trigger] s[i]).path == p && s[i].max_lsn < floor {
                let i = choose|i: int|
                    0 <= i < s.len() && (#[trigger] s[i]).path == p && s[i].max_lsn < floor;
                if i < front.len() {
                    assert(front[i].path == p);
                }
            }
            if s.last().max_lsn < floor {
                assert(s[s.len() - 1].path == s.last().path);
            }
        }
        assert forall|p: Seq<char>| #[trigger]
            names_kept(names, s, floor).dom().contains(p) implies names_kept(names, s, floor)[p]
            == names[p] by {
            let _ = m.dom().contains(p);
        }
    }
}

// ---------------------------------------------------------------------------
// Opening a log
// ---------------------------------------------------------------------------

/// What recovery makes of one segment: its header has to match, and then its
/// records are scanned.
pub open spec fn segment_scan(d: Disk, page_size: u64, path: Seq<char>) -> Result<
    Seq<Entry>,
    Fault,
> {
    let data = d.files[d.names[path] as int].data;
    match header_fault(data, page_size) {
        Some(f) => Err(f),
        None => framing::scan(data.skip(framing::log_header_len() as int), 0),
    }
}

/// What recovery makes of segments, oldest first: the records of each, or
/// what is wrong with the first that something is wrong with.
pub open spec fn scan_all(d: Disk, page_size: u64, list: Seq<(u64, Seq<char>)>) -> Result<
    Seq<Seq<Entry>>,
    Fault,
>
    decreases list.len(),
{
    if list.len() == 0 {
        Ok(seq![])
    } else {
        match scan_all(d, page_size, list.drop_last()) {
            Err(f) => Err(f),
            Ok(found) => match segment_scan(d, page_size, list.last().1) {
                Err(f) => Err(f),
                Ok(es) => Ok(found.push(es)),
            },
        }
    }
}

/// The records of segments as one log.
pub open spec fn joined(parts: Seq<Seq<Entry>>) -> Seq<Entry>
    decreases parts.len(),
{
    if parts.len() == 0 {
        seq![]
    } else {
        joined(parts.drop_last()) + parts.last()
    }
}

/// The segments that were found, with what is kept of each.
pub open spec fn found_segs(d: Disk, list: Seq<(u64, Seq<char>)>, parts: Seq<Seq<Entry>>) -> Seq<
    Seg,
> {
    Seq::new(
        list.len(),
        |i: int|
            Seg {
                n: list[i].0,
                path: list[i].1,
                max_lsn: top_lsn(0, parts[i]),
                bytes: d.files[d.names[list[i].1] as int].data.len() as u64,
            },
    )
}

/// The number of the segment that comes behind these.
pub open spec fn next_number(list: Seq<(u64, Seq<char>)>) -> nat {
    if list.len() == 0 {
        1
    } else {
        list.last().0 as nat + 1
    }
}

/// The state of a log that was just opened, its segments being these: a new
/// segment is the newest, and nothing is in it but its header.
pub open spec fn opened_wal(
    d: Disk,
    name: Seq<char>,
    page_size: u64,
    list: Seq<(u64, Seq<char>)>,
    parts: Seq<Seq<Entry>>,
) -> Wal {
    let n = next_number(list) as u64;
    Wal {
        at: d.files.len() as usize,
        name,
        current: Seg {
            n,
            path: segment::path_text(name, n),
            max_lsn: 0,
            bytes: framing::log_header_len() as u64,
        },
        older: found_segs(d, list, parts),
        header: framing::enc_log_header(header_of(page_size)),
        segment_bytes: framing::log_header_len() as u64,
        had_concurrency: true,
    }
}

/// The files after a log was opened.
pub open spec fn opened_disk(
    d: Disk,
    name: Seq<char>,
    page_size: u64,
    list: Seq<(u64, Seq<char>)>,
) -> Disk {
    let header = framing::enc_log_header(header_of(page_size));
    Disk {
        files: d.files.push(Bytes { data: header, synced: header }),
        names: d.names.insert(
            segment::path_text(name, next_number(list) as u64),
            d.files.len() as usize,
        ),
    }
}

/// A log that was just opened, and what recovery has to replay.
pub struct OpenedWal {
    pub wal: WalState,
    pub records: Vec<LogRecord>,
}

/// The highest sequence number of records, or 0.
fn highest_lsn(records: &Vec<LogRecord>) -> (m: u64)
    ensures
        m == top_lsn(0, operation::entries(records@)),
{
    let ghost es = operation::entries(records@);
    let mut m: u64 = 0;
    for i in 0..records.len()
        invariant
            es == operation::entries(records@),
            m == top_lsn(0, es.take(i as int)),
    {
        proof {
            assert(es.take(i + 1).drop_last() =~= es.take(i as int));
            assert(es.take(i + 1).last() == records@[i as int]@);
        }
        if records[i].lsn.0 > m {
            m = records[i].lsn.0;
        }
    }
    assert(es.take(es.len() as int) =~= es);
    m
}

/// Moves records behind others.
fn move_records(to: &mut Vec<LogRecord>, from: Vec<LogRecord>)
    ensures
        operation::entries(final(to)@) == operation::entries(old(to)@) + operation::entries(from@),
{
    let mut from = from;
    let ghost a = to@;
    let ghost b = from@;
    to.append(&mut from);
    assert(operation::entries(to@) =~= operation::entries(a) + operation::entries(b));
}

/// Finds, checks and scans every segment of a database's log, oldest first,
/// and starts a new one behind them. A segment that was found is never
/// appended to: a power cut may have left half a record at its end, and what
/// came behind that could not be read.
pub fn open_segments(name: &str, handle: &MemFile, ns: &mut Namespace, page_size: u64) -> (r:
    Result<OpenedWal, StoreError>)
    requires
        old(ns).wf(),
        next_number(segment::segments_of(old(ns)@, name@)) <= u64::MAX,
    ensures
        final(ns).wf(),
        ({
            let d = old(ns)@;
            let list = segment::segments_of(d, name@);
            match r {
                Ok(o) => scan_all(d, page_size, list) matches Ok(parts) && parts.len()
                    == list.len() && operation::entries(o.records@) == joined(parts) && o.wal@
                    == opened_wal(d, name@, page_size, list, parts) && final(ns)@ == opened_disk(
                    d,
                    name@,
                    page_size,
                    list,
                ) && fits(o.wal@, final(ns)@),
                Err(e) => scan_all(d, page_size, list) == Err::<Seq<Seq<Entry>>, Fault>(e@)
                    && final(ns)@ == d,
            }
        }),
{
    let ghost d = ns@;
    let found = list_segments(handle, ns, name);
    let ghost list = segment::pairs(found@);
    let mut records: Vec<LogRecord> = Vec::new();
    let mut older: Vec<Segment> = Vec::new();
    let mut last_n: u64 = 0;
    let ghost mut parts: Seq<Seq<Entry>> = seq![];
    proof {
        assert(list.take(0) =~= seq![]);
        assert(operation::entries(records@) =~= seq![]);
        assert(segs(older@) =~= found_segs(d, list.take(0), parts));
    }
    for i in 0..found.len()
        invariant
            ns.wf(),
            d == old(ns)@,
            ns@ == d,
            list == segment::pairs(found@),
            segment::lists_segments(d, name@, list),
            list == segment::segments_of(d, name@),
            scan_all(d, page_size, list.take(i as int)) == Ok::<Seq<Seq<Entry>>, Fault>(parts),
            parts.len() == i,
            operation::entries(records@) == joined(parts),
            segs(older@) == found_segs(d, list.take(i as int), parts),
            i > 0 ==> last_n == list[i - 1].0,
            i == 0 ==> last_n == 0,
            next_number(list) <= u64::MAX,
    {
        let n: u64 = found[i].0;
        let path = found[i].1.as_str();
        let ghost here = list.take(i + 1);
        proof {
            assert(list[i as int] == (n, path@));
            assert(list.contains(list[i as int]));
            assert(segment::is_segment(d, name@, list[i as int]));
            assert(here.drop_last() =~= list.take(i as int));
            assert(here.last() == list[i as int]);
            scan_all_prefix(d, page_size, list, i + 1);
        }
        let mut f = handle.open_sibling(ns, path);
        match read_and_validate_log_header(&mut f, ns, page_size) {
            Ok(_) => {},
            Err(e) => {
                return Err(e);
            },
        }
        let bytes = f.data(ns);
        let len: usize = bytes.len();
        let body = slice_subrange(bytes.as_slice(), LogHeader::encoded_len(), len);
        assert(body@ =~= bytes@.skip(framing::log_header_len() as int));
        let scanned = match scan_log(body) {
            Ok(s) => s,
            Err(e) => {
                return Err(e);
            },
        };
        let ghost es = operation::entries(scanned.records@);
        let max_lsn: u64 = highest_lsn(&scanned.records);
        move_records(&mut records, scanned.records);
        let ghost was = segs(older@);
        let seg = Segment { n, path: path.to_owned(), max_lsn, bytes: len as u64 };
        let ghost this = seg@;
        older.push(seg);
        last_n = n;
        proof {
            let more = parts.push(es);
            assert(more.drop_last() =~= parts);
            assert(segs(older@) =~= was.push(this));
            assert(found_segs(d, here, more) =~= found_segs(d, list.take(i as int), parts).push(
                this,
            ));
            parts = more;
        }
    }
    assert(list.take(list.len() as int) =~= list);
    let next_n: u64 = if found.len() == 0 {
        1
    } else {
        last_n + 1
    };
    let path = segment_path(name, next_n);
    proof {
        fresh_number(d, name@, list);
    }
    let mut f = handle.open_sibling(ns, path.as_str());
    let header_bytes = write_log_header(&mut f, ns, page_size);
    f.do_sync(ns);
    let wal = WalState {
        file: f,
        name: name.to_owned(),
        current: Segment { n: next_n, path, max_lsn: 0, bytes: header_bytes.len() as u64 },
        older,
        segment_bytes: header_bytes.len() as u64,
        header_bytes,
        had_concurrency: true,
    };
    proof {
        assert(memfile::written(Seq::empty(), 0, header_bytes@) =~= header_bytes@);
        assert(ns@.files =~= opened_disk(d, name@, page_size, list).files);
        assert(wal@ =~= opened_wal(d, name@, page_size, list, parts));
        opened_fits(d, name@, page_size, list, parts);
    }
    Ok(OpenedWal { wal, records })
}

/// What is wrong with a segment is wrong with the log.
proof fn scan_all_prefix(d: Disk, page_size: u64, list: Seq<(u64, Seq<char>)>, k: int)
    requires
        0 <= k <= list.len(),
    ensures
        scan_all(d, page_size, list.take(k)) matches Err(f) ==> scan_all(d, page_size, list)
            == Err::<Seq<Seq<Entry>>, Fault>(f),
    decreases list.len() - k,
{
    if k < list.len() {
        scan_all_prefix(d, page_size, list, k + 1);
        assert(list.take(k + 1).drop_last() =~= list.take(k));
    } else {
        assert(list.take(k) =~= list);
    }
}

/// No file is named like the segment that comes behind all others.
pub proof fn fresh_number(d: Disk, name: Seq<char>, list: Seq<(u64, Seq<char>)>)
    requires
        segment::lists_segments(d, name, list),
        next_number(list) <= u64::MAX,
    ensures
        !d.names.dom().contains(segment::path_text(name, next_number(list) as u64)),
{
    let n = next_number(list) as u64;
    let path = segment::path_text(name, n);
    segment::path_gives_number(name, n);
    if d.names.dom().contains(path) {
        assert(segment::is_segment(d, name, (n, path)));
        assert(list.contains((n, path)));
        let i = choose|i: int| 0 <= i < list.len() && list[i] == (n, path);
        if i < list.len() - 1 {
            assert(segment::before(list[i], list[list.len() - 1]));
        }
    }
}

/// A log that was just opened is in step with its files.
proof fn opened_fits(
    d: Disk,
    name: Seq<char>,
    page_size: u64,
    list: Seq<(u64, Seq<char>)>,
    parts: Seq<Seq<Entry>>,
)
    requires
        segment::lists_segments(d, name, list),
        next_number(list) <= u64::MAX,
        d.files.len() <= usize::MAX,
        parts.len() == list.len(),
    ensures
        fits(
            opened_wal(d, name, page_size, list, parts),
            opened_disk(d, name, page_size, list),
        ),
{
    let n = next_number(list) as u64;
    let path = segment::path_text(name, n);
    let w = opened_wal(d, name, page_size, list, parts);
    let e = opened_disk(d, name, page_size, list);
    let now = seg_pairs(w.older.push(w.current));
    fresh_number(d, name, list);
    segment::path_gives_number(name, n);
    framing::log_header_round_trip(header_of(page_size), Seq::empty());
    assert(now =~= list.push((n, path)));
    assert forall|i: int, j: int| 0 <= i < j < now.len() implies segment::before(
        #[trigger] now[i],
        #[trigger] now[j],
    ) by {
        assert(now[i] == list[i]);
        if j < list.len() {
            assert(now[j] == list[j]);
        } else if i < list.len() - 1 {
            assert(segment::before(list[i], list[list.len() - 1]));
        }
    }
    assert forall|x: (u64, Seq<char>)| #[trigger] now.contains(x) <==> segment::is_segment(
        e,
        name,
        x,
    ) by {
        if now.contains(x) {
            let i = choose|i: int| 0 <= i < now.len() && now[i] == x;
            if i < list.len() {
                assert(list[i] == x);
                assert(list.contains(x));
                assert(segment::is_segment(d, name, x));
            }
        }
        if segment::is_segment(e, name, x) {
            if x.1 == path {
                assert(now[list.len() as int] == x);
            } else {
                assert(segment::is_segment(d, name, x));
                assert(list.contains(x));
                let i = choose|i: int| 0 <= i < list.len() && list[i] == x;
                assert(now[i] == x);
            }
        }
    }
}

/// The bytes of segments add up.
pub proof fn segment_bytes_add_up(a: Seq<Seg>, b: Seq<Seg>, s: Seg)
    ensures
        total_bytes(Seq::empty()) == 0,
        total_bytes(seq![s]) == s.bytes,
        total_bytes(a + b) == total_bytes(a) + total_bytes(b),
    decreases b.len(),
{
    assert(seq![s].drop_last() =~= Seq::empty());
    assert(total_bytes(seq![s].drop_last()) == 0);
    if b.len() > 0 {
        segment_bytes_add_up(a, b.drop_last(), s);
        assert((a + b).drop_last() =~= a + b.drop_last());
    } else {
        assert(a + b =~= a);
    }
}

} // verus!

//! What becomes of the messages that the log is sent: the records are in the
//! newest segment in the order they were sent in, up to a shutdown, however
//! they were gathered into batches.
use vstd::prelude::*;

use crate::framing;
use crate::memfile::Disk;
use crate::operation::Entry;
use crate::segment;
use crate::wal;
use crate::wal::{Control, Log, Msg};

verus! {

/// The records among the messages from `from` on, up to a shutdown.
pub open spec fn taken(msgs: Seq<Msg>, from: nat) -> Seq<Entry>
    decreases msgs.len() - from,
{
    if from >= msgs.len() {
        seq![]
    } else {
        match msgs[from as int] {
            Msg::Record(e) => seq![e] + taken(msgs, from + 1),
            Msg::Other(Control::ShutDown) => seq![],
            Msg::Other(_) => taken(msgs, from + 1),
        }
    }
}

/// Records at the front are taken one by one.
proof fn taken_in_front(msgs: Seq<Msg>, from: nat, k: nat)
    requires
        from + k <= msgs.len(),
        forall|i: int| from <= i < from + k ==> (#[trigger] msgs[i]) is Record,
    ensures
        taken(msgs, from) == wal::records_of(msgs.subrange(from as int, (from + k) as int)) + taken(
            msgs,
            from + k,
        ),
    decreases k,
{
    let part = wal::records_of(msgs.subrange(from as int, (from + k) as int));
    if k == 0 {
        assert(part =~= seq![]);
        assert(part + taken(msgs, from) =~= taken(msgs, from));
    } else {
        taken_in_front(msgs, from + 1, (k - 1) as nat);
        let rest = wal::records_of(msgs.subrange(from as int + 1, (from + k) as int));
        assert(msgs[from as int] is Record);
        assert(part =~= seq![msgs[from as int]->Record_0] + rest);
        assert(part + taken(msgs, from + k) =~= seq![msgs[from as int]->Record_0] + (rest + taken(
            msgs,
            from + k,
        )));
    }
}

/// The log stops exactly where it is told to: where a shutdown is among the
/// messages.
pub proof fn log_stops_when_told(msgs: Seq<Msg>, from: nat)
    ensures
        wal::stops(msgs, from) <==> exists|i: int|
            from <= i < msgs.len() && #[trigger] msgs[i] == Msg::Other(Control::ShutDown),
    decreases msgs.len() - from,
{
    if from < msgs.len() {
        wal::leading_bound(msgs, from, wal::MAX_LOG_BATCH as nat);
        let k = wal::batch_len(msgs, from);
        let next = match wal::control_at(msgs, from) {
            Some(_) => from + k + 1,
            None => from + k,
        };
        reveal_with_fuel(wal::leading, 2);
        if wal::control_at(msgs, from) == Some(Control::ShutDown) {
            assert(msgs[(from + k) as int] == Msg::Other(Control::ShutDown));
        } else {
            log_stops_when_told(msgs, next);
            if exists|i: int|
                from <= i < msgs.len() && #[trigger] msgs[i] == Msg::Other(Control::ShutDown) {
                let i = choose|i: int|
                    from <= i < msgs.len() && #[trigger] msgs[i] == Msg::Other(Control::ShutDown);
                if i < from + k {
                    assert(msgs[i] is Record);
                }
            }
        }
    }
}

/// Whatever is sent between records but a new segment, every record up to a
/// shutdown is in the newest segment behind what was there, in order and once;
/// what comes after a shutdown is not; and the log is durable up to the highest
/// number among them.
#[verifier::rlimit(60)]
pub proof fn records_are_logged_in_order(l: Log, msgs: Seq<Msg>, from: nat)
    requires
        l.wal.at < l.disk.files.len(),
        from <= msgs.len(),
        forall|i: int|
            from <= i < msgs.len() ==> !(#[trigger] msgs[i] matches Msg::Other(c) && c is Roll),
    ensures
        ({
            let m = wal::ran(l, msgs, from);
            let at = l.wal.at as int;
            &&& m.wal.at == l.wal.at
            &&& m.disk.files.len() == l.disk.files.len()
            &&& m.disk.files[at].data == l.disk.files[at].data + framing::log_bytes(
                taken(msgs, from),
            )
            &&& taken(msgs, from).len() > 0 ==> m.disk.files[at].synced == m.disk.files[at].data
            &&& taken(msgs, from).len() == 0 ==> m.disk.files[at] == l.disk.files[at]
            &&& m.written == wal::top_lsn(l.written, taken(msgs, from))
            &&& forall|f: int|
                0 <= f < l.disk.files.len() && f != at ==> #[trigger] m.disk.files[f]
                    == l.disk.files[f]
        }),
    decreases msgs.len() - from,
{
    let at = l.wal.at as int;
    if from >= msgs.len() {
        assert(l.disk.files[at].data + framing::log_bytes(seq![]) =~= l.disk.files[at].data);
    } else {
        wal::leading_bound(msgs, from, wal::MAX_LOG_BATCH as nat);
        let k = wal::batch_len(msgs, from);
        reveal_with_fuel(wal::leading, 2);
        let part = wal::records_of(msgs.subrange(from as int, (from + k) as int));
        let next = wal::batched(l, part);
        taken_in_front(msgs, from, k);
        assert(part.len() == k);
        let base = l.disk.files[at].data;
        assert(next.disk.files[at].data =~= base + framing::log_bytes(part));
        assert(next.written == wal::top_lsn(l.written, part));
        match wal::control_at(msgs, from) {
            Some(Control::ShutDown) => {
                assert(msgs[(from + k) as int] == Msg::Other(Control::ShutDown));
                assert(part + Seq::<Entry>::empty() =~= part);
            },
            Some(Control::Roll(floor)) => {
                assert(msgs[(from + k) as int] == Msg::Other(Control::Roll(floor)));
            },
            Some(Control::Sync) => {
                assert(msgs[(from + k) as int] == Msg::Other(Control::Sync));
                assert(taken(msgs, from + k) == taken(msgs, from + k + 1));
                records_are_logged_in_order(next, msgs, from + k + 1);
                joined(l, part, taken(msgs, from + k + 1));
            },
            None => {
                records_are_logged_in_order(next, msgs, from + k);
                joined(l, part, taken(msgs, from + k));
            },
        }
    }
}

/// Records in two parts leave what they leave together.
proof fn joined(l: Log, a: Seq<Entry>, b: Seq<Entry>)
    ensures
        ({
            let base = l.disk.files[l.wal.at as int].data;
            base + framing::log_bytes(a) + framing::log_bytes(b) == base + framing::log_bytes(a + b)
        }),
        wal::top_lsn(wal::top_lsn(l.written, a), b) == wal::top_lsn(l.written, a + b),
{
    let base = l.disk.files[l.wal.at as int].data;
    wal::log_bytes_join(a, b);
    wal::top_lsn_join(l.written, a, b);
    assert(base + framing::log_bytes(a) + framing::log_bytes(b) =~= base + (framing::log_bytes(a)
        + framing::log_bytes(b)));
}

/// A log that is opened goes on in a new segment: number 1 where there was
/// none, or the one behind the last. The segments that were found stay as they
/// are, in their order, each with the size of its file and the highest number
/// of its records; and no file but the new one changes.
pub proof fn opened_log_goes_on_behind_the_last(
    d: Disk,
    name: Seq<char>,
    page_size: u64,
    list: Seq<(u64, Seq<char>)>,
    parts: Seq<Seq<Entry>>,
    i: int,
    f: int,
)
    requires
        list.len() > 0 ==> list.last().0 < u64::MAX,
        d.files.len() <= usize::MAX,
    ensures
        ({
            let w = wal::opened_wal(d, name, page_size, list, parts);
            let e = wal::opened_disk(d, name, page_size, list);
            &&& list.len() == 0 ==> w.current.n == 1
            &&& list.len() > 0 ==> w.current.n == list.last().0 + 1
            &&& w.current.path == segment::path_text(name, w.current.n)
            &&& w.segment_bytes == 14
            &&& w.older.len() == list.len()
            &&& 0 <= i < list.len() ==> {
                &&& w.older[i].n == list[i].0
                &&& w.older[i].path == list[i].1
                &&& w.older[i].max_lsn == wal::top_lsn(0, parts[i])
                &&& w.older[i].bytes == d.files[d.names[list[i].1] as int].data.len() as u64
            }
            &&& e.files.len() == d.files.len() + 1
            &&& 0 <= f < d.files.len() ==> e.files[f] == d.files[f]
            &&& e.names[w.current.path] == d.files.len()
            &&& e.files.last().data == framing::enc_log_header(wal::header_of(page_size))
            &&& e.files.last().synced == e.files.last().data
        }),
{
}

/// The highest number of records is one of them, or the one that it was to be
/// at least; and none is higher.
pub proof fn highest_number_is_the_highest(floor: u64, es: Seq<Entry>, i: int)
    ensures
        wal::top_lsn(floor, es) >= floor,
        0 <= i < es.len() ==> wal::top_lsn(floor, es) >= es[i].lsn.0,
        wal::top_lsn(floor, es) == floor || exists|k: int|
            0 <= k < es.len() && wal::top_lsn(floor, es) == (#[trigger] es[k]).lsn.0,
    decreases es.len(),
{
    if es.len() > 0 {
        let front = es.drop_last();
        highest_number_is_the_highest(floor, front, i);
        assert(es.last() == es[es.len() - 1]);
        if i < front.len() && 0 <= i {
            assert(front[i] == es[i]);
        }
        let m = wal::top_lsn(floor, front);
        if m != floor && m >= es.last().lsn.0 {
            let k = choose|k: int| 0 <= k < front.len() && m == (#[trigger] front[k]).lsn.0;
            assert(front[k] == es[k]);
        }
    }
}

} // verus!

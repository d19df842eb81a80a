//! What the log promises: what was made durable comes back, in order, however
//! the power is cut.
use vstd::prelude::*;

use crate::codec;
use crate::error::Fault;
use crate::framing;
use crate::memfile;
use crate::memfile::{Bytes, Disk};
use crate::operation::Entry;
use crate::recovery;
use crate::segment;
use crate::segment::Seg;
use crate::wal;
use crate::wal::{Log, Wal};

verus! {

/// All segments of a log, oldest first.
pub open spec fn all_segs(w: Wal) -> Seq<Seg> {
    w.older.push(w.current)
}

/// Is everything in the file behind a segment durable, does a scan of it give
/// these records, and does what is kept of it agree?
pub open spec fn seg_holds(d: Disk, page_size: u64, s: Seg, es: Seq<Entry>) -> bool {
    let file = d.files[d.names[s.path] as int];
    &&& d.names[s.path] < d.files.len()
    &&& file.data == file.synced
    &&& wal::segment_scan(d, page_size, s.path) == Ok::<Seq<Entry>, Fault>(es)
    &&& s.max_lsn == wal::top_lsn(0, es)
}

/// Are these the bytes of a segment with these records and nothing else?
pub open spec fn exactly(d: Disk, page_size: u64, s: Seg, es: Seq<Entry>) -> bool {
    &&& d.files[d.names[s.path] as int].data == framing::enc_log_header(
        wal::header_of(page_size),
    ) + framing::log_bytes(es)
    &&& forall|k: int| 0 <= k < es.len() ==> framing::entry_fits(#[trigger] es[k])
}

/// Does the log hold these records, segment by segment? The newest segment
/// holds nothing else; an older one may end in half a record that no scan
/// reads.
pub open spec fn holds(w: Wal, d: Disk, page_size: u64, parts: Seq<Seq<Entry>>) -> bool {
    let all = all_segs(w);
    &&& wal::fits(w, d)
    &&& w.header == framing::enc_log_header(wal::header_of(page_size))
    &&& parts.len() == all.len()
    &&& forall|i: int| 0 <= i < all.len() ==> seg_holds(d, page_size, #[trigger] all[i], parts[i])
    &&& exactly(d, page_size, w.current, parts.last())
    &&& forall|i: int, j: int|
        0 <= i < j < all.len() ==> d.names[(#[trigger] all[i]).path]
            != d.names[(#[trigger] all[j]).path]
}

/// What is written as a segment scans back.
proof fn written_scans(page_size: u64, es: Seq<Entry>, d: Disk, path: Seq<char>)
    requires
        d.files[d.names[path] as int].data == framing::enc_log_header(
            wal::header_of(page_size),
        ) + framing::log_bytes(es),
        forall|k: int| 0 <= k < es.len() ==> framing::entry_fits(#[trigger] es[k]),
    ensures
        wal::segment_scan(d, page_size, path) == Ok::<Seq<Entry>, Fault>(es),
{
    let h = framing::enc_log_header(wal::header_of(page_size));
    let body = framing::log_bytes(es);
    wal::header_reads_back(page_size, page_size, body);
    framing::log_header_round_trip(wal::header_of(page_size), Seq::empty());
    assert((h + body).skip(framing::log_header_len() as int) =~= body);
    assert(body + Seq::<u8>::empty() =~= body);
    framing::scan_recovers(es, Seq::empty(), 0);
}

/// A log that was just opened holds what was found, and nothing in the new
/// segment, if everything that was found is durable.
pub proof fn opened_log_is_held(
    d: Disk,
    name: Seq<char>,
    page_size: u64,
    list: Seq<(u64, Seq<char>)>,
    parts: Seq<Seq<Entry>>,
)
    requires
        list == segment::segments_of(d, name),
        segment::lists_segments(d, name, list),
        wal::scan_all(d, page_size, list) == Ok::<Seq<Seq<Entry>>, Fault>(parts),
        wal::fits(
            wal::opened_wal(d, name, page_size, list, parts),
            wal::opened_disk(d, name, page_size, list),
        ),
        memfile::apart(d),
        forall|i: int|
            0 <= i < d.files.len() ==> (#[trigger] d.files[i]).data == d.files[i].synced,
        d.files.len() <= usize::MAX,
        wal::next_number(list) <= u64::MAX,
    ensures
        holds(
            wal::opened_wal(d, name, page_size, list, parts),
            wal::opened_disk(d, name, page_size, list),
            page_size,
            parts.push(seq![]),
        ),
{
    let w = wal::opened_wal(d, name, page_size, list, parts);
    let e = wal::opened_disk(d, name, page_size, list);
    let all = all_segs(w);
    let more = parts.push(seq![]);
    let at = d.files.len() as usize;
    wal::fresh_number(d, name, list);
    scan_all_each(d, page_size, list, parts);
    assert forall|i: int| 0 <= i < list.len() implies e.names[(#[trigger] list[i]).1]
        == d.names[list[i].1] && d.names.dom().contains(list[i].1) && d.names[list[i].1]
        < at by {
        assert(list.contains(list[i]));
        assert(segment::is_segment(d, name, list[i]));
    }
    assert(framing::log_bytes(seq![]) =~= seq![]);
    assert(w.header + Seq::<u8>::empty() =~= w.header);
    written_scans(page_size, seq![], e, w.current.path);
    assert forall|i: int| 0 <= i < all.len() implies seg_holds(
        e,
        page_size,
        #[trigger] all[i],
        more[i],
    ) by {
        if i < list.len() {
            assert(all[i].path == list[i].1);
            assert(e.files[e.names[all[i].path] as int] == d.files[d.names[all[i].path] as int]);
        }
    }
    assert forall|i: int, j: int| 0 <= i < j < all.len() implies e.names[(
    #[trigger] all[i]).path] != e.names[(#[trigger] all[j]).path] by {
        assert(all[i].path == list[i].1);
        assert(e.names[list[i].1] == d.names[list[i].1]);
        if j < list.len() {
            assert(all[j].path == list[j].1);
            assert(e.names[list[j].1] == d.names[list[j].1]);
            segment::before_total(list[i], list[j]);
            assert(list.contains(list[i]) && list.contains(list[j]));
            assert(segment::is_segment(d, name, list[i]));
            assert(segment::is_segment(d, name, list[j]));
        }
    }
}

/// A log that scans as a whole scans segment by segment.
proof fn scan_all_each(
    d: Disk,
    page_size: u64,
    list: Seq<(u64, Seq<char>)>,
    parts: Seq<Seq<Entry>>,
)
    requires
        wal::scan_all(d, page_size, list) == Ok::<Seq<Seq<Entry>>, Fault>(parts),
    ensures
        parts.len() == list.len(),
        forall|i: int|
            0 <= i < list.len() ==> wal::segment_scan(d, page_size, (#[trigger] list[i]).1) == Ok::<
                Seq<Entry>,
                Fault,
            >(parts[i]),
    decreases list.len(),
{
    if list.len() > 0 {
        let front = list.drop_last();
        let found = wal::scan_all(d, page_size, front)->Ok_0;
        scan_all_each(d, page_size, front, found);
        assert forall|i: int| 0 <= i < list.len() implies wal::segment_scan(
            d,
            page_size,
            (#[trigger] list[i]).1,
        ) == Ok::<Seq<Entry>, Fault>(parts[i]) by {
            if i < front.len() {
                assert(front[i] == list[i]);
                assert(found[i] == parts[i]);
            }
        }
    }
}

/// The files after a power cut: what was synced, and nothing else.
pub open spec fn after_power_cut(d: Disk) -> Disk {
    Disk {
        files: d.files.map_values(|b: Bytes| Bytes { data: b.synced, synced: b.synced }),
        ..d
    }
}

/// No record's number is above the highest.
pub proof fn top_lsn_bound(f: u64, es: Seq<Entry>, i: int)
    requires
        0 <= i < es.len(),
    ensures
        es[i].lsn.0 <= wal::top_lsn(f, es),
    decreases es.len(),
{
    if i < es.len() - 1 {
        top_lsn_bound(f, es.drop_last(), i);
    }
}

/// A batch is in the log once it was written, behind what was there before,
/// and all of it durable.
pub proof fn batch_is_held(l: Log, page_size: u64, parts: Seq<Seq<Entry>>, es: Seq<Entry>)
    requires
        holds(l.wal, l.disk, page_size, parts),
        wal::fits(wal::batched(l, es).wal, wal::batched(l, es).disk),
        forall|k: int| 0 <= k < es.len() ==> framing::entry_fits(#[trigger] es[k]),
    ensures
        holds(
            wal::batched(l, es).wal,
            wal::batched(l, es).disk,
            page_size,
            parts.update(parts.len() - 1, parts.last() + es),
        ),
{
    let r = wal::batched(l, es);
    let all = all_segs(l.wal);
    let now = all_segs(r.wal);
    let last = parts.len() - 1;
    let more = parts.update(last, parts.last() + es);
    assert(all[last] == l.wal.current);
    assert(seg_holds(l.disk, page_size, all[last], parts[last]));
    if es.len() == 0 {
        assert(parts.last() + es =~= parts.last());
        assert(more =~= parts);
        assert(now =~= all);
    } else {
        wal::log_bytes_join(parts.last(), es);
        wal::top_lsn_join(0, parts.last(), es);
        codec::regroup(
            l.wal.header,
            framing::log_bytes(parts.last()),
            framing::log_bytes(es),
        );
        let whole = parts.last() + es;
        assert forall|k: int| 0 <= k < whole.len() implies framing::entry_fits(
            #[trigger] whole[k],
        ) by {
            if k >= parts.last().len() {
                assert(whole[k] == es[k - parts.last().len()]);
            }
        }
        written_scans(page_size, whole, r.disk, r.wal.current.path);
        assert forall|i: int| 0 <= i < now.len() implies seg_holds(
            r.disk,
            page_size,
            #[trigger] now[i],
            more[i],
        ) by {
            assert(seg_holds(l.disk, page_size, all[i], parts[i]));
            if i < last {
                assert(now[i] == all[i]);
                assert(l.disk.names[all[i].path] != l.disk.names[all[last].path]);
                assert(r.disk.files[l.disk.names[all[i].path] as int]
                    == l.disk.files[l.disk.names[all[i].path] as int]);
            } else {
                assert(now[i].path == all[i].path);
            }
        }
        assert forall|i: int, j: int| 0 <= i < j < now.len() implies r.disk.names[(
        #[trigger] now[i]).path] != r.disk.names[(#[trigger] now[j]).path] by {
            assert(now[i].path == all[i].path);
            assert(now[j].path == all[j].path);
        }
    }
}

/// The records of the segments that are kept, and no records for the new one.
pub open spec fn parts_kept(s: Seq<Seg>, parts: Seq<Seq<Entry>>, floor: u64) -> Seq<Seq<Entry>>
    decreases s.len(),
{
    if s.len() == 0 {
        seq![]
    } else if s.last().max_lsn < floor {
        parts_kept(s.drop_last(), parts.drop_last(), floor)
    } else {
        parts_kept(s.drop_last(), parts.drop_last(), floor).push(parts.last())
    }
}

/// Every segment that is kept is one of those before, with its records.
proof fn kept_index(s: Seq<Seg>, parts: Seq<Seq<Entry>>, floor: u64, i: int) -> (k: int)
    requires
        s.len() == parts.len(),
        0 <= i < wal::kept(s, floor).len(),
    ensures
        0 <= k < s.len(),
        wal::kept(s, floor)[i] == s[k],
        parts_kept(s, parts, floor).len() == wal::kept(s, floor).len(),
        parts_kept(s, parts, floor)[i] == parts[k],
        s[k].max_lsn >= floor,
    decreases s.len(),
{
    kept_len(s, parts, floor);
    if s.len() == 0 {
        0
    } else {
        let front = s.drop_last();
        if s.last().max_lsn < floor {
            kept_index(front, parts.drop_last(), floor, i)
        } else if i < wal::kept(front, floor).len() {
            kept_len(front, parts.drop_last(), floor);
            kept_index(front, parts.drop_last(), floor, i)
        } else {
            kept_len(front, parts.drop_last(), floor);
            s.len() - 1
        }
    }
}

/// As many lists of records are kept as segments.
proof fn kept_len(s: Seq<Seg>, parts: Seq<Seq<Entry>>, floor: u64)
    requires
        s.len() == parts.len(),
    ensures
        parts_kept(s, parts, floor).len() == wal::kept(s, floor).len(),
    decreases s.len(),
{
    if s.len() > 0 {
        kept_len(s.drop_last(), parts.drop_last(), floor);
    }
}

/// Two segments that are kept stay in order, and stay two.
proof fn kept_increasing(s: Seq<Seg>, floor: u64, i: int, j: int) -> (r: (int, int))
    requires
        0 <= i < j < wal::kept(s, floor).len(),
    ensures
        0 <= r.0 < r.1 < s.len(),
        wal::kept(s, floor)[i] == s[r.0],
        wal::kept(s, floor)[j] == s[r.1],
    decreases s.len(),
{
    let front = s.drop_last();
    if s.last().max_lsn < floor {
        kept_increasing(front, floor, i, j)
    } else if j < wal::kept(front, floor).len() {
        kept_increasing(front, floor, i, j)
    } else {
        let none: Seq<Seq<Entry>> = Seq::new(front.len(), |x: int| seq![]);
        let k = kept_index(front, none, floor, i);
        (k, s.len() - 1)
    }
}

/// A roll keeps every record at or above the floor: a segment only goes if
/// all of its records are below it.
pub proof fn roll_keeps_what_is_needed(
    l: Log,
    page_size: u64,
    parts: Seq<Seq<Entry>>,
    floor: u64,
)
    requires
        holds(l.wal, l.disk, page_size, parts),
        wal::fits(wal::rolled(l, floor).wal, wal::rolled(l, floor).disk),
        l.wal.current.n < u64::MAX,
        l.disk.files.len() <= usize::MAX,
    ensures
        holds(
            wal::rolled(l, floor).wal,
            wal::rolled(l, floor).disk,
            page_size,
            parts_kept(all_segs(l.wal), parts, floor).push(seq![]),
        ),
        recovery::above(
            wal::joined(parts_kept(all_segs(l.wal), parts, floor).push(seq![])),
            floor,
        ) == recovery::above(wal::joined(parts), floor),
{
    let r = wal::rolled(l, floor);
    let all = all_segs(l.wal);
    let n = (l.wal.current.n + 1) as u64;
    let path = segment::path_text(l.wal.name, n);
    let at = l.disk.files.len() as usize;
    let before = l.wal.older.push(Seg { bytes: l.wal.segment_bytes, ..l.wal.current });
    let now = all_segs(r.wal);
    let want = parts_kept(all, parts, floor).push(seq![]);
    let names = l.disk.names.insert(path, at);
    wal::next_is_free(l.wal, l.disk, n);
    wal::names_kept_facts(names, before, floor);
    same_kept(all, before, parts, floor);
    kept_len(before, parts, floor);
    assert(now =~= wal::kept(before, floor).push(r.wal.current));
    // The names that are left stand for the files they stood for.
    assert forall|i: int| 0 <= i < now.len() implies r.disk.names.dom().contains(
        (#[trigger] now[i]).path,
    ) by {
        let all_now = wal::seg_pairs(now);
        assert(all_now[i] == (now[i].n, now[i].path));
        assert(all_now.contains(all_now[i]));
        assert(segment::is_segment(r.disk, r.wal.name, all_now[i]));
    }
    assert forall|i: int| 0 <= i < all.len() implies l.disk.names.dom().contains(
        (#[trigger] all[i]).path,
    ) && all[i].path != path by {
        let pairs = wal::seg_pairs(all);
        assert(pairs[i] == (all[i].n, all[i].path));
        assert(pairs.contains(pairs[i]));
        assert(segment::is_segment(l.disk, l.wal.name, pairs[i]));
    }
    assert(now[now.len() - 1] == r.wal.current);
    assert(r.disk.names.dom().contains(now[now.len() - 1].path));
    assert(framing::log_bytes(seq![]) =~= seq![]);
    assert(l.wal.header + Seq::<u8>::empty() =~= l.wal.header);
    written_scans(page_size, seq![], r.disk, path);
    assert forall|i: int| 0 <= i < now.len() implies seg_holds(
        r.disk,
        page_size,
        #[trigger] now[i],
        want[i],
    ) by {
        assert(r.disk.names.dom().contains(now[i].path));
        if i < now.len() - 1 {
            let k = kept_index(before, parts, floor, i);
            assert(before[k].path == all[k].path && before[k].max_lsn == all[k].max_lsn);
            assert(seg_holds(l.disk, page_size, all[k], parts[k]));
            assert(now[i].path != path);
            assert(r.disk.names[now[i].path] == l.disk.names[now[i].path]);
            assert(r.disk.files[l.disk.names[now[i].path] as int]
                == l.disk.files[l.disk.names[now[i].path] as int]);
        }
    }
    assert forall|i: int, j: int| 0 <= i < j < now.len() implies r.disk.names[(
    #[trigger] now[i]).path] != r.disk.names[(#[trigger] now[j]).path] by {
        assert(r.disk.names.dom().contains(now[i].path));
        assert(r.disk.names.dom().contains(now[j].path));
        if j < now.len() - 1 {
            let (a, b) = kept_increasing(before, floor, i, j);
            assert(before[a].path == all[a].path);
            assert(before[b].path == all[b].path);
            assert(l.disk.names[all[a].path] != l.disk.names[all[b].path]);
        } else {
            let k = kept_index(before, parts, floor, i);
            assert(before[k].path == all[k].path);
            assert(seg_holds(l.disk, page_size, all[k], parts[k]));
        }
    }
    assert forall|i: int| 0 <= i < all.len() implies (#[trigger] all[i]).max_lsn == wal::top_lsn(
        0,
        parts[i],
    ) by {
        assert(seg_holds(l.disk, page_size, all[i], parts[i]));
    }
    kept_above(all, parts, floor);
    assert(want.drop_last() =~= parts_kept(all, parts, floor));
    assert(wal::joined(want) =~= wal::joined(parts_kept(all, parts, floor)));
}

/// What is kept only depends on the highest numbers.
proof fn same_kept(a: Seq<Seg>, b: Seq<Seg>, parts: Seq<Seq<Entry>>, floor: u64)
    requires
        a.len() == b.len(),
        a.len() == parts.len(),
        forall|i: int| 0 <= i < a.len() ==> (#[trigger] a[i]).max_lsn == b[i].max_lsn,
    ensures
        parts_kept(a, parts, floor) == parts_kept(b, parts, floor),
    decreases a.len(),
{
    if a.len() > 0 {
        assert(a[a.len() - 1].max_lsn == b[a.len() - 1].max_lsn);
        assert forall|i: int| 0 <= i < a.drop_last().len() implies (
        #[trigger] a.drop_last()[i]).max_lsn == b.drop_last()[i].max_lsn by {
            assert(a[i].max_lsn == b[i].max_lsn);
        }
        same_kept(a.drop_last(), b.drop_last(), parts.drop_last(), floor);
    }
}

/// What is kept has all records at or above the floor, in order.
proof fn kept_above(s: Seq<Seg>, parts: Seq<Seq<Entry>>, floor: u64)
    requires
        s.len() == parts.len(),
        forall|i: int|
            0 <= i < s.len() ==> (#[trigger] s[i]).max_lsn == wal::top_lsn(0, parts[i]),
    ensures
        recovery::above(wal::joined(parts_kept(s, parts, floor)), floor) == recovery::above(
            wal::joined(parts),
            floor,
        ),
    decreases s.len(),
{
    if s.len() > 0 {
        let front = parts.drop_last();
        let kept = parts_kept(s.drop_last(), front, floor);
        let last = parts.last();
        assert(s[s.len() - 1].max_lsn == wal::top_lsn(0, last));
        assert forall|i: int| 0 <= i < s.drop_last().len() implies (
        #[trigger] s.drop_last()[i]).max_lsn == wal::top_lsn(0, front[i]) by {
            assert(s[i].max_lsn == wal::top_lsn(0, parts[i]));
        }
        kept_above(s.drop_last(), front, floor);
        recovery::above_join(wal::joined(front), last, floor);
        if s.last().max_lsn < floor {
            assert forall|k: int| 0 <= k < last.len() implies (#[trigger] last[k]).lsn.0
                < floor by {
                top_lsn_bound(0, last, k);
            }
            recovery::none_above(last, floor);
            assert(recovery::above(wal::joined(front), floor) + recovery::above(last, floor)
                =~= recovery::above(wal::joined(front), floor));
        } else {
            assert(kept.push(last).drop_last() =~= kept);
            recovery::above_join(wal::joined(kept), last, floor);
        }
    }
}

/// After a power cut, opening the log finds every record that was in a batch
/// that was written, segment by segment and in order, and nothing else.
pub proof fn power_cut_loses_nothing_durable(
    w: Wal,
    d: Disk,
    page_size: u64,
    parts: Seq<Seq<Entry>>,
)
    requires
        holds(w, d, page_size, parts),
    ensures
        segment::segments_of(after_power_cut(d), w.name) == wal::seg_pairs(all_segs(w)),
        wal::scan_all(
            after_power_cut(d),
            page_size,
            segment::segments_of(after_power_cut(d), w.name),
        ) == Ok::<Seq<Seq<Entry>>, Fault>(parts),
{
    let c = after_power_cut(d);
    let list = wal::seg_pairs(all_segs(w));
    assert forall|x: (u64, Seq<char>)| #[trigger] list.contains(x) <==> segment::is_segment(
        c,
        w.name,
        x,
    ) by {
        assert(segment::is_segment(c, w.name, x) <==> segment::is_segment(d, w.name, x));
    }
    assert(segment::lists_segments(c, w.name, list));
    segment::one_listing(c, w.name, list, segment::segments_of(c, w.name));
    scans_back(w, d, page_size, parts, list.len());
    assert(list.take(list.len() as int) =~= list);
    assert(parts.take(list.len() as int) =~= parts);
}

/// The first `k` segments scan back.
proof fn scans_back(w: Wal, d: Disk, page_size: u64, parts: Seq<Seq<Entry>>, k: nat)
    requires
        holds(w, d, page_size, parts),
        k <= parts.len(),
    ensures
        wal::scan_all(
            after_power_cut(d),
            page_size,
            wal::seg_pairs(all_segs(w)).take(k as int),
        ) == Ok::<Seq<Seq<Entry>>, Fault>(parts.take(k as int)),
    decreases k,
{
    let list = wal::seg_pairs(all_segs(w));
    let c = after_power_cut(d);
    if k == 0 {
        assert(parts.take(0) =~= seq![]);
    } else {
        let i = k as int - 1;
        let s = all_segs(w)[i];
        scans_back(w, d, page_size, parts, (k - 1) as nat);
        assert(list.take(k as int).drop_last() =~= list.take(i));
        assert(list.take(k as int).last() == (s.n, s.path));
        assert(seg_holds(d, page_size, s, parts[i]));
        assert(c.files[c.names[s.path] as int].data == d.files[d.names[s.path] as int].data);
        assert(parts.take(k as int) =~= parts.take(i).push(parts[i]));
    }
}

/// Opening the log as it is finds the same.
pub proof fn log_scans_back(w: Wal, d: Disk, page_size: u64, parts: Seq<Seq<Entry>>)
    requires
        holds(w, d, page_size, parts),
    ensures
        wal::scan_all(d, page_size, segment::segments_of(d, w.name)) == Ok::<
            Seq<Seq<Entry>>,
            Fault,
        >(parts),
{
    let list = wal::seg_pairs(all_segs(w));
    segment::one_listing(d, w.name, list, segment::segments_of(d, w.name));
    scans_as_it_is(w, d, page_size, parts, list.len());
    assert(list.take(list.len() as int) =~= list);
    assert(parts.take(list.len() as int) =~= parts);
}

/// The first `k` segments scan back as they are.
proof fn scans_as_it_is(w: Wal, d: Disk, page_size: u64, parts: Seq<Seq<Entry>>, k: nat)
    requires
        holds(w, d, page_size, parts),
        k <= parts.len(),
    ensures
        wal::scan_all(d, page_size, wal::seg_pairs(all_segs(w)).take(k as int)) == Ok::<
            Seq<Seq<Entry>>,
            Fault,
        >(parts.take(k as int)),
    decreases k,
{
    let list = wal::seg_pairs(all_segs(w));
    if k == 0 {
        assert(parts.take(0) =~= seq![]);
    } else {
        let i = k as int - 1;
        let s = all_segs(w)[i];
        scans_as_it_is(w, d, page_size, parts, (k - 1) as nat);
        assert(list.take(k as int).drop_last() =~= list.take(i));
        assert(list.take(k as int).last() == (s.n, s.path));
        assert(seg_holds(d, page_size, s, parts[i]));
        assert(parts.take(k as int) =~= parts.take(i).push(parts[i]));
    }
}

} // verus!

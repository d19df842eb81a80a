//! A page on disk: its header in a slot of its own, then its tuples.
use vstd::prelude::*;
use vstd::slice::slice_subrange;

use crate::assoc;
use crate::codec;
use crate::codec::{pad, put_raw, put_u64, take_bytes, take_u64, CodecError};
use crate::error::{Fault, StoreError};
use crate::mvcc::Place;
use crate::page;
use crate::page::{Head, Page, PageHeader, Sheet, HAS_OVERFLOW, PAGE_OVERHEAD, USABLE_DATA_MARGIN};
use crate::rows;
use crate::rows::{Item, RowStore};
use crate::table::TableIdType;
use crate::tuple;
use crate::tuple::{put_tuple, take_tuple, Key, Row, Tuple};

verus! {

// ---------------------------------------------------------------------------
// The bytes of tuples
// ---------------------------------------------------------------------------

/// The bytes of tuples, one behind the other.
pub open spec fn enc_list(list: Seq<Row>) -> Seq<u8>
    decreases list.len(),
{
    if list.len() == 0 {
        seq![]
    } else {
        enc_list(list.drop_last()) + tuple::enc_row(list.last())
    }
}

/// The bytes of tuples with their count before them.
pub open spec fn enc_tuples(list: Seq<Row>) -> Seq<u8> {
    codec::varint(list.len()) + enc_list(list)
}

/// The bytes of a page's tuples. Where a tuple's size has a limit, the limit
/// and a length come before them.
pub open spec fn enc_store(list: Seq<Row>, record_size: Option<usize>) -> Seq<u8> {
    match record_size {
        None => enc_tuples(list),
        Some(n) => codec::varint(n as nat) + codec::enc_bytes(enc_tuples(list)),
    }
}

/// A page's bytes.
pub open spec fn enc_page(v: Sheet, list: Seq<Row>) -> Seq<u8> {
    codec::padded(page::enc_head(page::head_of(v)), PAGE_OVERHEAD as nat) + codec::padded(
        enc_store(list, v.record_size),
        v.data_size as nat,
    )
}

/// Puts a tuple before those that were taken.
pub open spec fn behind(
    front: Seq<Row>,
    more: Result<(Seq<Row>, Seq<u8>), CodecError>,
) -> Result<(Seq<Row>, Seq<u8>), CodecError> {
    match more {
        Ok((list, rest)) => Ok((front + list, rest)),
        Err(e) => Err(e),
    }
}

/// The `n` tuples at the front of `s`.
pub open spec fn take_list_spec(s: Seq<u8>, n: nat) -> Result<(Seq<Row>, Seq<u8>), CodecError>
    decreases n,
{
    if n == 0 {
        Ok((seq![], s))
    } else {
        match tuple::take_row_spec(s) {
            Err(e) => Err(e),
            Ok((row, rest)) => behind(seq![row], take_list_spec(rest, (n - 1) as nat)),
        }
    }
}

/// The tuples at the front of `s`, their count before them.
pub open spec fn take_tuples_spec(s: Seq<u8>) -> Result<Seq<Row>, CodecError> {
    match codec::take_u64_spec(s) {
        Err(e) => Err(e),
        Ok((n, rest)) => match take_list_spec(rest, n as nat) {
            Err(e) => Err(e),
            Ok((list, _)) => Ok(list),
        },
    }
}

/// The tuples of a page, in its data.
pub open spec fn take_store_spec(s: Seq<u8>, limited: bool) -> Result<Seq<Row>, CodecError> {
    if !limited {
        take_tuples_spec(s)
    } else {
        match codec::take_u64_spec(s) {
            Err(e) => Err(e),
            Ok((n, rest)) => if n > usize::MAX {
                Err(CodecError::BadVarint)
            } else {
                match codec::take_bytes_spec(rest) {
                    Err(e) => Err(e),
                    Ok((data, _)) => take_tuples_spec(data),
                }
            },
        }
    }
}

/// The tuples by their keys; of two with one key the later counts.
pub open spec fn put_all(list: Seq<Row>) -> Map<Key, Row>
    decreases list.len(),
{
    if list.len() == 0 {
        Map::empty()
    } else {
        put_all(list.drop_last()).insert(list.last().id, list.last())
    }
}

/// The page that a header and tuples describe.
pub open spec fn loaded(h: Head, list: Seq<Row>) -> Sheet {
    Sheet {
        tuples: put_all(list),
        used: h.page_used_size,
        has_overflow: h.flags & HAS_OVERFLOW != 0,
        next_page: h.next_page,
        high_key: h.high_key,
        dirty: false,
        data_size: h.page_data_size,
        record_size: h.record_size,
        lsn: h.lsn,
        clock: None,
        flags: h.flags & !HAS_OVERFLOW,
    }
}

/// What is read from a page's bytes.
pub open spec fn take_page_spec(s: Seq<u8>) -> Result<Sheet, CodecError> {
    match page::take_head_spec(s.take(PAGE_OVERHEAD as int)) {
        Err(e) => Err(e),
        Ok(h) => match take_store_spec(s.skip(PAGE_OVERHEAD as int), h.record_size is Some) {
            Err(e) => Err(e),
            Ok(list) => Ok(loaded(h, list)),
        },
    }
}

/// Takes tuples off the front of `bytes`, their count before them.
fn take_tuples(bytes: &[u8]) -> (r: Result<Vec<Tuple>, CodecError>)
    ensures
        match (r, take_tuples_spec(bytes@)) {
            (Ok(ts), Ok(list)) => ts@.map_values(|t: Tuple| t@) == list,
            (Err(e), Err(f)) => e == f,
            _ => false,
        },
{
    let (n, start) = match take_u64(bytes) {
        Ok(x) => x,
        Err(e) => {
            return Err(e);
        },
    };
    let ghost whole = start@;
    let mut rest = start;
    let mut out: Vec<Tuple> = Vec::new();
    let mut i: u64 = 0;
    proof {
        let none = out@.map_values(|t: Tuple| t@);
        assert(none =~= seq![]);
        match take_list_spec(whole, n as nat) {
            Ok((list, tail)) => {
                assert(none + list =~= list);
            },
            Err(e) => {},
        }
    }
    while i < n
        invariant
            i <= n,
            take_list_spec(whole, n as nat) == behind(
                out@.map_values(|t: Tuple| t@),
                take_list_spec(rest@, (n - i) as nat),
            ),
            take_tuples_spec(bytes@) == match take_list_spec(whole, n as nat) {
                Err(e) => Err::<Seq<Row>, CodecError>(e),
                Ok((list, _)) => Ok(list),
            },
        decreases n - i,
    {
        let ghost was = out@.map_values(|t: Tuple| t@);
        match take_tuple(rest) {
            Ok((t, tail)) => {
                let ghost row = t@;
                out.push(t);
                proof {
                    assert(out@.map_values(|t: Tuple| t@) =~= was + seq![row]);
                    match take_list_spec(tail@, (n - i - 1) as nat) {
                        Ok((list, end)) => {
                            assert(was + (seq![row] + list) =~= (was + seq![row]) + list);
                        },
                        Err(e) => {},
                    }
                }
                rest = tail;
            },
            Err(e) => {
                return Err(e);
            },
        }
        i = i + 1;
    }
    proof {
        let all = out@.map_values(|t: Tuple| t@);
        assert(all + seq![] =~= all);
    }
    Ok(out)
}

/// Takes the tuples of a page out of its data.
fn take_store(bytes: &[u8], limited: bool) -> (r: Result<Vec<Tuple>, CodecError>)
    ensures
        match (r, take_store_spec(bytes@, limited)) {
            (Ok(ts), Ok(list)) => ts@.map_values(|t: Tuple| t@) == list,
            (Err(e), Err(f)) => e == f,
            _ => false,
        },
{
    if !limited {
        return take_tuples(bytes);
    }
    let (n, rest) = match take_u64(bytes) {
        Ok(x) => x,
        Err(e) => {
            return Err(e);
        },
    };
    if n > usize::MAX as u64 {
        return Err(CodecError::BadVarint);
    }
    match take_bytes(rest) {
        Ok((data, _)) => take_tuples(data),
        Err(e) => Err(e),
    }
}

impl Page {
    /// The page's header and its data, taken at one instant: what they say of
    /// each other always holds.
    pub fn to_bytes_snapshot(&self) -> (r: (PageHeader, Vec<u8>))
        requires
            self@.data_size <= usize::MAX,
        ensures
            r.0@ == page::head_of(self@),
            r.1@ == codec::padded(enc_store(self.list(), self@.record_size), self@.data_size as nat),
    {
        let mut body: Vec<u8> = Vec::new();
        put_u64(&mut body, self.tuples.items.len() as u64);
        let ghost list = self.list();
        assert(body@ =~= codec::varint(list.len()) + enc_list(list.take(0)));
        for i in 0..self.tuples.items.len()
            invariant
                list == self.list(),
                body@ == codec::varint(list.len()) + enc_list(list.take(i as int)),
        {
            put_tuple(&mut body, &self.tuples.items[i].tuple);
            proof {
                assert(list.take(i + 1).drop_last() =~= list.take(i as int));
                assert(list.take(i + 1).last() == list[i as int]);
                assert(list[i as int] == self.tuples.items@[i as int].tuple@);
                codec::regroup(
                    codec::varint(list.len()),
                    enc_list(list.take(i as int)),
                    tuple::enc_row(list[i as int]),
                );
            }
        }
        assert(list.take(list.len() as int) =~= list);
        let mut data: Vec<u8> = Vec::new();
        match self.record_size {
            None => {
                data = body;
            },
            Some(n) => {
                put_u64(&mut data, n as u64);
                put_u64(&mut data, body.len() as u64);
                put_raw(&mut data, body.as_slice());
                assert(data@ =~= enc_store(list, self@.record_size));
            },
        }
        pad(&mut data, self.page_data_size as usize);
        (self.header(), data)
    }

    /// The page's bytes: exactly as many as the page has, unless a tuple is
    /// larger than a page or the high key larger than the header's slot.
    pub fn to_bytes(&self) -> (out: Vec<u8>)
        requires
            self@.data_size <= usize::MAX,
        ensures
            out@ == enc_page(self@, self.list()),
    {
        let (header, data) = self.to_bytes_snapshot();
        let mut out = header.to_bytes();
        pad(&mut out, PAGE_OVERHEAD);
        put_raw(&mut out, data.as_slice());
        out
    }

    /// The page's data.
    pub fn to_data_bytes(&self) -> (out: Vec<u8>)
        requires
            self@.data_size <= usize::MAX,
        ensures
            out@ == codec::padded(enc_store(self.list(), self@.record_size), self@.data_size as nat),
    {
        self.to_bytes_snapshot().1
    }

    /// Reads a page's bytes. Bytes that are no page are reported, never
    /// trusted.
    pub fn from_bytes(bytes: &[u8]) -> (r: Result<Page, StoreError>)
        requires
            bytes@.len() >= PAGE_OVERHEAD,
        ensures
            match (r, take_page_spec(bytes@)) {
                (Ok(p), Ok(v)) => p.wf() && p@ == v,
                (Err(e), Err(f)) => e@ == Fault::Serialization(f),
                _ => false,
            },
    {
        let len: usize = bytes.len();
        let head = slice_subrange(bytes, 0, PAGE_OVERHEAD);
        assert(head@ =~= bytes@.take(PAGE_OVERHEAD as int));
        let h = match PageHeader::from_bytes(head) {
            Ok(h) => h,
            Err(e) => {
                return Err(e);
            },
        };
        let data = slice_subrange(bytes, PAGE_OVERHEAD, len);
        assert(data@ =~= bytes@.skip(PAGE_OVERHEAD as int));
        let taken = match take_store(data, h.record_size.is_some()) {
            Ok(ts) => ts,
            Err(e) => {
                return Err(StoreError::SerializationError(e));
            },
        };
        let ghost list = taken@.map_values(|t: Tuple| t@);
        let mut tuples = RowStore::new();
        proof {
            assert(page::by_key(tuples@) =~= put_all(list.take(0)));
            page::no_items(tuples);
        }
        for i in 0..taken.len()
            invariant
                list == taken@.map_values(|t: Tuple| t@),
                tuples.wf(),
                forall|j: int|
                    0 <= j < tuples.items@.len() ==> (#[trigger] tuples.items@[j]).table
                        == TableIdType(0),
                page::by_key(tuples@) == put_all(list.take(i as int)),
        {
            let ghost was = tuples;
            let t = taken[i].clone();
            let ghost row = t@;
            tuples.put(TableIdType(0), t);
            proof {
                page::stays_on_page(was, tuples, row.id);
                assert(list.take(i + 1).drop_last() =~= list.take(i as int));
                assert(list.take(i + 1).last() == row);
                assert(page::by_key(tuples@) =~= page::by_key(was@).insert(row.id, row));
            }
        }
        assert(list.take(list.len() as int) =~= list);
        let f: u16 = h.flags;
        assert((f & !4u16) & 4 == 0) by (bit_vector);
        let ghost head_view = h@;
        let p = Page {
            tuples,
            page_used_size: h.page_used_size,
            has_overflow: f & HAS_OVERFLOW != 0,
            next_page: h.next_page,
            high_key: h.high_key,
            dirty: false,
            page_data_size: h.page_data_size,
            record_size: h.record_size,
            lsn: h.lsn,
            lsn_clock: None,
            flags: f & !HAS_OVERFLOW,
        };
        assert(p@ =~= loaded(head_view, list));
        Ok(p)
    }
}

// ---------------------------------------------------------------------------
// Laws
// ---------------------------------------------------------------------------

/// The bytes of tuples, from the front.
proof fn enc_list_front(list: Seq<Row>)
    requires
        list.len() > 0,
    ensures
        enc_list(list) == tuple::enc_row(list[0]) + enc_list(list.skip(1)),
    decreases list.len(),
{
    if list.len() == 1 {
        assert(list.drop_last() =~= seq![]);
        assert(list.skip(1) =~= seq![]);
        assert(enc_list(list) =~= tuple::enc_row(list[0]) + enc_list(list.skip(1)));
    } else {
        let front = list.drop_last();
        enc_list_front(front);
        assert(front.skip(1) =~= list.skip(1).drop_last());
        codec::regroup(
            tuple::enc_row(list[0]),
            enc_list(front.skip(1)),
            tuple::enc_row(list.last()),
        );
    }
}

/// Tuples that were written are taken back.
proof fn list_round_trip(list: Seq<Row>, rest: Seq<u8>)
    requires
        forall|i: int| 0 <= i < list.len() ==> tuple::row_fits(#[trigger] list[i]),
    ensures
        take_list_spec(enc_list(list) + rest, list.len()) == Ok::<(Seq<Row>, Seq<u8>), CodecError>(
            (list, rest),
        ),
    decreases list.len(),
{
    if list.len() == 0 {
        assert(enc_list(list) + rest =~= rest);
        assert(list =~= seq![]);
    } else {
        let more = list.skip(1);
        enc_list_front(list);
        codec::regroup(tuple::enc_row(list[0]), enc_list(more), rest);
        assert(tuple::row_fits(list[0]));
        tuple::row_round_trip(list[0], enc_list(more) + rest);
        assert forall|i: int| 0 <= i < more.len() implies tuple::row_fits(#[trigger] more[i]) by {
            assert(more[i] == list[i + 1]);
        }
        list_round_trip(more, rest);
        assert(seq![list[0]] + more =~= list);
    }
}

/// The tuples of a page are taken back from its data, whatever follows them.
proof fn store_round_trip(list: Seq<Row>, record_size: Option<usize>, rest: Seq<u8>)
    requires
        forall|i: int| 0 <= i < list.len() ==> tuple::row_fits(#[trigger] list[i]),
        list.len() <= u64::MAX,
        enc_tuples(list).len() < codec::WIDE,
    ensures
        take_store_spec(enc_store(list, record_size) + rest, record_size is Some) == Ok::<
            Seq<Row>,
            CodecError,
        >(list),
{
    let count = codec::varint(list.len());
    let body = enc_list(list);
    match record_size {
        None => {
            codec::regroup(count, body, rest);
            codec::u64_round_trip(list.len() as u64, body + rest);
            list_round_trip(list, rest);
        },
        Some(n) => {
            let size = codec::varint(n as nat);
            let inner = codec::enc_bytes(enc_tuples(list));
            codec::regroup(size, inner, rest);
            codec::u64_round_trip(n as u64, inner + rest);
            codec::bytes_round_trip(enc_tuples(list), rest);
            codec::u64_round_trip(list.len() as u64, body);
            list_round_trip(list, seq![]);
            assert(body + Seq::<u8>::empty() =~= body);
        },
    }
}

/// A page header is taken back from its slot.
proof fn head_round_trip(h: Head, rest: Seq<u8>)
    requires
        h.high_key matches Some(k) ==> tuple::key_fits(k),
    ensures
        page::take_head_spec(page::enc_head(h) + rest) == Ok::<Head, CodecError>(h),
        page::enc_head(h).len() <= 49 + (match h.high_key {
            Some(k) => tuple::enc_key(k).len(),
            None => 0,
        }),
{
    codec::le_limits();
    let e1 = codec::le_bytes(h.next_page as nat, 8);
    let e2 = codec::le_bytes(h.page_data_size as nat, 8);
    let e3 = codec::le_bytes(h.page_used_size as nat, 8);
    let e4 = codec::enc_opt(page::opt_num(h.record_size));
    let e5 = codec::varint(h.lsn.0 as nat);
    let e6 = codec::varint(h.flags as nat);
    let e7 = page::enc_opt_key(h.high_key);
    let t6 = e6 + (e7 + rest);
    let t5 = e5 + t6;
    let t4 = e4 + t5;
    let t3 = e3 + t4;
    let t2 = e2 + t3;
    codec::regroup(e6, e7, rest);
    codec::regroup(e5, e6 + e7, rest);
    codec::regroup(e4, e5 + (e6 + e7), rest);
    codec::regroup(e3, e4 + (e5 + (e6 + e7)), rest);
    codec::regroup(e2, e3 + (e4 + (e5 + (e6 + e7))), rest);
    codec::regroup(e1, e2 + (e3 + (e4 + (e5 + (e6 + e7)))), rest);
    eight_round_trip(h.next_page, t2);
    eight_round_trip(h.page_data_size, t3);
    eight_round_trip(h.page_used_size, t4);
    codec::opt_round_trip(page::opt_num(h.record_size), t5);
    codec::u64_round_trip(h.lsn.0, t6);
    codec::u16_round_trip(h.flags, e7 + rest);
    opt_key_round_trip(h.high_key, rest);
}

/// A number of eight bytes is taken back.
proof fn eight_round_trip(n: u64, rest: Seq<u8>)
    ensures
        page::take_eight_spec(codec::le_bytes(n as nat, 8) + rest) == Ok::<
            (u64, Seq<u8>),
            CodecError,
        >((n, rest)),
        codec::le_bytes(n as nat, 8).len() == 8,
{
    codec::le_limits();
    codec::le_bytes_len(n as nat, 8);
    codec::le_round_trip(n as nat, 8);
    let s = codec::le_bytes(n as nat, 8) + rest;
    assert(s.take(8) =~= codec::le_bytes(n as nat, 8));
    assert(s.skip(8) =~= rest);
}

/// An optional key is taken back.
proof fn opt_key_round_trip(k: Option<Key>, rest: Seq<u8>)
    requires
        k matches Some(k) ==> tuple::key_fits(k),
    ensures
        page::take_opt_key_spec(page::enc_opt_key(k) + rest) == Ok::<
            (Option<Key>, Seq<u8>),
            CodecError,
        >((k, rest)),
{
    let s = page::enc_opt_key(k) + rest;
    match k {
        None => {
            assert(s.skip(1) =~= rest);
        },
        Some(k) => {
            assert(s.skip(1) =~= tuple::enc_key(k) + rest);
            tuple::key_round_trip(k, rest);
        },
    }
}

/// Tuples in order are what they are by their keys.
proof fn put_all_listed(items: Seq<Item>)
    requires
        rows::sorted(items),
        forall|i: int| 0 <= i < items.len() ==> (#[trigger] items[i]).table == TableIdType(0),
    ensures
        put_all(page::listed(items)) == page::by_key(assoc::assoc(rows::pairs(items))),
    decreases items.len(),
{
    let list = page::listed(items);
    if items.len() == 0 {
        assert(rows::pairs(items) =~= Seq::empty());
        assoc::assoc_empty::<Place, Row>();
        assert(put_all(list) =~= page::by_key(assoc::assoc(rows::pairs(items))));
    } else {
        let front = items.drop_last();
        let it = items.last();
        assert forall|i: int, j: int| 0 <= i < j < front.len() implies rows::place_before(
            (#[trigger] front[i]).place(),
            (#[trigger] front[j]).place(),
        ) by {
            assert(items[i] == front[i] && items[j] == front[j]);
        }
        assert forall|i: int| 0 <= i < front.len() implies (#[trigger] front[i]).table
            == TableIdType(0) by {
            assert(items[i] == front[i]);
        }
        put_all_listed(front);
        rows::sorted_unique(items);
        rows::sorted_unique(front);
        let pairs = rows::pairs(front);
        assert(rows::pairs(items) =~= pairs.push((it.place(), it.tuple@)));
        assert forall|i: int| 0 <= i < pairs.len() implies (#[trigger] pairs[i]).0
            != it.place() by {
            assert(rows::place_before(items[i].place(), items[items.len() - 1].place()));
            rows::place_before_total(items[i].place(), it.place());
        }
        assoc::assoc_absent(pairs, it.place());
        assoc::assoc_push(pairs, it.place(), it.tuple@);
        assert(list.drop_last() =~= page::listed(front));
        assert(list.last() == it.tuple@);
        assert(items[items.len() - 1].table == TableIdType(0));
        let m = assoc::assoc(pairs);
        assert(page::by_key(m.insert(it.place(), it.tuple@)) =~= page::by_key(m).insert(
            it.tuple@.id,
            it.tuple@,
        ));
    }
}

/// A page that was written is read back as it was, but for its clock, and not
/// in need of being written again.
pub proof fn page_round_trip(p: Page)
    requires
        p.wf(),
        page::enc_head(page::head_of(p@)).len() <= PAGE_OVERHEAD,
        forall|i: int| 0 <= i < p.list().len() ==> tuple::row_fits(#[trigger] p.list()[i]),
        p@.high_key matches Some(k) ==> tuple::key_fits(k),
        p.list().len() <= u64::MAX,
        enc_tuples(p.list()).len() < codec::WIDE,
    ensures
        take_page_spec(enc_page(p@, p.list())) == Ok::<Sheet, CodecError>(
            Sheet { dirty: false, clock: None, ..p@ },
        ),
{
    let v = p@;
    let h = page::head_of(v);
    let head = page::enc_head(h);
    let store = enc_store(p.list(), v.record_size);
    let s = enc_page(v, p.list());
    let slot = codec::padded(head, PAGE_OVERHEAD as nat);
    let data = codec::padded(store, v.data_size as nat);
    assert(s.take(PAGE_OVERHEAD as int) =~= slot);
    assert(s.skip(PAGE_OVERHEAD as int) =~= data);
    head_round_trip(h, slot.skip(head.len() as int));
    assert(slot =~= head + slot.skip(head.len() as int));
    store_round_trip(p.list(), v.record_size, data.skip(store.len() as int));
    assert(data =~= store + data.skip(store.len() as int));
    put_all_listed(p.tuples.items@);
    let f = v.flags;
    assert(f & 4 == 0 ==> (f | 4) & 4 != 0 && (f | 4) & !4u16 == f && (f & !4u16) & 4 == 0 && (f
        & !4u16) & !4u16 == f) by (bit_vector);
    assert(loaded(h, p.list()) =~= (Sheet { dirty: false, clock: None, ..v }));
}

/// Tuples take as many bytes as their sizes add up to.
proof fn enc_list_len(list: Seq<Row>)
    ensures
        enc_list(list).len() == page::sizes(list),
    decreases list.len(),
{
    if list.len() > 0 {
        enc_list_len(list.drop_last());
    }
}

/// Every tuple takes at least one byte.
proof fn sizes_count(list: Seq<Row>)
    ensures
        page::sizes(list) >= list.len(),
    decreases list.len(),
{
    if list.len() > 0 {
        sizes_count(list.drop_last());
        let k = list.last().id;
        codec::u64_round_trip(0, seq![]);
        codec::u64_round_trip(1, seq![]);
        assert(tuple::enc_key(k).len() >= 1);
        assert(tuple::enc_row(list.last()).len() >= tuple::enc_key(k).len());
    }
}

/// The margin is enough: tuples whose sizes stay within what a page may take
/// fit on it, with all the lengths that are written before them.
pub proof fn what_may_be_stored_fits(list: Seq<Row>, data_size: u64, record_size: Option<usize>)
    requires
        page::sizes(list) <= page::usable(data_size),
        USABLE_DATA_MARGIN <= data_size <= 0x10_0000,
        record_size matches Some(n) ==> n < 0x1_0000_0000,
    ensures
        enc_store(list, record_size).len() <= data_size,
        codec::padded(enc_store(list, record_size), data_size as nat).len() == data_size,
{
    enc_list_len(list);
    sizes_count(list);
    codec::varint_limits();
    reveal_with_fuel(codec::varint_limit, 4);
    assert(codec::varint_limit(3, 127) == 0x20_0000);
    codec::varint_len(list.len(), 3, 127);
    match record_size {
        None => {},
        Some(n) => {
            codec::varint_len(n as nat, 5, 15);
            codec::varint_len(enc_tuples(list).len(), 3, 127);
        },
    }
}

} // verus!

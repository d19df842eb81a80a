//! The pages that say what else is in a database file: the tables, the
//! sequences and the free pages.
use vstd::prelude::*;
use vstd::string::*;

use crate::assoc;
use crate::codec;
use crate::codec::{put_text, put_u64, take_text, take_u64, CodecError};
use crate::error::{Fault, StoreError};
use crate::generator;
use crate::page;
use crate::page::{Page, PageId, Sheet, PAGE_OVERHEAD, PINNED};
use crate::rows;
use crate::table;
use crate::table::{Tab, Table, TableIdType};
use crate::tuple;
use crate::tuple::{DBIdType, Key, Row, Tuple};

verus! {

/// The pages that say what else is in the file.
pub struct SystemPages {
    /// The tables: one tuple for each.
    pub catalog: Page,
    /// The sequences with their next values, in one tuple.
    pub sequences: Page,
    /// The pages that are free, in one tuple.
    pub free: Page,
}

/// A tuple of a system page: a number for a key, and bytes.
pub open spec fn entry(i: u64, data: Seq<u8>) -> Row {
    Row { id: Key::Int(i), txn_id: None, pre_lsn: None, data, tombstone: false }
}

/// A page with one more tuple, if it takes it.
pub open spec fn with_entry(r: Result<Sheet, Fault>, row: Row) -> Result<Sheet, Fault> {
    match r {
        Err(f) => Err(f),
        Ok(v) => match page::add_fault(v, row) {
            Some(f) => Err(f),
            None => Ok(
                page::touched(
                    Sheet {
                        tuples: v.tuples.insert(row.id, row),
                        used: (v.used + tuple::enc_row(row).len()) as u64,
                        ..v
                    },
                ),
            ),
        },
    }
}

/// The page of the tables, if they fit.
pub open spec fn catalog_sheet(ts: Seq<Tab>, page_size: u64) -> Result<Sheet, Fault>
    decreases ts.len(),
{
    if ts.len() == 0 {
        Ok(page::blank(page_size, PINNED, None))
    } else {
        with_entry(
            catalog_sheet(ts.drop_last(), page_size),
            entry((ts.len() - 1) as u64, table::enc_table(ts.last())),
        )
    }
}

/// A page that holds one tuple.
pub open spec fn single_sheet(data: Seq<u8>, page_size: u64) -> Sheet {
    with_entry(Ok(page::blank(page_size, PINNED, None)), entry(0, data))->Ok_0
}

/// The bytes of names with numbers.
pub open spec fn enc_values(vs: Seq<(Seq<char>, u64)>) -> Seq<u8>
    decreases vs.len(),
{
    if vs.len() == 0 {
        seq![]
    } else {
        enc_values(vs.drop_last()) + (codec::enc_text(vs.last().0) + codec::varint(
            vs.last().1 as nat,
        ))
    }
}

/// The bytes of page numbers.
pub open spec fn enc_ids(ids: Seq<PageId>) -> Seq<u8>
    decreases ids.len(),
{
    if ids.len() == 0 {
        seq![]
    } else {
        enc_ids(ids.drop_last()) + codec::varint(ids.last().0 as nat)
    }
}

/// Puts what was taken behind what was taken before.
pub open spec fn and_then_more<T>(
    front: Seq<T>,
    more: Result<(Seq<T>, Seq<u8>), CodecError>,
) -> Result<(Seq<T>, Seq<u8>), CodecError> {
    match more {
        Ok((list, rest)) => Ok((front + list, rest)),
        Err(e) => Err(e),
    }
}

/// The `n` names with numbers at the front of `s`.
pub open spec fn take_values_spec(s: Seq<u8>, n: nat) -> Result<
    (Seq<(Seq<char>, u64)>, Seq<u8>),
    CodecError,
>
    decreases n,
{
    if n == 0 {
        Ok((seq![], s))
    } else {
        match codec::take_text_spec(s) {
            Err(e) => Err(e),
            Ok((name, s)) => match codec::take_u64_spec(s) {
                Err(e) => Err(e),
                Ok((v, s)) => and_then_more(seq![(name, v)], take_values_spec(s, (n - 1) as nat)),
            },
        }
    }
}

/// The `n` page numbers at the front of `s`.
pub open spec fn take_ids_spec(s: Seq<u8>, n: nat) -> Result<(Seq<PageId>, Seq<u8>), CodecError>
    decreases n,
{
    if n == 0 {
        Ok((seq![], s))
    } else {
        match codec::take_u64_spec(s) {
            Err(e) => Err(e),
            Ok((p, s)) => and_then_more(seq![PageId(p)], take_ids_spec(s, (n - 1) as nat)),
        }
    }
}

/// The sequences in the bytes of their tuple.
pub open spec fn values_of(s: Seq<u8>) -> Result<Seq<(Seq<char>, u64)>, CodecError> {
    match codec::take_u64_spec(s) {
        Err(e) => Err(e),
        Ok((n, s)) => match take_values_spec(s, n as nat) {
            Err(e) => Err(e),
            Ok((vs, _)) => Ok(vs),
        },
    }
}

/// The free pages in the bytes of their tuple.
pub open spec fn ids_of(s: Seq<u8>) -> Result<Seq<PageId>, CodecError> {
    match codec::take_u64_spec(s) {
        Err(e) => Err(e),
        Ok((n, s)) => match take_ids_spec(s, n as nat) {
            Err(e) => Err(e),
            Ok((ids, _)) => Ok(ids),
        },
    }
}

/// The tables in the tuples of their page, in order.
pub open spec fn tables_of(list: Seq<Row>) -> Result<Seq<Tab>, CodecError>
    decreases list.len(),
{
    if list.len() == 0 {
        Ok(seq![])
    } else {
        match tables_of(list.drop_last()) {
            Err(e) => Err(e),
            Ok(ts) => match table::take_table_spec(list.last().data) {
                Err(e) => Err(e),
                Ok(t) => Ok(ts.push(t)),
            },
        }
    }
}

/// The bytes of a page's only tuple, or none.
pub open spec fn single_data(v: Sheet) -> Seq<u8> {
    if v.tuples.dom().contains(Key::Int(0)) {
        v.tuples[Key::Int(0)].data
    } else {
        seq![]
    }
}

/// The bytes of the sequences' tuple.
fn values_bytes(vs: &Vec<(String, u64)>) -> (out: Vec<u8>)
    ensures
        out@ == codec::varint(vs@.len()) + enc_values(generator::value_pairs(vs@)),
{
    let ghost all = generator::value_pairs(vs@);
    let mut out: Vec<u8> = Vec::new();
    put_u64(&mut out, vs.len() as u64);
    assert(out@ =~= codec::varint(vs@.len()) + enc_values(all.take(0)));
    for i in 0..vs.len()
        invariant
            all == generator::value_pairs(vs@),
            out@ == codec::varint(vs@.len()) + enc_values(all.take(i as int)),
    {
        put_text(&mut out, vs[i].0.as_str());
        put_u64(&mut out, vs[i].1);
        proof {
            assert(all.take(i + 1).drop_last() =~= all.take(i as int));
            assert(all.take(i + 1).last() == all[i as int]);
            assert(out@ =~= codec::varint(vs@.len()) + enc_values(all.take(i + 1)));
        }
    }
    assert(all.take(all.len() as int) =~= all);
    out
}

/// The bytes of the free pages' tuple.
fn ids_bytes(ids: &Vec<PageId>) -> (out: Vec<u8>)
    ensures
        out@ == codec::varint(ids@.len()) + enc_ids(ids@),
{
    let mut out: Vec<u8> = Vec::new();
    put_u64(&mut out, ids.len() as u64);
    assert(out@ =~= codec::varint(ids@.len()) + enc_ids(ids@.take(0)));
    for i in 0..ids.len()
        invariant
            out@ == codec::varint(ids@.len()) + enc_ids(ids@.take(i as int)),
    {
        put_u64(&mut out, ids[i].0);
        proof {
            assert(ids@.take(i + 1).drop_last() =~= ids@.take(i as int));
            assert(ids@.take(i + 1).last() == ids@[i as int]);
            assert(out@ =~= codec::varint(ids@.len()) + enc_ids(ids@.take(i + 1)));
        }
    }
    assert(ids@.take(ids@.len() as int) =~= ids@);
    out
}

/// A page that holds one tuple, however large.
fn single_page(data: &[u8], page_size: u64) -> (p: Page)
    requires
        page_size >= PAGE_OVERHEAD,
    ensures
        p.wf(),
        p.accounts(),
        p@ == single_sheet(data@, page_size),
        p@.tuples == Map::<Key, Row>::empty().insert(Key::Int(0), entry(0, data@)),
{
    let mut p = Page::new_pinned(page_size);
    let _done = p.add_tuple(Tuple::new(0, data));
    p
}

/// Builds the pages that say what else is in the file. Fails if there are more
/// tables than their page holds.
pub fn write_system_tables(
    tables: &Vec<Table>,
    values: &Vec<(String, u64)>,
    free: &Vec<PageId>,
    page_size: u64,
) -> (r: Result<SystemPages, StoreError>)
    requires
        page_size >= PAGE_OVERHEAD,
    ensures
        match r {
            Ok(s) => {
                &&& s.catalog.wf() && s.sequences.wf() && s.free.wf()
                &&& catalog_sheet(table::tabs(tables@), page_size) == Ok::<Sheet, Fault>(
                    s.catalog@,
                )
                &&& s.sequences@ == single_sheet(
                    codec::varint(values@.len()) + enc_values(generator::value_pairs(values@)),
                    page_size,
                )
                &&& s.free@ == single_sheet(
                    codec::varint(free@.len()) + enc_ids(free@),
                    page_size,
                )
            },
            Err(e) => catalog_sheet(table::tabs(tables@), page_size) == Err::<Sheet, Fault>(e@),
        },
{
    let ghost ts = table::tabs(tables@);
    let mut catalog = Page::new_pinned(page_size);
    assert(ts.take(0) =~= seq![]);
    for i in 0..tables.len()
        invariant
            ts == table::tabs(tables@),
            catalog.wf(),
            catalog_sheet(ts.take(i as int), page_size) == Ok::<Sheet, Fault>(catalog@),
    {
        let bytes = tables[i].to_bytes();
        proof {
            assert(ts.take(i + 1).drop_last() =~= ts.take(i as int));
            assert(ts.take(i + 1).last() == tables@[i as int]@);
        }
        match catalog.add_tuple(Tuple::new(i as u64, bytes.as_slice())) {
            Ok(()) => {},
            Err(e) => {
                proof {
                    catalog_stays_full(ts, page_size, i + 1);
                }
                return Err(e);
            },
        }
    }
    assert(ts.take(ts.len() as int) =~= ts);
    let value_data = values_bytes(values);
    let free_data = ids_bytes(free);
    Ok(
        SystemPages {
            catalog,
            sequences: single_page(value_data.as_slice(), page_size),
            free: single_page(free_data.as_slice(), page_size),
        },
    )
}

/// Tables that do not fit do not fit with more of them.
proof fn catalog_stays_full(ts: Seq<Tab>, page_size: u64, k: int)
    requires
        0 <= k <= ts.len(),
    ensures
        catalog_sheet(ts.take(k), page_size) matches Err(f) ==> catalog_sheet(ts, page_size) == Err::<
            Sheet,
            Fault,
        >(f),
    decreases ts.len() - k,
{
    if k < ts.len() {
        catalog_stays_full(ts, page_size, k + 1);
        assert(ts.take(k + 1).drop_last() =~= ts.take(k));
    } else {
        assert(ts.take(k) =~= ts);
    }
}

/// Takes names with numbers off the front of `bytes`, their count before them.
fn take_values(bytes: &[u8]) -> (r: Result<Vec<(String, u64)>, CodecError>)
    ensures
        match (r, values_of(bytes@)) {
            (Ok(vs), Ok(w)) => generator::value_pairs(vs@) == w,
            (Err(e), Err(f)) => e == f,
            _ => false,
        },
{
    let (n, start) = match take_u64(bytes) {
        Ok(x) => x,
        Err(e) => {
            return Err(e);
        },
    };
    let ghost whole = start@;
    let mut rest = start;
    let mut out: Vec<(String, u64)> = Vec::new();
    let mut i: u64 = 0;
    proof {
        let none = generator::value_pairs(out@);
        assert(none =~= seq![]);
        match take_values_spec(whole, n as nat) {
            Ok((list, tail)) => {
                assert(none + list =~= list);
            },
            Err(e) => {},
        }
    }
    while i < n
        invariant
            i <= n,
            take_values_spec(whole, n as nat) == and_then_more(
                generator::value_pairs(out@),
                take_values_spec(rest@, (n - i) as nat),
            ),
            values_of(bytes@) == match take_values_spec(whole, n as nat) {
                Err(e) => Err::<Seq<(Seq<char>, u64)>, CodecError>(e),
                Ok((vs, _)) => Ok(vs),
            },
        decreases n - i,
    {
        let ghost was = generator::value_pairs(out@);
        let (name, tail) = match take_text(rest) {
            Ok(x) => x,
            Err(e) => {
                return Err(e);
            },
        };
        let (v, tail) = match take_u64(tail) {
            Ok(x) => x,
            Err(e) => {
                return Err(e);
            },
        };
        let ghost item = (name@, v);
        out.push((name, v));
        proof {
            assert(generator::value_pairs(out@) =~= was + seq![item]);
            match take_values_spec(tail@, (n - i - 1) as nat) {
                Ok((list, end)) => {
                    assert(was + (seq![item] + list) =~= (was + seq![item]) + list);
                },
                Err(e) => {},
            }
        }
        rest = tail;
        i = i + 1;
    }
    proof {
        let all = generator::value_pairs(out@);
        assert(all + seq![] =~= all);
    }
    Ok(out)
}

/// Takes page numbers off the front of `bytes`, their count before them.
fn take_ids(bytes: &[u8]) -> (r: Result<Vec<PageId>, CodecError>)
    ensures
        match (r, ids_of(bytes@)) {
            (Ok(ids), Ok(w)) => ids@ == w,
            (Err(e), Err(f)) => e == f,
            _ => false,
        },
{
    let (n, start) = match take_u64(bytes) {
        Ok(x) => x,
        Err(e) => {
            return Err(e);
        },
    };
    let ghost whole = start@;
    let mut rest = start;
    let mut out: Vec<PageId> = Vec::new();
    let mut i: u64 = 0;
    proof {
        match take_ids_spec(whole, n as nat) {
            Ok((list, tail)) => {
                assert(out@ + list =~= list);
            },
            Err(e) => {},
        }
    }
    while i < n
        invariant
            i <= n,
            take_ids_spec(whole, n as nat) == and_then_more(
                out@,
                take_ids_spec(rest@, (n - i) as nat),
            ),
            ids_of(bytes@) == match take_ids_spec(whole, n as nat) {
                Err(e) => Err::<Seq<PageId>, CodecError>(e),
                Ok((ids, _)) => Ok(ids),
            },
        decreases n - i,
    {
        let ghost was = out@;
        let (p, tail) = match take_u64(rest) {
            Ok(x) => x,
            Err(e) => {
                return Err(e);
            },
        };
        out.push(PageId(p));
        proof {
            assert(out@ =~= was + seq![PageId(p)]);
            match take_ids_spec(tail@, (n - i - 1) as nat) {
                Ok((list, end)) => {
                    assert(was + (seq![PageId(p)] + list) =~= (was + seq![PageId(p)]) + list);
                },
                Err(e) => {},
            }
        }
        rest = tail;
        i = i + 1;
    }
    assert(out@ + seq![] =~= out@);
    Ok(out)
}

/// What the system pages say.
pub struct Loaded {
    pub tables: Vec<Table>,
    pub values: Vec<(String, u64)>,
    pub free: Vec<PageId>,
}

/// What the system pages say, as values; or why they cannot be read.
pub open spec fn loaded(s: SystemPages) -> Result<
    (Seq<Tab>, Seq<(Seq<char>, u64)>, Seq<PageId>),
    CodecError,
> {
    match tables_of(s.catalog.list()) {
        Err(e) => Err(e),
        Ok(ts) => match values_of(single_data(s.sequences@)) {
            Err(e) => Err(e),
            Ok(vs) => match ids_of(single_data(s.free@)) {
                Err(e) => Err(e),
                Ok(ids) => Ok((ts, vs, ids)),
            },
        },
    }
}

/// The bytes of a page's only tuple, or none.
fn data_of(p: &Page) -> (out: Vec<u8>)
    requires
        p.wf(),
    ensures
        out@ == single_data(p@),
{
    match p.get(DBIdType::Int(0)) {
        Some(t) => t.data,
        None => Vec::new(),
    }
}

/// Reads the system pages.
pub fn load_system_tables(s: &SystemPages) -> (r: Result<Loaded, StoreError>)
    requires
        s.catalog.wf(),
        s.sequences.wf(),
        s.free.wf(),
    ensures
        match (r, loaded(*s)) {
            (Ok(l), Ok((ts, vs, ids))) => table::tabs(l.tables@) == ts && generator::value_pairs(
                l.values@,
            ) == vs && l.free@ == ids,
            (Err(e), Err(f)) => e@ == Fault::Serialization(f),
            _ => false,
        },
{
    let list = s.catalog.iter();
    let ghost rows = s.catalog.list();
    let mut tables: Vec<Table> = Vec::new();
    proof {
        assert(rows.take(0) =~= seq![]);
        assert(table::tabs(tables@) =~= seq![]);
    }
    for i in 0..list.len()
        invariant
            rows == s.catalog.list(),
            rows == list@.map_values(|t: Tuple| t@),
            tables_of(rows.take(i as int)) == Ok::<Seq<Tab>, CodecError>(table::tabs(tables@)),
    {
        proof {
            assert(rows.take(i + 1).drop_last() =~= rows.take(i as int));
            assert(rows.take(i + 1).last() == list@[i as int]@);
            tables_stop(rows, i + 1);
        }
        match Table::from_bytes(list[i].data.as_slice()) {
            Ok(t) => {
                let ghost was = table::tabs(tables@);
                let ghost this = t@;
                tables.push(t);
                assert(table::tabs(tables@) =~= was.push(this));
            },
            Err(e) => {
                return Err(StoreError::SerializationError(e));
            },
        }
    }
    assert(rows.take(rows.len() as int) =~= rows);
    let value_data = data_of(&s.sequences);
    let values = match take_values(value_data.as_slice()) {
        Ok(vs) => vs,
        Err(e) => {
            return Err(StoreError::SerializationError(e));
        },
    };
    let free_data = data_of(&s.free);
    match take_ids(free_data.as_slice()) {
        Ok(free) => Ok(Loaded { tables, values, free }),
        Err(e) => Err(StoreError::SerializationError(e)),
    }
}

/// A tuple that is no table spoils the catalog.
proof fn tables_stop(rows: Seq<Row>, k: int)
    requires
        0 <= k <= rows.len(),
    ensures
        tables_of(rows.take(k)) matches Err(e) ==> tables_of(rows) == Err::<Seq<Tab>, CodecError>(
            e,
        ),
    decreases rows.len() - k,
{
    if k < rows.len() {
        tables_stop(rows, k + 1);
        assert(rows.take(k + 1).drop_last() =~= rows.take(k));
    } else {
        assert(rows.take(k) =~= rows);
    }
}

// ---------------------------------------------------------------------------
// What is written is what is loaded
// ---------------------------------------------------------------------------

/// Names with numbers, from the front.
proof fn enc_values_front(vs: Seq<(Seq<char>, u64)>)
    requires
        vs.len() > 0,
    ensures
        enc_values(vs) == (codec::enc_text(vs[0].0) + codec::varint(vs[0].1 as nat)) + enc_values(
            vs.skip(1),
        ),
    decreases vs.len(),
{
    let first = codec::enc_text(vs[0].0) + codec::varint(vs[0].1 as nat);
    if vs.len() == 1 {
        assert(vs.drop_last() =~= seq![]);
        assert(vs.skip(1) =~= seq![]);
        assert(enc_values(vs) =~= first + enc_values(vs.skip(1)));
    } else {
        let front = vs.drop_last();
        enc_values_front(front);
        assert(front.skip(1) =~= vs.skip(1).drop_last());
        codec::regroup(
            first,
            enc_values(front.skip(1)),
            codec::enc_text(vs.last().0) + codec::varint(vs.last().1 as nat),
        );
    }
}

/// Names with numbers read back.
proof fn values_round_trip(vs: Seq<(Seq<char>, u64)>, rest: Seq<u8>)
    requires
        forall|i: int|
            0 <= i < vs.len() ==> vstd::utf8::encode_utf8((#[trigger] vs[i]).0).len() < codec::WIDE,
    ensures
        take_values_spec(enc_values(vs) + rest, vs.len()) == Ok::<
            (Seq<(Seq<char>, u64)>, Seq<u8>),
            CodecError,
        >((vs, rest)),
    decreases vs.len(),
{
    if vs.len() == 0 {
        assert(enc_values(vs) + rest =~= rest);
        assert(vs =~= seq![]);
    } else {
        let more = vs.skip(1);
        let a = codec::enc_text(vs[0].0);
        let b = codec::varint(vs[0].1 as nat);
        let tail = enc_values(more) + rest;
        enc_values_front(vs);
        codec::regroup(a + b, enc_values(more), rest);
        codec::regroup(a, b, tail);
        assert(vstd::utf8::encode_utf8(vs[0].0).len() < codec::WIDE);
        codec::text_round_trip(vs[0].0, b + tail);
        codec::u64_round_trip(vs[0].1, tail);
        assert forall|i: int| 0 <= i < more.len() implies vstd::utf8::encode_utf8(
            (#[trigger] more[i]).0,
        ).len() < codec::WIDE by {
            assert(more[i] == vs[i + 1]);
        }
        values_round_trip(more, rest);
        assert(seq![vs[0]] + more =~= vs);
    }
}

/// Page numbers, from the front.
proof fn enc_ids_front(ids: Seq<PageId>)
    requires
        ids.len() > 0,
    ensures
        enc_ids(ids) == codec::varint(ids[0].0 as nat) + enc_ids(ids.skip(1)),
    decreases ids.len(),
{
    if ids.len() == 1 {
        assert(ids.drop_last() =~= seq![]);
        assert(ids.skip(1) =~= seq![]);
        assert(enc_ids(ids) =~= codec::varint(ids[0].0 as nat) + enc_ids(ids.skip(1)));
    } else {
        let front = ids.drop_last();
        enc_ids_front(front);
        assert(front.skip(1) =~= ids.skip(1).drop_last());
        codec::regroup(
            codec::varint(ids[0].0 as nat),
            enc_ids(front.skip(1)),
            codec::varint(ids.last().0 as nat),
        );
    }
}

/// Page numbers read back.
proof fn ids_round_trip(ids: Seq<PageId>, rest: Seq<u8>)
    ensures
        take_ids_spec(enc_ids(ids) + rest, ids.len()) == Ok::<(Seq<PageId>, Seq<u8>), CodecError>(
            (ids, rest),
        ),
    decreases ids.len(),
{
    if ids.len() == 0 {
        assert(enc_ids(ids) + rest =~= rest);
        assert(ids =~= seq![]);
    } else {
        let more = ids.skip(1);
        enc_ids_front(ids);
        codec::regroup(codec::varint(ids[0].0 as nat), enc_ids(more), rest);
        codec::u64_round_trip(ids[0].0, enc_ids(more) + rest);
        ids_round_trip(more, rest);
        assert(seq![ids[0]] + more =~= ids);
    }
}

/// The tuples of the tables' page.
proof fn catalog_tuples(ts: Seq<Tab>, page_size: u64)
    requires
        ts.len() <= u64::MAX,
    ensures
        catalog_sheet(ts, page_size) matches Ok(v) ==> (forall|k: Key| #[trigger]
            v.tuples.dom().contains(k) <==> (k matches Key::Int(i) && i < ts.len())) && (forall|
            i: u64,
        |
            i < ts.len() ==> #[trigger] v.tuples[Key::Int(i)] == entry(
                i,
                table::enc_table(ts[i as int]),
            )),
    decreases ts.len(),
{
    if ts.len() > 0 {
        catalog_tuples(ts.drop_last(), page_size);
    }
}

/// The tuples of the tables' page in order.
proof fn catalog_list(p: Page, ts: Seq<Tab>, page_size: u64)
    requires
        p.wf(),
        ts.len() <= u64::MAX,
        catalog_sheet(ts, page_size) == Ok::<Sheet, Fault>(p@),
    ensures
        p.list().len() == ts.len(),
        forall|i: int|
            0 <= i < ts.len() ==> (#[trigger] p.list()[i]) == entry(
                i as u64,
                table::enc_table(ts[i]),
            ),
{
    let list = p.list();
    let keys = list.map_values(|r: Row| r.id->Int_0 as int);
    catalog_tuples(ts, page_size);
    catalog_keys(p, ts);
    assert forall|i: int, j: int| 0 <= i < j < keys.len() implies (#[trigger] keys[i]) < (
    #[trigger] keys[j]) by {
        assert(list[i].id->Int_0 < list[j].id->Int_0);
    }
    assert forall|j: int| 0 <= j < keys.len() implies 0 <= (#[trigger] keys[j]) < ts.len() by {
        assert(list[j].id is Int);
    }
    assert forall|v: int| 0 <= v < ts.len() implies #[trigger] keys.contains(v) by {
        let k = Key::Int(v as u64);
        assert(p@.tuples.dom().contains(k));
        let items = p.tuples.items@;
        rows::sorted_unique(items);
        let m = assoc::assoc_find(rows::pairs(items), page::on_page(k));
        assert(items[m].place() == page::on_page(k));
        assert(keys[m] == v);
    }
    dense(keys, ts.len());
    assert forall|i: int| 0 <= i < ts.len() implies (#[trigger] list[i]) == entry(
        i as u64,
        table::enc_table(ts[i]),
    ) by {
        assert(keys[i] == i);
        assert(list[i].id is Int);
    }
}

/// Numbers that grow and are all of those below `n` are just these, in order.
proof fn dense(keys: Seq<int>, n: nat)
    requires
        forall|i: int, j: int| 0 <= i < j < keys.len() ==> (#[trigger] keys[i]) < (#[trigger] keys[j]),
        forall|j: int| 0 <= j < keys.len() ==> 0 <= (#[trigger] keys[j]) < n,
        forall|v: int| 0 <= v < n ==> #[trigger] keys.contains(v),
    ensures
        keys.len() == n,
        forall|i: int| 0 <= i < n ==> #[trigger] keys[i] == i,
    decreases n,
{
    if n == 0 {
        if keys.len() > 0 {
            assert(0 <= keys[0] < n);
        }
    } else {
        let top = n - 1;
        assert(keys.contains(top));
        let m = choose|m: int| 0 <= m < keys.len() && keys[m] == top;
        if m < keys.len() - 1 {
            assert(keys[m] < keys[keys.len() - 1]);
        }
        let less = keys.drop_last();
        assert forall|j: int| 0 <= j < less.len() implies 0 <= (#[trigger] less[j]) < top by {
            assert(keys[j] < keys[keys.len() - 1]);
        }
        assert forall|v: int| 0 <= v < top implies #[trigger] less.contains(v) by {
            assert(keys.contains(v));
            let j = choose|j: int| 0 <= j < keys.len() && keys[j] == v;
            assert(less[j] == v);
        }
        dense(less, top as nat);
        assert forall|i: int| 0 <= i < n implies #[trigger] keys[i] == i by {
            if i < top {
                assert(less[i] == i);
            }
        }
    }
}

/// Every tuple of the tables' page has a number for a key and its table's
/// bytes, and the numbers grow.
proof fn catalog_keys(p: Page, ts: Seq<Tab>)
    requires
        p.wf(),
        forall|k: Key| #[trigger]
            p@.tuples.dom().contains(k) <==> (k matches Key::Int(i) && i < ts.len()),
        forall|i: u64|
            i < ts.len() ==> #[trigger] p@.tuples[Key::Int(i)] == entry(
                i,
                table::enc_table(ts[i as int]),
            ),
    ensures
        forall|j: int|
            0 <= j < p.list().len() ==> (#[trigger] p.list()[j]).id is Int
                && p.list()[j].id->Int_0 < ts.len() && p.list()[j] == entry(
                p.list()[j].id->Int_0,
                table::enc_table(ts[p.list()[j].id->Int_0 as int]),
            ),
        forall|i: int, j: int|
            0 <= i < j < p.list().len() ==> (#[trigger] p.list()[i]).id->Int_0 < (
            #[trigger] p.list()[j]).id->Int_0,
{
    let items = p.tuples.items@;
    let list = p.list();
    rows::sorted_unique(items);
    let pairs = rows::pairs(items);
    assert forall|j: int| 0 <= j < list.len() implies (#[trigger] list[j]).id is Int
        && list[j].id->Int_0 < ts.len() && list[j] == entry(
        list[j].id->Int_0,
        table::enc_table(ts[list[j].id->Int_0 as int]),
    ) by {
        assoc::assoc_at(pairs, j);
        assert(items[j].table == TableIdType(0));
        assert(pairs[j].0 == page::on_page(list[j].id));
        let k = list[j].id;
        assert(p@.tuples.dom().contains(k));
        assert(p@.tuples[k] == list[j]);
        let i = k->Int_0;
        assert(k == Key::Int(i));
    }
    assert forall|i: int, j: int| 0 <= i < j < list.len() implies (#[trigger] list[i]).id->Int_0 < (
    #[trigger] list[j]).id->Int_0 by {
        assert(rows::place_before(items[i].place(), items[j].place()));
        assert(items[i].table == TableIdType(0) && items[j].table == TableIdType(0));
        assert(list[i].id is Int && list[j].id is Int);
        assert(list[i].id == items[i].tuple@.id && list[j].id == items[j].tuple@.id);
    }
}

/// The tables read back from their tuples.
proof fn tables_round_trip(ts: Seq<Tab>, list: Seq<Row>)
    requires
        list.len() == ts.len(),
        forall|i: int|
            0 <= i < ts.len() ==> (#[trigger] list[i]).data == table::enc_table(ts[i])
                && vstd::utf8::encode_utf8(ts[i].name).len() < codec::WIDE,
    ensures
        tables_of(list) == Ok::<Seq<Tab>, CodecError>(ts),
    decreases ts.len(),
{
    if ts.len() == 0 {
        assert(ts =~= seq![]);
    } else {
        let last = ts.len() - 1;
        assert forall|i: int| 0 <= i < ts.drop_last().len() implies (
        #[trigger] list.drop_last()[i]).data == table::enc_table(ts.drop_last()[i])
            && vstd::utf8::encode_utf8(ts.drop_last()[i].name).len() < codec::WIDE by {
            assert(list[i].data == table::enc_table(ts[i]));
        }
        tables_round_trip(ts.drop_last(), list.drop_last());
        assert(list[last].data == table::enc_table(ts[last]));
        table::table_round_trip(ts[last], seq![]);
        assert(table::enc_table(ts[last]) + Seq::<u8>::empty() =~= table::enc_table(ts[last]));
        assert(ts.drop_last().push(ts[last]) =~= ts);
    }
}

/// What the system pages were written for is what is loaded from them: the
/// tables, the sequences and the free pages, in order.
pub proof fn system_pages_read_back(
    ts: Seq<Tab>,
    vs: Seq<(Seq<char>, u64)>,
    ids: Seq<PageId>,
    page_size: u64,
    s: SystemPages,
)
    requires
        s.catalog.wf(),
        ts.len() <= u64::MAX,
        vs.len() <= u64::MAX,
        ids.len() <= u64::MAX,
        forall|i: int|
            0 <= i < ts.len() ==> vstd::utf8::encode_utf8((#[trigger] ts[i]).name).len()
                < codec::WIDE,
        forall|i: int|
            0 <= i < vs.len() ==> vstd::utf8::encode_utf8((#[trigger] vs[i]).0).len() < codec::WIDE,
        catalog_sheet(ts, page_size) == Ok::<Sheet, Fault>(s.catalog@),
        s.sequences@ == single_sheet(codec::varint(vs.len()) + enc_values(vs), page_size),
        s.free@ == single_sheet(codec::varint(ids.len()) + enc_ids(ids), page_size),
    ensures
        loaded(s) == Ok::<(Seq<Tab>, Seq<(Seq<char>, u64)>, Seq<PageId>), CodecError>(
            (ts, vs, ids),
        ),
{
    catalog_list(s.catalog, ts, page_size);
    assert forall|i: int| 0 <= i < ts.len() implies (#[trigger] s.catalog.list()[i]).data
        == table::enc_table(ts[i]) && vstd::utf8::encode_utf8(ts[i].name).len()
        < codec::WIDE by {
        assert(vstd::utf8::encode_utf8(ts[i].name).len() < codec::WIDE);
    }
    tables_round_trip(ts, s.catalog.list());
    codec::u64_round_trip(vs.len() as u64, enc_values(vs));
    values_round_trip(vs, seq![]);
    assert(enc_values(vs) + Seq::<u8>::empty() =~= enc_values(vs));
    codec::u64_round_trip(ids.len() as u64, enc_ids(ids));
    ids_round_trip(ids, seq![]);
    assert(enc_ids(ids) + Seq::<u8>::empty() =~= enc_ids(ids));
}

// ---------------------------------------------------------------------------
// Which tables fit
// ---------------------------------------------------------------------------

/// The bytes that the catalog's entry of a table takes.
pub open spec fn entry_size(ts: Seq<Tab>, k: int) -> nat {
    tuple::enc_row(entry(k as u64, table::enc_table(ts[k]))).len()
}

/// The bytes that the entries of all tables take.
pub open spec fn total_size(ts: Seq<Tab>) -> nat
    decreases ts.len(),
{
    if ts.len() == 0 {
        0
    } else {
        total_size(ts.drop_last()) + entry_size(ts, ts.len() - 1)
    }
}

/// Can every entry be held in memory?
pub open spec fn entries_exist(ts: Seq<Tab>) -> bool {
    &&& ts.len() <= u64::MAX
    &&& forall|k: int| 0 <= k < ts.len() ==> #[trigger] entry_size(ts, k) <= u64::MAX
}

/// An entry under a smaller number takes no more bytes.
proof fn entry_shrinks(data: Seq<u8>, j: u64, k: u64)
    requires
        j <= k,
    ensures
        tuple::enc_row(entry(j, data)).len() <= tuple::enc_row(entry(k, data)).len(),
        tuple::enc_row(entry(j, data)).len() > 0,
{
    codec::varint_grows(j as nat, k as nat);
}

/// Tables whose entries take no more than there is room for fit.
proof fn small_enough(ts: Seq<Tab>, page_size: u64)
    requires
        entries_exist(ts),
        total_size(ts) <= page::usable((page_size - PAGE_OVERHEAD) as u64),
    ensures
        catalog_sheet(ts, page_size) matches Ok(v) && v.used == total_size(ts) && v.data_size == (
        page_size - PAGE_OVERHEAD) as u64 && v.record_size is None,
    decreases ts.len(),
{
    if ts.len() > 0 {
        let front = ts.drop_last();
        assert forall|k: int| 0 <= k < front.len() implies #[trigger] entry_size(front, k)
            <= u64::MAX by {
            assert(entry_size(front, k) == entry_size(ts, k));
        }
        small_enough(front, page_size);
        catalog_tuples(front, page_size);
    }
}

/// Two tables or more fit only if their entries take no more than there is
/// room for; one always fits.
proof fn not_too_large(ts: Seq<Tab>, page_size: u64)
    requires
        entries_exist(ts),
        ts.len() >= 2,
        catalog_sheet(ts, page_size) is Ok,
    ensures
        total_size(ts) <= page::usable((page_size - PAGE_OVERHEAD) as u64),
    decreases ts.len(),
{
    let front = ts.drop_last();
    let n = front.len();
    assert forall|k: int| 0 <= k < n implies #[trigger] entry_size(front, k) <= u64::MAX by {
        assert(entry_size(front, k) == entry_size(ts, k));
    }
    assert(entry_size(ts, n as int) <= u64::MAX);
    if n >= 2 {
        not_too_large(front, page_size);
        small_enough(front, page_size);
        entry_shrinks(table::enc_table(front.last()), (n - 1) as u64, (n - 1) as u64);
    } else {
        assert(front.drop_last().len() == 0);
        assert(total_size(front.drop_last()) == 0);
        entry_shrinks(table::enc_table(front.last()), 0, 0);
        assert(total_size(front) == entry_size(front, 0));
        let none = page::blank(page_size, PINNED, None);
        assert(catalog_sheet(front.drop_last(), page_size) == Ok::<Sheet, Fault>(none));
        assert(catalog_sheet(front, page_size) matches Ok(v) && v.used == total_size(front)
            && v.data_size == none.data_size);
    }
}

/// Without one of the tables, the entries take no more.
proof fn fewer_are_smaller(ts: Seq<Tab>, i: int)
    requires
        entries_exist(ts),
        0 <= i < ts.len(),
    ensures
        total_size(ts.remove(i)) <= total_size(ts),
        entries_exist(ts.remove(i)),
    decreases ts.len(),
{
    let less = ts.remove(i);
    assert forall|k: int| 0 <= k < less.len() implies #[trigger] entry_size(less, k)
        <= u64::MAX by {
        let from = if k < i {
            k
        } else {
            k + 1
        };
        assert(less[k] == ts[from]);
        entry_shrinks(table::enc_table(ts[from]), k as u64, from as u64);
        assert(entry_size(ts, from) <= u64::MAX);
    }
    let n = ts.len() - 1;
    if i == n {
        assert(less =~= ts.drop_last());
    } else {
        let front = ts.drop_last();
        assert forall|k: int| 0 <= k < front.len() implies #[trigger] entry_size(front, k)
            <= u64::MAX by {
            assert(entry_size(front, k) == entry_size(ts, k));
        }
        fewer_are_smaller(front, i);
        assert(less.drop_last() =~= front.remove(i));
        assert(less.last() == ts.last());
        entry_shrinks(table::enc_table(ts.last()), (n - 1) as u64, n as u64);
    }
}

/// Tables that fit fit without one of them.
pub proof fn fewer_tables_fit(ts: Seq<Tab>, page_size: u64, i: int)
    requires
        entries_exist(ts),
        0 <= i < ts.len(),
        catalog_sheet(ts, page_size) is Ok,
    ensures
        catalog_sheet(ts.remove(i), page_size) is Ok,
        entries_exist(ts.remove(i)),
{
    fewer_are_smaller(ts, i);
    if ts.len() >= 2 {
        not_too_large(ts, page_size);
        small_enough(ts.remove(i), page_size);
    } else {
        assert(ts.remove(i).len() == 0);
    }
}

/// The catalog holds one table whatever its size, and several exactly where
/// their entries together leave 16 bytes free of what a page has behind its
/// header; otherwise the error is that there is no space.
pub proof fn catalog_holds_what_fits(ts: Seq<Tab>, page_size: u64)
    requires
        page_size >= 112,
        entries_exist(ts),
    ensures
        catalog_sheet(ts, page_size) is Ok <==> ts.len() <= 1 || total_size(ts) + 16 + 112
            <= page_size,
        catalog_sheet(ts, page_size) matches Err(f) ==> f == Fault::PageCapacity,
{
    if ts.len() >= 2 {
        some_size(ts);
        if catalog_sheet(ts, page_size) is Ok {
            not_too_large(ts, page_size);
        }
        if total_size(ts) + 16 + 112 <= page_size {
            small_enough(ts, page_size);
        }
    } else if ts.len() == 1 {
        let none = page::blank(page_size, PINNED, None);
        assert(catalog_sheet(ts.drop_last(), page_size) == Ok::<Sheet, Fault>(none));
        assert(page::add_fault(none, entry(0, table::enc_table(ts.last()))) is None);
        assert(catalog_sheet(ts, page_size) is Ok);
    }
    only_space_is_short(ts, page_size);
}

/// Entries take some room.
proof fn some_size(ts: Seq<Tab>)
    requires
        ts.len() > 0,
        entries_exist(ts),
    ensures
        total_size(ts) > 0,
{
    entry_shrinks(table::enc_table(ts.last()), (ts.len() - 1) as u64, (ts.len() - 1) as u64);
}

/// Tables that do not fit are refused for want of space.
pub proof fn only_space_is_short(ts: Seq<Tab>, page_size: u64)
    requires
        ts.len() <= u64::MAX,
    ensures
        catalog_sheet(ts, page_size) matches Err(f) ==> f == Fault::PageCapacity,
        catalog_sheet(ts, page_size) matches Ok(v) ==> v.record_size is None,
    decreases ts.len(),
{
    if ts.len() > 0 {
        only_space_is_short(ts.drop_last(), page_size);
        if catalog_sheet(ts.drop_last(), page_size) is Ok {
            catalog_tuples(ts.drop_last(), page_size);
        }
    }
}

} // verus!

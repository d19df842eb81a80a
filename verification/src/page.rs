//! Pages of tuples: what fits on one, how it is accounted for, and its bytes.
use vstd::prelude::*;
use vstd::string::*;

use crate::assoc;
use crate::clock::{LsnClock, LsnId};
use crate::codec;
use crate::codec::{
    get_le, put_le, put_opt, put_u64, take_n, take_opt, take_u16, take_u64, CodecError,
};
use crate::error::{Fault, StoreError};
use crate::mvcc::Place;
use crate::rows;
use crate::rows::{Item, RowStore};
use crate::table::TableIdType;
use crate::text;
use crate::text::push_decimal;
use crate::tuple;
use crate::tuple::{put_key, take_key, DBIdType, Key, Row, Tuple};

verus! {

/// A page's number.
#[derive(Clone, Copy, Debug, PartialEq, PartialOrd, Eq, Hash, Structural)]
pub struct PageId(pub u64);

impl From<u64> for PageId {
    fn from(n: u64) -> (id: PageId) {
        PageId(n)
    }
}

impl vstd::std_specs::convert::FromSpecImpl<u64> for PageId {
    open spec fn obeys_from_spec() -> bool {
        true
    }

    open spec fn from_spec(n: u64) -> PageId {
        PageId(n)
    }
}

impl PageId {
    /// Is it the number of a page that follows another? Page 0 never does.
    pub fn is_valid_next_page(&self) -> (r: bool)
        ensures
            r == (self.0 != 0),
    {
        self.0 != 0
    }

    /// The number's bytes.
    pub fn to_bytes(self) -> (out: Vec<u8>)
        ensures
            out@ == codec::varint(self.0 as nat),
    {
        let mut out: Vec<u8> = Vec::new();
        put_u64(&mut out, self.0);
        assert(out@ =~= codec::varint(self.0 as nat));
        out
    }

    /// Reads a number's bytes.
    pub fn from_bytes(bytes: &[u8]) -> (r: Result<PageId, StoreError>)
        ensures
            match (r, codec::take_u64_spec(bytes@)) {
                (Ok(id), Ok((n, _))) => id.0 == n,
                (Err(e), Err(f)) => e@ == Fault::Serialization(f),
                _ => false,
            },
    {
        match take_u64(bytes) {
            Ok((n, _)) => Ok(PageId(n)),
            Err(e) => Err(StoreError::SerializationError(e)),
        }
    }
}

// ---------------------------------------------------------------------------
// The header of a page
// ---------------------------------------------------------------------------

/// The page stays in memory.
pub const PINNED: u16 = 1;

/// The page belongs to an index.
pub const INDEX_PAGE: u16 = 2;

/// The tuples go on in the pages behind this one.
pub const HAS_OVERFLOW: u16 = 4;

/// The page holds the rest of another page's tuples.
pub const IS_OVERFLOW: u16 = 8;

/// The room for a page's header.
pub const PAGE_OVERHEAD: usize = 112;

/// The room that is left free below a page's size for what the sizes of the
/// tuples do not count: the lengths before them.
pub const USABLE_DATA_MARGIN: u64 = 16;

/// What a page's bytes begin with.
#[derive(Debug)]
pub struct PageHeader {
    pub next_page: u64,
    pub page_data_size: u64,
    pub page_used_size: u64,
    pub record_size: Option<usize>,
    pub lsn: LsnId,
    pub flags: u16,
    pub high_key: Option<DBIdType>,
}

/// A page's header, as values.
#[verifier::ext_equal]
pub struct Head {
    pub next_page: u64,
    pub page_data_size: u64,
    pub page_used_size: u64,
    pub record_size: Option<usize>,
    pub lsn: LsnId,
    pub flags: u16,
    pub high_key: Option<Key>,
}

/// An optional key, as a value.
pub open spec fn opt_key(k: Option<DBIdType>) -> Option<Key> {
    match k {
        Some(k) => Some(k@),
        None => None,
    }
}

impl View for PageHeader {
    type V = Head;

    open spec fn view(&self) -> Head {
        Head {
            next_page: self.next_page,
            page_data_size: self.page_data_size,
            page_used_size: self.page_used_size,
            record_size: self.record_size,
            lsn: self.lsn,
            flags: self.flags,
            high_key: opt_key(self.high_key),
        }
    }
}

/// The bytes of an optional key.
pub open spec fn enc_opt_key(k: Option<Key>) -> Seq<u8> {
    match k {
        None => seq![0u8],
        Some(k) => seq![1u8] + tuple::enc_key(k),
    }
}

/// The optional key at the front of `s`.
pub open spec fn take_opt_key_spec(s: Seq<u8>) -> Result<(Option<Key>, Seq<u8>), CodecError> {
    if s.len() == 0 {
        Err(CodecError::UnexpectedEnd)
    } else if s[0] == 0 {
        Ok((None, s.skip(1)))
    } else if s[0] == 1 {
        match tuple::take_key_spec(s.skip(1)) {
            Ok((k, rest)) => Ok((Some(k), rest)),
            Err(e) => Err(e),
        }
    } else {
        Err(CodecError::BadOption)
    }
}

/// A size as a number of fixed width.
pub open spec fn opt_num(n: Option<usize>) -> Option<u64> {
    match n {
        Some(n) => Some(n as u64),
        None => None,
    }
}

/// A page header's bytes.
pub open spec fn enc_head(h: Head) -> Seq<u8> {
    codec::le_bytes(h.next_page as nat, 8) + (codec::le_bytes(h.page_data_size as nat, 8) + (
    codec::le_bytes(h.page_used_size as nat, 8) + (codec::enc_opt(opt_num(h.record_size)) + (
    codec::varint(h.lsn.0 as nat) + (codec::varint(h.flags as nat) + enc_opt_key(h.high_key))))))
}

/// The number of eight bytes at the front of `s`.
pub open spec fn take_eight_spec(s: Seq<u8>) -> Result<(u64, Seq<u8>), CodecError> {
    match codec::take_n_spec(s, 8) {
        Ok((b, rest)) => Ok((codec::le_value(b) as u64, rest)),
        Err(e) => Err(e),
    }
}

/// The page header at the front of `s`.
pub open spec fn take_head_spec(s: Seq<u8>) -> Result<Head, CodecError> {
    match take_eight_spec(s) {
        Err(e) => Err(e),
        Ok((next_page, s)) => match take_eight_spec(s) {
            Err(e) => Err(e),
            Ok((page_data_size, s)) => match take_eight_spec(s) {
                Err(e) => Err(e),
                Ok((page_used_size, s)) => match codec::take_opt_spec(s) {
                    Err(e) => Err(e),
                    Ok((size, s)) => if size matches Some(n) && n > usize::MAX {
                        Err(CodecError::BadVarint)
                    } else {
                        match codec::take_u64_spec(s) {
                            Err(e) => Err(e),
                            Ok((lsn, s)) => match codec::take_u16_spec(s) {
                                Err(e) => Err(e),
                                Ok((flags, s)) => match take_opt_key_spec(s) {
                                    Err(e) => Err(e),
                                    Ok((high_key, _)) => Ok(
                                        Head {
                                            next_page,
                                            page_data_size,
                                            page_used_size,
                                            record_size: match size {
                                                Some(n) => Some(n as usize),
                                                None => None,
                                            },
                                            lsn: LsnId(lsn),
                                            flags,
                                            high_key,
                                        },
                                    ),
                                },
                            },
                        }
                    },
                },
            },
        },
    }
}

/// Takes a number of eight bytes off the front of `bytes`.
fn take_eight(bytes: &[u8]) -> (r: Result<(u64, &[u8]), CodecError>)
    ensures
        codec::took(r, take_eight_spec(bytes@)),
{
    proof {
        codec::le_limits();
    }
    match take_n(bytes, 8) {
        Ok((b, rest)) => Ok((get_le(b) as u64, rest)),
        Err(e) => Err(e),
    }
}

/// Takes an optional key off the front of `bytes`.
fn take_opt_key(bytes: &[u8]) -> (r: Result<(Option<DBIdType>, &[u8]), CodecError>)
    ensures
        match (r, take_opt_key_spec(bytes@)) {
            (Ok((k, rest)), Ok((w, tail))) => opt_key(k) == w && rest@ == tail,
            (Err(e), Err(f)) => e == f,
            _ => false,
        },
{
    let (head, rest) = match take_n(bytes, 1) {
        Ok(x) => x,
        Err(e) => {
            return Err(e);
        },
    };
    assert(head@[0] == bytes@[0]);
    if head[0] == 0 {
        Ok((None, rest))
    } else if head[0] == 1 {
        match take_key(rest) {
            Ok((k, rest)) => Ok((Some(k), rest)),
            Err(e) => Err(e),
        }
    } else {
        Err(CodecError::BadOption)
    }
}

impl PageHeader {
    /// The header's bytes.
    pub fn to_bytes(&self) -> (out: Vec<u8>)
        ensures
            out@ == enc_head(self@),
    {
        let mut out: Vec<u8> = Vec::new();
        put_le(&mut out, self.next_page as u128, 8);
        put_le(&mut out, self.page_data_size as u128, 8);
        put_le(&mut out, self.page_used_size as u128, 8);
        let size: Option<u64> = match self.record_size {
            Some(n) => Some(n as u64),
            None => None,
        };
        put_opt(&mut out, size);
        put_u64(&mut out, self.lsn.0);
        put_u64(&mut out, self.flags as u64);
        match &self.high_key {
            None => {
                out.push(0);
            },
            Some(k) => {
                out.push(1);
                put_key(&mut out, k);
            },
        }
        assert(out@ =~= enc_head(self@));
        out
    }

    /// Reads a header's bytes.
    pub fn from_bytes(bytes: &[u8]) -> (r: Result<PageHeader, StoreError>)
        ensures
            match (r, take_head_spec(bytes@)) {
                (Ok(h), Ok(w)) => h@ == w,
                (Err(e), Err(f)) => e@ == Fault::Serialization(f),
                _ => false,
            },
    {
        let (next_page, rest) = match take_eight(bytes) {
            Ok(x) => x,
            Err(e) => {
                return Err(StoreError::SerializationError(e));
            },
        };
        let (page_data_size, rest) = match take_eight(rest) {
            Ok(x) => x,
            Err(e) => {
                return Err(StoreError::SerializationError(e));
            },
        };
        let (page_used_size, rest) = match take_eight(rest) {
            Ok(x) => x,
            Err(e) => {
                return Err(StoreError::SerializationError(e));
            },
        };
        let (size, rest) = match take_opt(rest) {
            Ok(x) => x,
            Err(e) => {
                return Err(StoreError::SerializationError(e));
            },
        };
        let record_size: Option<usize> = match size {
            Some(n) => {
                if n > usize::MAX as u64 {
                    return Err(StoreError::SerializationError(CodecError::BadVarint));
                }
                Some(n as usize)
            },
            None => None,
        };
        let (lsn, rest) = match take_u64(rest) {
            Ok(x) => x,
            Err(e) => {
                return Err(StoreError::SerializationError(e));
            },
        };
        let (flags, rest) = match take_u16(rest) {
            Ok(x) => x,
            Err(e) => {
                return Err(StoreError::SerializationError(e));
            },
        };
        match take_opt_key(rest) {
            Ok((high_key, _)) => Ok(
                PageHeader {
                    next_page,
                    page_data_size,
                    page_used_size,
                    record_size,
                    lsn: LsnId(lsn),
                    flags,
                    high_key,
                },
            ),
            Err(e) => Err(StoreError::SerializationError(e)),
        }
    }

    /// The page behind this one.
    pub fn next_page(&self) -> (id: PageId)
        ensures
            id.0 == self@.next_page,
    {
        PageId(self.next_page)
    }

    /// Sets the page behind this one.
    pub fn set_next_page(&mut self, id: PageId)
        ensures
            final(self)@ == (Head { next_page: id.0, ..old(self)@ }),
    {
        self.next_page = id.0;
    }

    /// Does the page hold the rest of another page's tuples?
    pub fn is_overflow(&self) -> (r: bool)
        ensures
            r == (self@.flags & IS_OVERFLOW == IS_OVERFLOW),
    {
        self.flags & IS_OVERFLOW == IS_OVERFLOW
    }

    /// Makes the page one that holds the rest of another page's tuples; it
    /// cannot be one whose own tuples go on.
    pub fn set_is_overflow(&mut self)
        ensures
            final(self)@ == (Head {
                flags: (old(self)@.flags | IS_OVERFLOW) & !HAS_OVERFLOW,
                ..old(self)@
            }),
            final(self)@.flags & IS_OVERFLOW == IS_OVERFLOW,
            final(self)@.flags & HAS_OVERFLOW == 0,
    {
        let f: u16 = self.flags;
        proof {
            assert(((f | 8) & !4u16) & 8 == 8) by (bit_vector);
            assert(((f | 8) & !4u16) & 4 == 0) by (bit_vector);
        }
        self.flags = self.flags | IS_OVERFLOW;
        self.clear_has_overflow();
    }

    /// Makes the page one that does not hold the rest of another page.
    pub fn clear_is_overflow(&mut self)
        ensures
            final(self)@ == (Head { flags: old(self)@.flags & !IS_OVERFLOW, ..old(self)@ }),
    {
        self.flags = self.flags & !IS_OVERFLOW;
    }

    /// Do the page's tuples go on behind it?
    pub fn has_overflow(&self) -> (r: bool)
        ensures
            r == (self@.flags & HAS_OVERFLOW == HAS_OVERFLOW),
    {
        self.flags & HAS_OVERFLOW == HAS_OVERFLOW
    }

    /// Makes the page one whose tuples go on; it cannot be one that holds the
    /// rest of another.
    pub fn set_has_overflow(&mut self)
        ensures
            final(self)@ == (Head {
                flags: (old(self)@.flags | HAS_OVERFLOW) & !IS_OVERFLOW,
                ..old(self)@
            }),
            final(self)@.flags & HAS_OVERFLOW == HAS_OVERFLOW,
            final(self)@.flags & IS_OVERFLOW == 0,
    {
        let f: u16 = self.flags;
        proof {
            assert(((f | 4) & !8u16) & 4 == 4) by (bit_vector);
            assert(((f | 4) & !8u16) & 8 == 0) by (bit_vector);
        }
        self.flags = self.flags | HAS_OVERFLOW;
        self.clear_is_overflow();
    }

    /// Makes the page one whose tuples do not go on.
    pub fn clear_has_overflow(&mut self)
        ensures
            final(self)@ == (Head { flags: old(self)@.flags & !HAS_OVERFLOW, ..old(self)@ }),
    {
        self.flags = self.flags & !HAS_OVERFLOW;
    }

    /// The room that every page header takes.
    pub fn header_size() -> (n: usize)
        ensures
            n == PAGE_OVERHEAD,
    {
        PAGE_OVERHEAD
    }

    /// The size of the page's tuples.
    pub fn used_size(&self) -> (n: u64)
        ensures
            n == self@.page_used_size,
    {
        self.page_used_size
    }

    /// How much of the page tuples may take.
    pub fn usable_data_size(&self) -> (n: u64)
        ensures
            n == usable(self@.page_data_size),
    {
        self.page_data_size.saturating_sub(USABLE_DATA_MARGIN)
    }

    /// The size of the page's tuples together with its header.
    pub fn total_page_size(&self) -> (n: usize)
        requires
            self@.page_used_size + PAGE_OVERHEAD <= usize::MAX,
        ensures
            n == self@.page_used_size + PAGE_OVERHEAD,
    {
        self.page_used_size as usize + PageHeader::header_size()
    }
}

/// How much of a page of this size tuples may take.
pub open spec fn usable(page_data_size: u64) -> u64 {
    if page_data_size < USABLE_DATA_MARGIN {
        0
    } else {
        (page_data_size - USABLE_DATA_MARGIN) as u64
    }
}

// ---------------------------------------------------------------------------
// Pages
// ---------------------------------------------------------------------------

/// A page of tuples.
pub struct Page {
    /// The tuples in the order of their keys, as rows of one table that the
    /// page need not know.
    pub tuples: RowStore,
    pub page_used_size: u64,
    pub has_overflow: bool,
    pub next_page: u64,
    pub high_key: Option<DBIdType>,
    pub dirty: bool,
    pub page_data_size: u64,
    /// The most bytes that one tuple may take, if there is a limit.
    pub record_size: Option<usize>,
    pub lsn: LsnId,
    /// The clock that changes are stamped by, once a buffer has the page.
    pub lsn_clock: Option<LsnClock>,
    pub flags: u16,
}

/// A page, as values.
#[verifier::ext_equal]
pub struct Sheet {
    pub tuples: Map<Key, Row>,
    pub used: u64,
    pub has_overflow: bool,
    pub next_page: u64,
    pub high_key: Option<Key>,
    pub dirty: bool,
    pub data_size: u64,
    pub record_size: Option<usize>,
    pub lsn: LsnId,
    pub clock: Option<LsnClock>,
    pub flags: u16,
}

/// Where a key is in a page.
pub open spec fn on_page(k: Key) -> Place {
    Place { table: TableIdType(0), key: k }
}

/// The tuples by their keys.
pub open spec fn by_key(m: Map<Place, Row>) -> Map<Key, Row> {
    Map::new(|k: Key| m.dom().contains(on_page(k)), |k: Key| m[on_page(k)])
}

/// The tuples in order.
pub open spec fn listed(items: Seq<Item>) -> Seq<Row> {
    items.map_values(|it: Item| it.tuple@)
}

/// The size of tuples together.
pub open spec fn sizes(list: Seq<Row>) -> nat
    decreases list.len(),
{
    if list.len() == 0 {
        0
    } else {
        sizes(list.drop_last()) + tuple::enc_row(list.last()).len()
    }
}

impl View for Page {
    type V = Sheet;

    open spec fn view(&self) -> Sheet {
        Sheet {
            tuples: by_key(self.tuples@),
            used: self.page_used_size,
            has_overflow: self.has_overflow,
            next_page: self.next_page,
            high_key: opt_key(self.high_key),
            dirty: self.dirty,
            data_size: self.page_data_size,
            record_size: self.record_size,
            lsn: self.lsn,
            clock: self.lsn_clock,
            flags: self.flags,
        }
    }
}

/// A page that was changed: it is to be written again, and carries the number
/// up to which the log was durable.
pub open spec fn touched(v: Sheet) -> Sheet {
    Sheet {
        dirty: true,
        lsn: match v.clock {
            Some(c) => if c.last_written == u64::MAX {
                LsnId(0)
            } else {
                LsnId(c.last_written)
            },
            None => v.lsn,
        },
        ..v
    }
}

/// Is there room for a tuple of this size? An empty page takes any.
pub open spec fn room_for(v: Sheet, size: nat) -> bool {
    v.used == 0 || v.used + size <= usable(v.data_size)
}

/// Why a tuple is not taken, if it is not.
pub open spec fn add_fault(v: Sheet, row: Row) -> Option<Fault> {
    let size = tuple::enc_row(row).len();
    if v.record_size matches Some(max) && size > max {
        Some(Fault::TupleTooLarge(size as u64, v.record_size->0))
    } else if !room_for(v, size) {
        Some(Fault::PageCapacity)
    } else if v.tuples.dom().contains(row.id) {
        Some(Fault::DuplicateKey(row.id))
    } else {
        None
    }
}

/// The message for sizes that do not add up.
pub open spec fn underflow_text(what: Seq<char>, used: nat, was: nat) -> Seq<char> {
    what + " used_size underflow: used="@ + text::decimal(used) + " old="@ + text::decimal(was)
}

/// The message for sizes that do not add up.
fn underflow_message(what: &str, used: u64, was: u64) -> (t: String)
    ensures
        t@ == underflow_text(what@, used as nat, was as nat),
{
    let mut t = what.to_owned();
    t.append(" used_size underflow: used=");
    push_decimal(&mut t, used);
    t.append(" old=");
    push_decimal(&mut t, was);
    t
}

/// A fresh page of `size` bytes.
pub open spec fn blank(size: u64, flags: u16, record_size: Option<usize>) -> Sheet {
    Sheet {
        tuples: Map::empty(),
        used: 0,
        has_overflow: false,
        next_page: 0,
        high_key: None,
        dirty: true,
        data_size: (size - PAGE_OVERHEAD) as u64,
        record_size,
        lsn: LsnId(0),
        clock: None,
        flags,
    }
}

/// The header that a page is written with.
pub open spec fn head_of(v: Sheet) -> Head {
    Head {
        next_page: v.next_page,
        page_data_size: v.data_size,
        page_used_size: v.used,
        record_size: v.record_size,
        lsn: v.lsn,
        flags: if v.has_overflow {
            v.flags | HAS_OVERFLOW
        } else {
            v.flags & !HAS_OVERFLOW
        },
        high_key: v.high_key,
    }
}

impl Page {
    /// Are the tuples in order, and is the overflow kept in one place only?
    pub open spec fn wf(&self) -> bool {
        &&& self.tuples.wf()
        &&& forall|i: int|
            0 <= i < self.tuples.items@.len() ==> (#[trigger] self.tuples.items@[i]).table
                == TableIdType(0)
        &&& self.flags & HAS_OVERFLOW == 0
    }

    /// The tuples in the order of their keys.
    pub open spec fn list(&self) -> Seq<Row> {
        listed(self.tuples.items@)
    }

    /// Does the size that the page keeps agree with its tuples?
    pub open spec fn accounts(&self) -> bool {
        self@.used == sizes(self.list())
    }

    /// A page for tuples of any size.
    pub fn new_data(size: u64) -> (p: Page)
        requires
            size >= PAGE_OVERHEAD,
        ensures
            p.wf(),
            p.accounts(),
            p@ == blank(size, 0, None),
    {
        assert(0u16 & 4 == 0) by (bit_vector);
        Page::new(size, 0, None)
    }

    /// The same page once more.
    pub fn copy(&self) -> (p: Page)
        requires
            self.wf(),
        ensures
            p.wf(),
            p@ == self@,
            p.list() == self.list(),
    {
        let tuples = self.tuples.copy();
        let p = Page {
            tuples,
            page_used_size: self.page_used_size,
            has_overflow: self.has_overflow,
            next_page: self.next_page,
            high_key: match &self.high_key {
                Some(k) => Some(k.clone()),
                None => None,
            },
            dirty: self.dirty,
            page_data_size: self.page_data_size,
            record_size: self.record_size,
            lsn: self.lsn,
            lsn_clock: self.lsn_clock,
            flags: self.flags,
        };
        proof {
            let a = rows::pairs(p.tuples.items@);
            let b = rows::pairs(self.tuples.items@);
            assert(a.len() == b.len());
            assert forall|i: int| 0 <= i < p.tuples.items@.len() implies (
            #[trigger] p.tuples.items@[i]).table == TableIdType(0) && p.tuples.items@[i].tuple@
                == self.tuples.items@[i].tuple@ by {
                assert(a[i] == b[i]);
                assert(self.tuples.items@[i].table == TableIdType(0));
            }
            assert(p.list() =~= self.list());
        }
        p
    }

    /// A page that stays in memory.
    pub fn new_pinned(size: u64) -> (p: Page)
        requires
            size >= PAGE_OVERHEAD,
        ensures
            p.wf(),
            p.accounts(),
            p@ == blank(size, PINNED, None),
    {
        assert(1u16 & 4 == 0) by (bit_vector);
        Page::new(size, PINNED, None)
    }

    /// A page of an index, where no tuple may be larger than `record_size`.
    pub fn new_indexed(size: u64, record_size: usize) -> (p: Page)
        requires
            size >= PAGE_OVERHEAD,
        ensures
            p.wf(),
            p.accounts(),
            p@ == blank(size, INDEX_PAGE, Some(record_size)),
    {
        assert(2u16 & 4 == 0) by (bit_vector);
        Page::new(size, INDEX_PAGE, Some(record_size))
    }

    /// A fresh page.
    fn new(size: u64, flags: u16, record_size: Option<usize>) -> (p: Page)
        requires
            size >= PAGE_OVERHEAD,
            flags & HAS_OVERFLOW == 0,
        ensures
            p.wf(),
            p.accounts(),
            p@ == blank(size, flags, record_size),
    {
        let p = Page {
            tuples: RowStore::new(),
            page_used_size: 0,
            has_overflow: false,
            next_page: 0,
            high_key: None,
            dirty: true,
            page_data_size: size - PAGE_OVERHEAD as u64,
            record_size,
            lsn: LsnId(0),
            lsn_clock: None,
            flags,
        };
        proof {
            assert(p@.tuples =~= Map::empty());
            no_items(p.tuples);
        }
        p
    }

    /// The header that the page is written with.
    pub fn header(&self) -> (h: PageHeader)
        ensures
            h@ == head_of(self@),
    {
        let flags: u16 = if self.has_overflow {
            self.flags | HAS_OVERFLOW
        } else {
            self.flags & !HAS_OVERFLOW
        };
        PageHeader {
            next_page: self.next_page,
            page_data_size: self.page_data_size,
            page_used_size: self.page_used_size,
            record_size: self.record_size,
            lsn: self.lsn,
            flags,
            high_key: self.high_key(),
        }
    }

    /// The room for tuples.
    pub fn get_data_size(&self) -> (n: u64)
        ensures
            n == self@.data_size,
    {
        self.page_data_size
    }

    /// The number that the page's last change was stamped with.
    pub fn lsn_id(&self) -> (lsn: LsnId)
        ensures
            lsn == self@.lsn,
    {
        self.lsn
    }

    /// Does the page stay in memory?
    pub fn is_pinned(&self) -> (r: bool)
        ensures
            r == (self@.flags & PINNED != 0),
    {
        self.flags & PINNED != 0
    }

    /// Does the page belong to an index?
    pub fn is_index_page(&self) -> (r: bool)
        ensures
            r == (self@.flags & INDEX_PAGE != 0),
    {
        self.flags & INDEX_PAGE != 0
    }

    /// Do the tuples go on in the pages behind this one?
    pub fn has_overflow(&self) -> (r: bool)
        ensures
            r == self@.has_overflow,
    {
        self.has_overflow
    }

    /// Says whether the tuples go on in the pages behind this one.
    pub fn set_overflow(&mut self, of: bool)
        requires
            old(self).wf(),
        ensures
            final(self).wf(),
            final(self)@ == (Sheet { has_overflow: of, ..old(self)@ }),
            final(self).list() == old(self).list(),
    {
        self.has_overflow = of;
        assert(self@ =~= (Sheet { has_overflow: of, ..old(self)@ }));
    }

    /// The page behind this one; page 0 for none.
    pub fn get_next_page(&self) -> (id: PageId)
        ensures
            id.0 == self@.next_page,
    {
        PageId(self.next_page)
    }

    /// Is the page to be written again?
    pub fn is_dirty(&self) -> (r: bool)
        ensures
            r == self@.dirty,
    {
        self.dirty
    }

    /// Sets the page behind this one.
    pub fn set_next_page(&mut self, next_page: PageId)
        requires
            old(self).wf(),
        ensures
            final(self).wf(),
            final(self)@ == touched(Sheet { next_page: next_page.0, ..old(self)@ }),
            final(self).list() == old(self).list(),
    {
        self.next_page = next_page.0;
        self.set_dirty(true);
    }

    /// The key that all keys of the page are below, if there is one.
    pub fn high_key(&self) -> (k: Option<DBIdType>)
        ensures
            opt_key(k) == self@.high_key,
    {
        match &self.high_key {
            Some(k) => Some(k.clone()),
            None => None,
        }
    }

    /// Sets the key that all keys of the page are below.
    pub fn set_high_key(&mut self, high_key: Option<DBIdType>)
        requires
            old(self).wf(),
        ensures
            final(self).wf(),
            final(self)@ == touched(Sheet { high_key: opt_key(high_key), ..old(self)@ }),
            final(self).list() == old(self).list(),
    {
        self.high_key = high_key;
        self.set_dirty(true);
    }

    /// Says whether the page is to be written again. A page that is gets the
    /// number up to which the log is durable, so that it is not written before
    /// what changed it. Before anything is durable it gets the lowest number,
    /// or it would wait forever.
    pub fn set_dirty(&mut self, dirty: bool)
        requires
            old(self).wf(),
        ensures
            final(self).wf(),
            final(self)@ == if dirty {
                touched(old(self)@)
            } else {
                Sheet { dirty: false, ..old(self)@ }
            },
            final(self).list() == old(self).list(),
    {
        self.dirty = dirty;
        if dirty {
            match &self.lsn_clock {
                Some(c) => {
                    let w = c.last_written();
                    self.lsn = if w.0 == u64::MAX {
                        LsnId(0)
                    } else {
                        w
                    };
                },
                None => {},
            }
        }
        assert(self@ =~= if dirty {
            touched(old(self)@)
        } else {
            Sheet { dirty: false, ..old(self)@ }
        });
    }

    /// Gives the page the clock that its changes are stamped by.
    pub fn set_clock(&mut self, clock: LsnClock)
        requires
            old(self).wf(),
        ensures
            final(self).wf(),
            final(self)@ == (Sheet { clock: Some(clock), ..old(self)@ }),
            final(self).list() == old(self).list(),
    {
        self.lsn_clock = Some(clock);
        assert(self@ =~= (Sheet { clock: Some(clock), ..old(self)@ }));
    }

    /// Takes all tuples out.
    pub fn clear(&mut self)
        requires
            old(self).wf(),
        ensures
            final(self).wf(),
            final(self).accounts(),
            final(self)@ == touched(Sheet { tuples: Map::empty(), used: 0, ..old(self)@ }),
            final(self).list() == Seq::<Row>::empty(),
    {
        self.tuples = RowStore::new();
        self.page_used_size = 0;
        proof {
            no_items(self.tuples);
            assert(self@.tuples =~= Map::empty());
        }
        self.set_dirty(true);
    }

    /// The tuples in the order of their keys.
    pub fn iter(&self) -> (out: Vec<Tuple>)
        ensures
            out@.map_values(|t: Tuple| t@) == self.list(),
    {
        let ghost all = self.tuples.items@;
        let mut out: Vec<Tuple> = Vec::new();
        for i in 0..self.tuples.items.len()
            invariant
                all == self.tuples.items@,
                out@.map_values(|t: Tuple| t@) == listed(all).take(i as int),
        {
            let ghost was = out@.map_values(|t: Tuple| t@);
            let t = self.tuples.items[i].tuple.clone();
            let ghost row = t@;
            out.push(t);
            proof {
                assert(out@.map_values(|t: Tuple| t@) =~= was.push(row));
                assert(listed(all).take(i + 1) =~= listed(all).take(i as int).push(row));
            }
        }
        assert(listed(all).take(all.len() as int) =~= self.list());
        out
    }

    /// The most bytes that one tuple may take, if there is a limit.
    pub fn record_size(&self) -> (n: Option<usize>)
        ensures
            n == self@.record_size,
    {
        self.record_size
    }

    /// Is there room for a tuple? An empty page takes any, so that one that is
    /// larger than a page has a place to begin.
    pub fn can_store(&self, tuple: &Tuple) -> (r: bool)
        ensures
            r == room_for(self@, tuple::enc_row(tuple@).len()),
    {
        let used: u64 = self.page_used_size;
        used == 0 || match used.checked_add(tuple.size() as u64) {
            Some(sum) => sum <= self.page_data_size.saturating_sub(USABLE_DATA_MARGIN),
            None => false,
        }
    }

    /// Adds a tuple. That it is too large for this kind of page is said before
    /// that there is no room for it right now.
    pub fn add_tuple(&mut self, tuple: Tuple) -> (r: Result<(), StoreError>)
        requires
            old(self).wf(),
        ensures
            final(self).wf(),
            match r {
                Ok(()) => add_fault(old(self)@, tuple@) is None && final(self)@ == touched(
                    Sheet {
                        tuples: old(self)@.tuples.insert(tuple@.id, tuple@),
                        used: (old(self)@.used + tuple::enc_row(tuple@).len()) as u64,
                        ..old(self)@
                    },
                ),
                Err(e) => add_fault(old(self)@, tuple@) == Some(e@) && *final(self)
                    == *old(self),
            },
            old(self).accounts() ==> final(self).accounts(),
    {
        let size: usize = tuple.size();
        match self.record_size {
            Some(max) => {
                if size > max {
                    return Err(StoreError::TupleTooLarge(size as u64, max));
                }
            },
            None => {},
        }
        if !self.can_store(&tuple) {
            return Err(StoreError::PageCapacityError);
        }
        let ghost row = tuple@;
        let present: bool = self.tuples.get(TableIdType(0), &tuple.id).is_some();
        if present {
            return Err(StoreError::DuplicateKey(tuple.id.clone()));
        }
        self.tuples.put(TableIdType(0), tuple);
        self.page_used_size = self.page_used_size + size as u64;
        proof {
            stays_on_page(old(self).tuples, self.tuples, row.id);
            assert(self@.tuples =~= old(self)@.tuples.insert(row.id, row));
            assert(self.tuples@.remove(on_page(row.id)) =~= old(self).tuples@);
            sizes_without(self.tuples.items@, old(self).tuples.items@, on_page(row.id));
        }
        self.set_dirty(true);
        Ok(())
    }

    /// Takes a tuple out and returns it. If the page claims to hold less than
    /// the tuple's size, that is reported.
    pub fn remove_tuple(&mut self, id: DBIdType) -> (r: Result<Tuple, StoreError>)
        requires
            old(self).wf(),
        ensures
            final(self).wf(),
            match r {
                Ok(t) => old(self)@.tuples.dom().contains(id@) && t@ == old(self)@.tuples[id@]
                    && tuple::enc_row(t@).len() <= old(self)@.used && final(self)@ == touched(
                    Sheet {
                        tuples: old(self)@.tuples.remove(id@),
                        used: (old(self)@.used - tuple::enc_row(t@).len()) as u64,
                        ..old(self)@
                    },
                ),
                Err(e) => if !old(self)@.tuples.dom().contains(id@) {
                    e@ == Fault::KeyNotFound(id@) && *final(self) == *old(self)
                } else {
                    let size = tuple::enc_row(old(self)@.tuples[id@]).len();
                    size > old(self)@.used && e@ == Fault::Unknown(
                        underflow_text("remove_tuple"@, old(self)@.used as nat, size),
                    ) && final(self)@ == (Sheet {
                        tuples: old(self)@.tuples.remove(id@),
                        ..old(self)@
                    })
                },
            },
            old(self).accounts() ==> final(self).accounts() && (r is Err ==> *final(self)
                == *old(self)),
    {
        let old_tuple = match self.tuples.get(TableIdType(0), &id) {
            Some(t) => t.clone(),
            None => {
                return Err(StoreError::KeyNotFound(id));
            },
        };
        let size: u64 = old_tuple.size() as u64;
        self.tuples.remove(TableIdType(0), &id);
        proof {
            stays_on_page(old(self).tuples, self.tuples, id@);
            assert(self@.tuples =~= old(self)@.tuples.remove(id@));
            sizes_without(old(self).tuples.items@, self.tuples.items@, on_page(id@));
        }
        if self.page_used_size < size {
            return Err(
                StoreError::UnknownError(
                    underflow_message("remove_tuple", self.page_used_size, size),
                ),
            );
        }
        self.page_used_size = self.page_used_size - size;
        self.set_dirty(true);
        Ok(old_tuple)
    }

    /// Puts a tuple in the place of the one with its key, which is returned.
    /// If the page claims to hold less than that one's size, it is reported.
    pub fn replace_tuple(&mut self, id: &DBIdType, tuple: Tuple) -> (r: Result<Tuple, StoreError>)
        requires
            old(self).wf(),
            tuple@.id == id@,
            old(self)@.used + tuple::enc_row(tuple@).len() <= u64::MAX,
        ensures
            final(self).wf(),
            match r {
                Ok(t) => old(self)@.tuples.dom().contains(id@) && t@ == old(self)@.tuples[id@]
                    && tuple::enc_row(t@).len() <= old(self)@.used && final(self)@ == touched(
                    Sheet {
                        tuples: old(self)@.tuples.insert(id@, tuple@),
                        used: (old(self)@.used - tuple::enc_row(t@).len() + tuple::enc_row(
                            tuple@,
                        ).len()) as u64,
                        ..old(self)@
                    },
                ),
                Err(e) => if !old(self)@.tuples.dom().contains(id@) {
                    e@ == Fault::KeyNotFound(id@) && *final(self) == *old(self)
                } else {
                    let size = tuple::enc_row(old(self)@.tuples[id@]).len();
                    size > old(self)@.used && e@ == Fault::Unknown(
                        underflow_text("replace_tuple"@, old(self)@.used as nat, size),
                    ) && final(self)@ == (Sheet {
                        tuples: old(self)@.tuples.insert(id@, tuple@),
                        ..old(self)@
                    })
                },
            },
            old(self).accounts() ==> final(self).accounts() && (r is Err ==> *final(self)
                == *old(self)),
    {
        let new_size: u64 = tuple.size() as u64;
        let old_tuple = match self.tuples.get(TableIdType(0), id) {
            Some(t) => t.clone(),
            None => {
                return Err(StoreError::KeyNotFound(id.clone()));
            },
        };
        let old_size: u64 = old_tuple.size() as u64;
        let ghost row = tuple@;
        self.tuples.put(TableIdType(0), tuple);
        proof {
            stays_on_page(old(self).tuples, self.tuples, row.id);
            assert(self@.tuples =~= old(self)@.tuples.insert(row.id, row));
            assert(self.tuples@.remove(on_page(row.id)) =~= old(self).tuples@.remove(
                on_page(row.id),
            ));
            sizes_replaced(old(self).tuples.items@, self.tuples.items@, on_page(row.id));
        }
        if self.page_used_size < old_size {
            return Err(
                StoreError::UnknownError(
                    underflow_message("replace_tuple", self.page_used_size, old_size),
                ),
            );
        }
        self.page_used_size = self.page_used_size - old_size + new_size;
        self.set_dirty(true);
        Ok(old_tuple)
    }

    /// How many tuples there are.
    pub fn count(&self) -> (n: usize)
        ensures
            n == self.list().len(),
    {
        self.tuples.len()
    }

    /// Is there a tuple with the key?
    pub fn contains(&self, id: DBIdType) -> (r: bool)
        requires
            self.wf(),
        ensures
            r == self@.tuples.dom().contains(id@),
    {
        self.tuples.get(TableIdType(0), &id).is_some()
    }

    /// The tuple with the key, if there is one.
    pub fn get(&self, id: DBIdType) -> (r: Option<Tuple>)
        requires
            self.wf(),
        ensures
            match r {
                Some(t) => self@.tuples.dom().contains(id@) && t@ == self@.tuples[id@],
                None => !self@.tuples.dom().contains(id@),
            },
    {
        match self.tuples.get(TableIdType(0), &id) {
            Some(t) => Some(t.clone()),
            None => None,
        }
    }

    /// Sets a flag that is not the page's own.
    pub fn set_page_flags(&mut self, flag: usize)
        requires
            old(self).wf(),
            4 <= flag < 16,
        ensures
            final(self).wf(),
            final(self)@ == touched(
                Sheet { flags: old(self)@.flags | (1u16 << flag as u16), ..old(self)@ },
            ),
            final(self).list() == old(self).list(),
    {
        let f: u16 = self.flags;
        let k: u16 = flag as u16;
        assert(f & 4 == 0 && 4 <= k < 16 ==> (f | (1u16 << k)) & 4 == 0) by (bit_vector);
        self.flags = f | (1u16 << k);
        assert(self@.tuples == old(self)@.tuples);
        self.set_dirty(true);
    }

    /// Clears a flag that is not the page's own.
    pub fn clear_page_flag(&mut self, flag: usize)
        requires
            old(self).wf(),
            4 <= flag < 16,
        ensures
            final(self).wf(),
            final(self)@ == touched(
                Sheet { flags: old(self)@.flags & !(1u16 << flag as u16), ..old(self)@ },
            ),
            final(self).list() == old(self).list(),
    {
        let f: u16 = self.flags;
        let k: u16 = flag as u16;
        assert(f & 4 == 0 ==> (f & !(1u16 << k)) & 4 == 0) by (bit_vector);
        self.flags = f & !(1u16 << k);
        assert(self@.tuples == old(self)@.tuples);
        self.set_dirty(true);
    }

    /// Is a flag set?
    pub fn is_flag_set(&self, flag: usize) -> (r: bool)
        requires
            flag < 16,
        ensures
            r == (self@.flags & (1u16 << flag as u16) != 0),
    {
        let k: u16 = flag as u16;
        self.flags & (1u16 << k) != 0
    }

    /// Do two pages agree in everything but their tuples and stamps?
    pub fn same_shape(&self, other: &Page) -> (r: bool)
        ensures
            r == (self@.used == other@.used && self@.has_overflow == other@.has_overflow
                && self@.next_page == other@.next_page && self@.high_key == other@.high_key
                && self@.data_size == other@.data_size && self@.flags == other@.flags
                && self@.record_size == other@.record_size),
    {
        let keys: bool = match (&self.high_key, &other.high_key) {
            (None, None) => true,
            (Some(a), Some(b)) => a.same(b),
            _ => false,
        };
        let records: bool = match (self.record_size, other.record_size) {
            (None, None) => true,
            (Some(a), Some(b)) => a == b,
            _ => false,
        };
        keys && records && self.page_used_size == other.page_used_size && self.has_overflow
            == other.has_overflow && self.next_page == other.next_page && self.page_data_size
            == other.page_data_size && self.flags == other.flags
    }
}

/// A store without rows has no items.
pub proof fn no_items(s: RowStore)
    requires
        s.wf(),
        s@ == Map::<Place, Row>::empty(),
    ensures
        s.items@.len() == 0,
        listed(s.items@) == Seq::<Row>::empty(),
{
    if s.items@.len() > 0 {
        rows::sorted_unique(s.items@);
        assoc::assoc_at(rows::pairs(s.items@), 0);
    }
    assert(listed(s.items@) =~= Seq::<Row>::empty());
}

/// The sizes of tuples with one more among them.
proof fn sizes_insert(list: Seq<Row>, at: int, row: Row)
    requires
        0 <= at <= list.len(),
    ensures
        sizes(list.insert(at, row)) == sizes(list) + tuple::enc_row(row).len(),
    decreases list.len(),
{
    let more = list.insert(at, row);
    if at == list.len() {
        assert(more.drop_last() =~= list);
    } else {
        sizes_insert(list.drop_last(), at, row);
        assert(more.drop_last() =~= list.drop_last().insert(at, row));
        assert(more.last() == list.last());
    }
}

/// Rows without one of them weigh less by its size.
proof fn sizes_without(items: Seq<Item>, less: Seq<Item>, p: Place)
    requires
        rows::sorted(items),
        rows::sorted(less),
        assoc::assoc(rows::pairs(items)).dom().contains(p),
        assoc::assoc(rows::pairs(less)) == assoc::assoc(rows::pairs(items)).remove(p),
    ensures
        sizes(listed(items)) == sizes(listed(less)) + tuple::enc_row(
            assoc::assoc(rows::pairs(items))[p],
        ).len(),
{
    rows::sorted_unique(items);
    let at = assoc::assoc_find(rows::pairs(items), p);
    assert(items[at].place() == p);
    rows::sorted_without(items, at);
    rows::one_order(items.remove(at), less);
    let rest = items.remove(at);
    assert(rows::pairs(less).len() == less.len());
    assert(rows::pairs(rest).len() == rest.len());
    assert forall|i: int| 0 <= i < less.len() implies listed(less)[i] == listed(rest)[i] by {
        assert(rows::pairs(less)[i].1 == less[i].tuple@);
        assert(rows::pairs(rest)[i].1 == rest[i].tuple@);
    }
    assert(listed(less) =~= listed(rest));
    let row = items[at].tuple@;
    assert(listed(items) =~= listed(less).insert(at, row));
    sizes_insert(listed(less), at, row);
}

/// Rows with another version of one of them weigh what the two differ by.
proof fn sizes_replaced(was: Seq<Item>, now: Seq<Item>, p: Place)
    requires
        rows::sorted(was),
        rows::sorted(now),
        assoc::assoc(rows::pairs(was)).dom().contains(p),
        assoc::assoc(rows::pairs(now)).dom().contains(p),
        assoc::assoc(rows::pairs(now)).remove(p) == assoc::assoc(rows::pairs(was)).remove(p),
    ensures
        sizes(listed(now)) + tuple::enc_row(assoc::assoc(rows::pairs(was))[p]).len() == sizes(
            listed(was),
        ) + tuple::enc_row(assoc::assoc(rows::pairs(now))[p]).len(),
        tuple::enc_row(assoc::assoc(rows::pairs(was))[p]).len() <= sizes(listed(was)),
{
    rows::sorted_unique(was);
    let at = assoc::assoc_find(rows::pairs(was), p);
    assert(was[at].place() == p);
    rows::sorted_without(was, at);
    let less = was.remove(at);
    sizes_without(was, less, p);
    sizes_without(now, less, p);
}

/// A change to one key of a page leaves all tuples where pages have them.
pub proof fn stays_on_page(was: RowStore, now: RowStore, k: Key)
    requires
        was.wf(),
        now.wf(),
        forall|i: int|
            0 <= i < was.items@.len() ==> (#[trigger] was.items@[i]).table == TableIdType(0),
        forall|p: Place| #[trigger]
            now@.dom().contains(p) ==> was@.dom().contains(p) || p == on_page(k),
    ensures
        forall|i: int|
            0 <= i < now.items@.len() ==> (#[trigger] now.items@[i]).table == TableIdType(0),
{
    assert forall|i: int| 0 <= i < now.items@.len() implies (#[trigger] now.items@[i]).table
        == TableIdType(0) by {
        let p = now.items@[i].place();
        rows::sorted_unique(now.items@);
        assert(rows::pairs(now.items@)[i].0 == p);
        assoc::assoc_at(rows::pairs(now.items@), i);
        assert(now@.dom().contains(p));
        if was@.dom().contains(p) {
            rows::sorted_unique(was.items@);
            let j = assoc::assoc_find(rows::pairs(was.items@), p);
            assert(was.items@[j].place() == p);
        }
    }
}

/// A page takes a tuple exactly where it has none under the key, the tuple is
/// not larger than its kind of page allows, and, unless the page is empty, all
/// tuples together leave 16 bytes of the room free. Of several reasons the size
/// of the tuple comes first and the room second.
pub proof fn page_takes_what_fits(v: Sheet, row: Row)
    ensures
        ({
            let size = tuple::enc_row(row).len();
            let large = v.record_size matches Some(max) && size > max;
            let full = v.used > 0 && v.used + size + 16 > v.data_size;
            &&& add_fault(v, row) is None <==> !large && !full && !v.tuples.dom().contains(row.id)
            &&& large ==> (add_fault(v, row) matches Some(Fault::TupleTooLarge(_, max)) && Some(max)
                == v.record_size)
            &&& !large && full ==> add_fault(v, row) == Some(Fault::PageCapacity)
            &&& !large && !full && v.tuples.dom().contains(row.id) ==> add_fault(v, row) == Some(
                Fault::DuplicateKey(row.id),
            )
        }),
{
}

/// A page that is changed is to be written again, but not before the log is
/// durable up to where it was when the page changed; where nothing is durable
/// yet it need not wait. Nothing in the page changes by that.
pub proof fn changed_page_waits_for_the_log(v: Sheet)
    ensures
        touched(v).dirty,
        v.clock matches Some(c) ==> (c.last_written < u64::MAX ==> touched(v).lsn.0
            == c.last_written) && (c.last_written == u64::MAX ==> touched(v).lsn.0 == 0),
        v.clock is None ==> touched(v).lsn == v.lsn,
        touched(v).tuples == v.tuples,
        touched(v).used == v.used,
        touched(v).next_page == v.next_page,
        touched(v).high_key == v.high_key,
        touched(v).has_overflow == v.has_overflow,
        touched(v).data_size == v.data_size,
        touched(v).record_size == v.record_size,
        touched(v).flags == v.flags,
        touched(v).clock == v.clock,
{
}

/// A fresh page is empty and to be written; its header takes 112 bytes of the
/// size that was asked for, and the rest is room for tuples.
pub proof fn fresh_page_is_empty(size: u64, flags: u16, limit: Option<usize>)
    requires
        size >= 112,
    ensures
        blank(size, flags, limit).data_size + 112 == size,
        blank(size, flags, limit).tuples == Map::<Key, Row>::empty(),
        blank(size, flags, limit).used == 0,
        blank(size, flags, limit).next_page == 0,
        blank(size, flags, limit).high_key is None,
        !blank(size, flags, limit).has_overflow,
        blank(size, flags, limit).dirty,
        blank(size, flags, limit).record_size == limit,
        blank(size, flags, limit).flags == flags,
{
}

/// The header that a page is written with says in one flag whether the tuples
/// go on behind it, and all other flags are the page's.
pub proof fn written_flags_say_overflow(v: Sheet)
    ensures
        head_of(v).flags & 4 != 0 <==> v.has_overflow,
        head_of(v).flags & !4u16 == v.flags & !4u16,
        head_of(v).page_used_size == v.used,
        head_of(v).page_data_size == v.data_size,
        head_of(v).next_page == v.next_page,
{
    let f = v.flags;
    assert((f | 4) & 4 != 0 && (f & !4u16) & 4 == 0) by (bit_vector);
    assert((f | 4) & !4u16 == f & !4u16 && (f & !4u16) & !4u16 == f & !4u16) by (bit_vector);
}

/// Of the room of a page 16 bytes are not for tuples, or all of it where there
/// are no more.
pub proof fn some_room_stays_free(n: u64)
    ensures
        n >= 16 ==> usable(n) + 16 == n,
        n < 16 ==> usable(n) == 0,
{
}

} // verus!

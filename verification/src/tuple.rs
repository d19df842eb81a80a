//! Keys and tuples, and how they are written to disk.
use vstd::prelude::*;

use crate::clock::LsnId;
use crate::codec;
use crate::codec::{
    put_bool, put_bytes, put_opt, put_raw, put_u64, take_bool, take_bytes, take_opt, take_u32, take_u64,
    CodecError, WIDE,
};
use crate::error::StoreError;
use crate::txn::TransactionId;

verus! {

/// A row's key.
#[derive(Debug, PartialEq, Eq, Hash)]
pub enum DBIdType {
    Int(u64),
    Bytes(Vec<u8>),
}

/// A key, as contracts speak of it.
#[verifier::ext_equal]
pub enum Key {
    Int(u64),
    Bytes(Seq<u8>),
}

impl View for DBIdType {
    type V = Key;

    open spec fn view(&self) -> Key {
        match *self {
            DBIdType::Int(n) => Key::Int(n),
            DBIdType::Bytes(b) => Key::Bytes(b@),
        }
    }
}

impl Clone for DBIdType {
    fn clone(&self) -> (r: DBIdType)
        ensures
            r@ == self@,
    {
        match self {
            DBIdType::Int(n) => DBIdType::Int(*n),
            DBIdType::Bytes(b) => DBIdType::Bytes(copy_bytes(b)),
        }
    }
}

/// A copy of `b`.
pub fn copy_bytes(b: &[u8]) -> (r: Vec<u8>)
    ensures
        r@ == b@,
{
    let mut r: Vec<u8> = Vec::new();
    put_raw(&mut r, b);
    assert(r@ =~= b@);
    r
}

/// Do `a` and `b` hold the same bytes?
pub fn same_bytes(a: &[u8], b: &[u8]) -> (r: bool)
    ensures
        r == (a@ == b@),
{
    if a.len() != b.len() {
        return false;
    }
    for i in 0..a.len()
        invariant
            a@.len() == b@.len(),
            forall|k: int| 0 <= k < i ==> a@[k] == b@[k],
    {
        if a[i] != b[i] {
            return false;
        }
    }
    assert(a@ =~= b@);
    true
}

/// Dictionary order of byte strings.
pub open spec fn bytes_before(a: Seq<u8>, b: Seq<u8>) -> bool
    decreases a.len(),
{
    if b.len() == 0 {
        false
    } else if a.len() == 0 {
        true
    } else if a[0] != b[0] {
        a[0] < b[0]
    } else {
        bytes_before(a.skip(1), b.skip(1))
    }
}

/// The order of keys: numbers by value, then byte strings as in a dictionary.
pub open spec fn key_before(a: Key, b: Key) -> bool {
    match (a, b) {
        (Key::Int(x), Key::Int(y)) => x < y,
        (Key::Int(_), Key::Bytes(_)) => true,
        (Key::Bytes(_), Key::Int(_)) => false,
        (Key::Bytes(x), Key::Bytes(y)) => bytes_before(x, y),
    }
}

/// Of two byte strings, exactly one comes first, unless they are the same.
pub proof fn bytes_before_total(a: Seq<u8>, b: Seq<u8>)
    ensures
        bytes_before(a, b) || bytes_before(b, a) || a == b,
        !(bytes_before(a, b) && bytes_before(b, a)),
        a == b ==> !bytes_before(a, b),
    decreases a.len(),
{
    if a.len() > 0 && b.len() > 0 {
        bytes_before_total(a.skip(1), b.skip(1));
        if a[0] == b[0] && a.skip(1) == b.skip(1) {
            assert(a =~= seq![a[0]] + a.skip(1));
            assert(b =~= seq![b[0]] + b.skip(1));
        }
    } else if a.len() == 0 && b.len() == 0 {
        assert(a =~= b);
    }
}

/// Dictionary order is transitive.
pub proof fn bytes_before_transitive(a: Seq<u8>, b: Seq<u8>, c: Seq<u8>)
    requires
        bytes_before(a, b),
        bytes_before(b, c),
    ensures
        bytes_before(a, c),
    decreases a.len(),
{
    if a.len() > 0 && a[0] == b[0] && b[0] == c[0] {
        bytes_before_transitive(a.skip(1), b.skip(1), c.skip(1));
    }
}

/// Of two keys, exactly one comes first, unless they are the same.
pub proof fn key_before_total(a: Key, b: Key)
    ensures
        key_before(a, b) || key_before(b, a) || a == b,
        !(key_before(a, b) && key_before(b, a)),
        a == b ==> !key_before(a, b),
{
    match (a, b) {
        (Key::Bytes(x), Key::Bytes(y)) => {
            bytes_before_total(x, y);
        },
        _ => {},
    }
}

/// The order of keys is transitive.
pub proof fn key_before_transitive(a: Key, b: Key, c: Key)
    requires
        key_before(a, b),
        key_before(b, c),
    ensures
        key_before(a, c),
{
    match (a, b, c) {
        (Key::Bytes(x), Key::Bytes(y), Key::Bytes(z)) => {
            bytes_before_transitive(x, y, z);
        },
        _ => {},
    }
}

/// What the order of keys is: a number comes before a larger one and before
/// every byte string; of two byte strings that begin alike the one comes first
/// that ends there, or has the smaller byte where they differ.
pub proof fn keys_come_in_order(x: u64, y: u64, common: Seq<u8>, a: Seq<u8>, b: Seq<u8>)
    ensures
        key_before(Key::Int(x), Key::Int(y)) <==> x < y,
        key_before(Key::Int(x), Key::Bytes(a)),
        !key_before(Key::Bytes(a), Key::Int(x)),
        b.len() > 0 ==> key_before(Key::Bytes(common), Key::Bytes(common + b)),
        a.len() > 0 && b.len() > 0 && a[0] < b[0] ==> key_before(
            Key::Bytes(common + a),
            Key::Bytes(common + b),
        ),
    decreases common.len(),
{
    if common.len() > 0 {
        let rest = common.skip(1);
        keys_come_in_order(x, y, rest, a, b);
        assert((common + a).skip(1) =~= rest + a);
        assert((common + b).skip(1) =~= rest + b);
        assert((common + a)[0] == common[0] && (common + b)[0] == common[0]);
    } else {
        assert(common + a =~= a);
        assert(common + b =~= b);
    }
}

/// Does `a` come before `b` in dictionary order?
fn bytes_less(a: &[u8], b: &[u8]) -> (r: bool)
    ensures
        r == bytes_before(a@, b@),
{
    let mut i: usize = 0;
    assert(a@.skip(0) =~= a@);
    assert(b@.skip(0) =~= b@);
    while i < a.len() && i < b.len()
        invariant
            i <= a@.len(),
            i <= b@.len(),
            bytes_before(a@, b@) == bytes_before(a@.skip(i as int), b@.skip(i as int)),
        decreases a@.len() - i,
    {
        assert(a@.skip(i as int)[0] == a@[i as int]);
        assert(b@.skip(i as int)[0] == b@[i as int]);
        if a[i] != b[i] {
            return a[i] < b[i];
        }
        assert(a@.skip(i as int).skip(1) =~= a@.skip(i + 1));
        assert(b@.skip(i as int).skip(1) =~= b@.skip(i + 1));
        i = i + 1;
    }
    i < b.len()
}

impl DBIdType {
    /// Does this key come before the other?
    pub fn less(&self, other: &DBIdType) -> (r: bool)
        ensures
            r == key_before(self@, other@),
    {
        match (self, other) {
            (DBIdType::Int(a), DBIdType::Int(b)) => *a < *b,
            (DBIdType::Int(_), DBIdType::Bytes(_)) => true,
            (DBIdType::Bytes(_), DBIdType::Int(_)) => false,
            (DBIdType::Bytes(a), DBIdType::Bytes(b)) => bytes_less(a, b),
        }
    }

    /// Are the two keys the same?
    pub fn same(&self, other: &DBIdType) -> (r: bool)
        ensures
            r == (self@ == other@),
    {
        match (self, other) {
            (DBIdType::Int(a), DBIdType::Int(b)) => *a == *b,
            (DBIdType::Bytes(a), DBIdType::Bytes(b)) => same_bytes(a, b),
            _ => false,
        }
    }
}

/// A version of a row: its key, who wrote it, where the version before it is
/// recorded, its contents, and whether it marks the row as deleted.
#[derive(Debug, PartialEq, Eq)]
pub struct Tuple {
    pub id: DBIdType,
    pub txn_id: Option<TransactionId>,
    pub pre_lsn: Option<LsnId>,
    pub data: Vec<u8>,
    pub tombstone: bool,
}

/// A version of a row, as contracts speak of it.
#[verifier::ext_equal]
pub struct Row {
    pub id: Key,
    pub txn_id: Option<TransactionId>,
    pub pre_lsn: Option<LsnId>,
    pub data: Seq<u8>,
    pub tombstone: bool,
}

impl View for Tuple {
    type V = Row;

    open spec fn view(&self) -> Row {
        Row {
            id: self.id@,
            txn_id: self.txn_id,
            pre_lsn: self.pre_lsn,
            data: self.data@,
            tombstone: self.tombstone,
        }
    }
}

impl Clone for Tuple {
    fn clone(&self) -> (r: Tuple)
        ensures
            r@ == self@,
    {
        Tuple {
            id: self.id.clone(),
            txn_id: self.txn_id,
            pre_lsn: self.pre_lsn,
            data: copy_bytes(&self.data),
            tombstone: self.tombstone,
        }
    }
}

// ---------------------------------------------------------------------------
// Encoding
// ---------------------------------------------------------------------------

/// A key: its kind (0 for an integer, 1 for bytes), then its value.
pub open spec fn enc_key(k: Key) -> Seq<u8> {
    match k {
        Key::Int(n) => codec::varint(0) + codec::varint(n as nat),
        Key::Bytes(b) => codec::varint(1) + codec::enc_bytes(b),
    }
}

/// The key at the front of `s`.
pub open spec fn take_key_spec(s: Seq<u8>) -> Result<(Key, Seq<u8>), CodecError> {
    match codec::take_u32_spec(s) {
        Err(e) => Err(e),
        Ok((tag, rest)) => if tag == 0 {
            match codec::take_u64_spec(rest) {
                Ok((n, tail)) => Ok((Key::Int(n), tail)),
                Err(e) => Err(e),
            }
        } else if tag == 1 {
            match codec::take_bytes_spec(rest) {
                Ok((b, tail)) => Ok((Key::Bytes(b), tail)),
                Err(e) => Err(e),
            }
        } else {
            Err(CodecError::UnknownTag)
        },
    }
}

/// Can the key be written? Its length has to fit its encoding.
pub open spec fn key_fits(k: Key) -> bool {
    k matches Key::Bytes(b) ==> b.len() < WIDE
}

/// A key comes back as it was written.
pub proof fn key_round_trip(k: Key, rest: Seq<u8>)
    requires
        key_fits(k),
    ensures
        take_key_spec(enc_key(k) + rest) == Ok::<(Key, Seq<u8>), CodecError>((k, rest)),
{
    codec::varint_limits();
    match k {
        Key::Int(n) => {
            codec::varint_round_trip(0, codec::varint(n as nat) + rest, 5, 15);
            codec::u64_round_trip(n, rest);
            assert(enc_key(k) + rest =~= codec::varint(0) + (codec::varint(n as nat) + rest));
        },
        Key::Bytes(b) => {
            codec::varint_round_trip(1, codec::enc_bytes(b) + rest, 5, 15);
            codec::bytes_round_trip(b, rest);
            assert(enc_key(k) + rest =~= codec::varint(1) + (codec::enc_bytes(b) + rest));
        },
    }
}

/// A transaction's number, if there is one.
pub open spec fn txn_num(t: Option<TransactionId>) -> Option<u64> {
    match t {
        Some(id) => Some(id.0),
        None => None,
    }
}

/// A log sequence number's value, if there is one.
pub open spec fn lsn_num(l: Option<LsnId>) -> Option<u64> {
    match l {
        Some(id) => Some(id.0),
        None => None,
    }
}

/// A tuple: key, writer, place of the version before, contents, mark.
pub open spec fn enc_row(r: Row) -> Seq<u8> {
    enc_key(r.id) + (codec::enc_opt(txn_num(r.txn_id)) + (codec::enc_opt(lsn_num(r.pre_lsn)) + (codec::enc_bytes(
        r.data,
    ) + codec::enc_bool(r.tombstone))))
}

/// The tuple at the front of `s`.
pub open spec fn take_row_spec(s: Seq<u8>) -> Result<(Row, Seq<u8>), CodecError> {
    match take_key_spec(s) {
        Err(e) => Err(e),
        Ok((id, s1)) => match codec::take_opt_spec(s1) {
            Err(e) => Err(e),
            Ok((txn, s2)) => match codec::take_opt_spec(s2) {
                Err(e) => Err(e),
                Ok((pre, s3)) => match codec::take_bytes_spec(s3) {
                    Err(e) => Err(e),
                    Ok((data, s4)) => match codec::take_bool_spec(s4) {
                        Err(e) => Err(e),
                        Ok((tombstone, s5)) => Ok(
                            (
                                Row {
                                    id,
                                    txn_id: as_txn(txn),
                                    pre_lsn: as_lsn(pre),
                                    data,
                                    tombstone,
                                },
                                s5,
                            ),
                        ),
                    },
                },
            },
        },
    }
}

/// A number as a transaction's.
pub open spec fn as_txn(n: Option<u64>) -> Option<TransactionId> {
    match n {
        Some(v) => Some(TransactionId(v)),
        None => None,
    }
}

/// A number as a log sequence number.
pub open spec fn as_lsn(n: Option<u64>) -> Option<LsnId> {
    match n {
        Some(v) => Some(LsnId(v)),
        None => None,
    }
}

/// Can the tuple be written? Its lengths have to fit their encodings.
pub open spec fn row_fits(r: Row) -> bool {
    key_fits(r.id) && r.data.len() < WIDE
}

/// A tuple comes back as it was written.
pub proof fn row_round_trip(r: Row, rest: Seq<u8>)
    requires
        row_fits(r),
    ensures
        take_row_spec(enc_row(r) + rest) == Ok::<(Row, Seq<u8>), CodecError>((r, rest)),
{
    let t5 = codec::enc_bool(r.tombstone) + rest;
    let t4 = codec::enc_bytes(r.data) + t5;
    let t3 = codec::enc_opt(lsn_num(r.pre_lsn)) + t4;
    let t2 = codec::enc_opt(txn_num(r.txn_id)) + t3;
    let e5 = codec::enc_bool(r.tombstone);
    let e4 = codec::enc_bytes(r.data);
    let e3 = codec::enc_opt(lsn_num(r.pre_lsn));
    let e2 = codec::enc_opt(txn_num(r.txn_id));
    codec::regroup(enc_key(r.id), e2 + (e3 + (e4 + e5)), rest);
    codec::regroup(e2, e3 + (e4 + e5), rest);
    codec::regroup(e3, e4 + e5, rest);
    codec::regroup(e4, e5, rest);
    key_round_trip(r.id, t2);
    codec::opt_round_trip(txn_num(r.txn_id), t3);
    codec::opt_round_trip(lsn_num(r.pre_lsn), t4);
    codec::bytes_round_trip(r.data, t5);
    codec::bool_round_trip(r.tombstone, rest);
}

/// Appends a key.
pub fn put_key(out: &mut Vec<u8>, k: &DBIdType)
    ensures
        final(out)@ == old(out)@ + enc_key(k@),
{
    match k {
        DBIdType::Int(n) => {
            put_u64(out, 0);
            put_u64(out, *n);
        },
        DBIdType::Bytes(b) => {
            put_u64(out, 1);
            put_bytes(out, b);
        },
    }
    assert(out@ =~= old(out)@ + enc_key(k@));
}

/// Takes a key off the front of `bytes`.
pub fn take_key(bytes: &[u8]) -> (r: Result<(DBIdType, &[u8]), CodecError>)
    ensures
        codec::took(r, take_key_spec(bytes@)),
{
    let (tag, rest) = match take_u32(bytes) {
        Ok(taken) => taken,
        Err(e) => {
            return Err(e);
        },
    };
    if tag == 0 {
        match take_u64(rest) {
            Ok((n, tail)) => Ok((DBIdType::Int(n), tail)),
            Err(e) => Err(e),
        }
    } else if tag == 1 {
        match take_bytes(rest) {
            Ok((b, tail)) => Ok((DBIdType::Bytes(copy_bytes(b)), tail)),
            Err(e) => Err(e),
        }
    } else {
        Err(CodecError::UnknownTag)
    }
}

/// Appends a tuple.
pub fn put_tuple(out: &mut Vec<u8>, t: &Tuple)
    ensures
        final(out)@ == old(out)@ + enc_row(t@),
{
    let txn: Option<u64> = match t.txn_id {
        Some(id) => Some(id.0),
        None => None,
    };
    let pre: Option<u64> = match t.pre_lsn {
        Some(lsn) => Some(lsn.0),
        None => None,
    };
    put_key(out, &t.id);
    put_opt(out, txn);
    put_opt(out, pre);
    put_bytes(out, &t.data);
    put_bool(out, t.tombstone);
    proof {
        let e1 = enc_key(t@.id);
        let e2 = codec::enc_opt(txn);
        let e3 = codec::enc_opt(pre);
        let e4 = codec::enc_bytes(t@.data);
        let e5 = codec::enc_bool(t@.tombstone);
        let o = old(out)@;
        codec::regroup(o + e1 + e2 + e3, e4, e5);
        codec::regroup(o + e1 + e2, e3, e4 + e5);
        codec::regroup(o + e1, e2, e3 + (e4 + e5));
        codec::regroup(o, e1, e2 + (e3 + (e4 + e5)));
    }
}

/// Takes a tuple off the front of `bytes`.
pub fn take_tuple(bytes: &[u8]) -> (r: Result<(Tuple, &[u8]), CodecError>)
    ensures
        codec::took(r, take_row_spec(bytes@)),
{
    let (id, s1) = match take_key(bytes) {
        Ok(taken) => taken,
        Err(e) => {
            return Err(e);
        },
    };
    let (txn, s2) = match take_opt(s1) {
        Ok(taken) => taken,
        Err(e) => {
            return Err(e);
        },
    };
    let (pre, s3) = match take_opt(s2) {
        Ok(taken) => taken,
        Err(e) => {
            return Err(e);
        },
    };
    let (data, s4) = match take_bytes(s3) {
        Ok(taken) => taken,
        Err(e) => {
            return Err(e);
        },
    };
    let (tombstone, s5) = match take_bool(s4) {
        Ok(taken) => taken,
        Err(e) => {
            return Err(e);
        },
    };
    let txn_id = match txn {
        Some(n) => Some(TransactionId(n)),
        None => None,
    };
    let pre_lsn = match pre {
        Some(n) => Some(LsnId(n)),
        None => None,
    };
    Ok((Tuple { id, txn_id, pre_lsn, data: copy_bytes(data), tombstone }, s5))
}

impl Tuple {
    /// A version keyed by a number, with no writer yet and nothing before it.
    pub fn new(id: u64, data: &[u8]) -> (t: Tuple)
        ensures
            t@ == (Row {
                id: Key::Int(id),
                txn_id: None,
                pre_lsn: None,
                data: data@,
                tombstone: false,
            }),
    {
        Tuple::new_with(DBIdType::Int(id), data, None, None)
    }

    /// A version with every part given; it is no deletion mark.
    pub fn new_with(
        id: DBIdType,
        data: &[u8],
        txn_id: Option<TransactionId>,
        pre_lsn: Option<LsnId>,
    ) -> (t: Tuple)
        ensures
            t@ == (Row { id: id@, txn_id, pre_lsn, data: data@, tombstone: false }),
    {
        Tuple { id, txn_id, pre_lsn, data: copy_bytes(data), tombstone: false }
    }

    /// The tuple's bytes.
    pub fn to(&self) -> (out: Vec<u8>)
        ensures
            out@ == enc_row(self@),
    {
        let mut out: Vec<u8> = Vec::new();
        put_tuple(&mut out, self);
        assert(out@ =~= enc_row(self@));
        out
    }

    /// The tuple that `bytes` begin with.
    pub fn from(bytes: &[u8]) -> (r: Result<Tuple, StoreError>)
        ensures
            match take_row_spec(bytes@) {
                Ok((row, _)) => r matches Ok(t) && t@ == row,
                Err(e) => r matches Err(StoreError::SerializationError(f)) && f == e,
            },
    {
        match take_tuple(bytes) {
            Ok((t, _)) => Ok(t),
            Err(e) => Err(StoreError::SerializationError(e)),
        }
    }

    /// How many bytes the tuple takes on disk.
    pub fn size(&self) -> (n: usize)
        ensures
            n == enc_row(self@).len(),
    {
        self.to().len()
    }

    /// Records who writes this version.
    pub fn set_txn_id(&mut self, txn: TransactionId)
        ensures
            final(self)@ == (Row { txn_id: Some(txn), ..old(self)@ }),
    {
        self.txn_id = Some(txn);
    }

    /// Records where the version before this one is to be found.
    pub fn set_pre_lsn(&mut self, lsn: LsnId)
        ensures
            final(self)@ == (Row { pre_lsn: Some(lsn), ..old(self)@ }),
    {
        self.pre_lsn = Some(lsn);
    }

    /// Records that no version came before this one.
    pub fn set_pre_lsn_none(&mut self)
        ensures
            final(self)@ == (Row { pre_lsn: None, ..old(self)@ }),
    {
        self.pre_lsn = None;
    }

    /// Replaces the contents.
    pub fn set_data(&mut self, data: &[u8])
        ensures
            final(self)@ == (Row { data: data@, ..old(self)@ }),
    {
        self.data = copy_bytes(data);
    }

    /// Marks the row as deleted.
    pub fn set_tombstone(&mut self)
        ensures
            final(self)@ == (Row { tombstone: true, ..old(self)@ }),
    {
        self.tombstone = true;
    }

    /// Takes the deletion mark off.
    pub fn clear_tombstone(&mut self)
        ensures
            final(self)@ == (Row { tombstone: false, ..old(self)@ }),
    {
        self.tombstone = false;
    }

    /// Is this version a deletion mark?
    pub fn is_tombstoned(&self) -> (r: bool)
        ensures
            r == self@.tombstone,
    {
        self.tombstone
    }
}

} // verus!

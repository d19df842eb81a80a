//! What the write-ahead log records, and how a record is written to disk.
use vstd::prelude::*;

use crate::clock::LsnId;
use crate::codec;
use crate::codec::{
    put_bool, put_opt, put_text, put_u64, take_bool, take_n, take_opt, take_text, take_u64,
    CodecError, WIDE,
};
use crate::error::StoreError;
use crate::page::PageId;
use crate::table::TableIdType;
use crate::tuple;
use crate::tuple::{put_key, put_tuple, take_key, take_tuple, DBIdType, Key, Row, Tuple};
use crate::txn::TransactionId;

verus! {

/// A version of a row, with the table that holds it.
#[derive(Debug)]
pub struct Record {
    pub table_id: TableIdType,
    pub tuple: Tuple,
    /// Only set for an added row.
    pub data_page: Option<PageId>,
}

/// A version with its table, as contracts speak of it.
#[verifier::ext_equal]
pub struct Image {
    pub table_id: TableIdType,
    pub tuple: Row,
    pub data_page: Option<PageId>,
}

impl View for Record {
    type V = Image;

    open spec fn view(&self) -> Image {
        Image { table_id: self.table_id, tuple: self.tuple@, data_page: self.data_page }
    }
}

impl Clone for Record {
    fn clone(&self) -> (r: Record)
        ensures
            r@ == self@,
    {
        Record {
            table_id: self.table_id,
            tuple: self.tuple.clone(),
            data_page: self.data_page,
        }
    }
}

impl Record {
    /// A version of a row of `table_id`.
    pub fn new(table_id: TableIdType, tuple: Tuple, data_page: Option<PageId>) -> (r: Record)
        ensures
            r@ == (Image { table_id, tuple: tuple@, data_page }),
    {
        Record { table_id, tuple, data_page }
    }
}

/// One logged event.
#[derive(Debug)]
pub enum Operation {
    /// `txn` added the row `post`.
    Add { txn: TransactionId, post: Record },
    /// `txn` replaced `pre` by `post`; `pre` may be its own earlier version,
    /// or a deletion mark that an insert brought back to life.
    Mod { txn: TransactionId, pre: Record, post: Record },
    /// `txn` put a deletion mark in place of `pre`.
    Del { txn: TransactionId, pre: Record },
    Commit(TransactionId),
    Rollback(TransactionId),
    /// A named sequence will hand out nothing at or above `high_water` before
    /// the next such record; or it was dropped.
    Sequence { name: String, high_water: u64, dropped: bool },
    /// The deletion mark that `txn` left for `key` is physically removed.
    Purge { txn: TransactionId, table_id: TableIdType, key: DBIdType },
}

/// A logged event, as contracts speak of it.
#[verifier::ext_equal]
pub enum Op {
    Add { txn: TransactionId, post: Image },
    Mod { txn: TransactionId, pre: Image, post: Image },
    Del { txn: TransactionId, pre: Image },
    Commit(TransactionId),
    Rollback(TransactionId),
    Sequence { name: Seq<char>, high_water: u64, dropped: bool },
    Purge { txn: TransactionId, table_id: TableIdType, key: Key },
}

impl View for Operation {
    type V = Op;

    open spec fn view(&self) -> Op {
        match *self {
            Operation::Add { txn, post } => Op::Add { txn, post: post@ },
            Operation::Mod { txn, pre, post } => Op::Mod { txn, pre: pre@, post: post@ },
            Operation::Del { txn, pre } => Op::Del { txn, pre: pre@ },
            Operation::Commit(txn) => Op::Commit(txn),
            Operation::Rollback(txn) => Op::Rollback(txn),
            Operation::Sequence { name, high_water, dropped } => {
                Op::Sequence { name: name@, high_water, dropped }
            },
            Operation::Purge { txn, table_id, key } => Op::Purge { txn, table_id, key: key@ },
        }
    }
}

impl Clone for Operation {
    fn clone(&self) -> (r: Operation)
        ensures
            r@ == self@,
    {
        match self {
            Operation::Add { txn, post } => Operation::Add { txn: *txn, post: post.clone() },
            Operation::Mod { txn, pre, post } => {
                Operation::Mod { txn: *txn, pre: pre.clone(), post: post.clone() }
            },
            Operation::Del { txn, pre } => Operation::Del { txn: *txn, pre: pre.clone() },
            Operation::Commit(txn) => Operation::Commit(*txn),
            Operation::Rollback(txn) => Operation::Rollback(*txn),
            Operation::Sequence { name, high_water, dropped } => {
                Operation::Sequence {
                    name: name.clone(),
                    high_water: *high_water,
                    dropped: *dropped,
                }
            },
            Operation::Purge { txn, table_id, key } => {
                Operation::Purge { txn: *txn, table_id: *table_id, key: key.clone() }
            },
        }
    }
}

impl Operation {
    /// `txn` added `post`.
    pub fn new_add(txn: TransactionId, post: Record) -> (op: Operation)
        ensures
            op@ == (Op::Add { txn, post: post@ }),
    {
        Operation::Add { txn, post }
    }

    /// `txn` committed.
    pub fn new_commit(txn: TransactionId) -> (op: Operation)
        ensures
            op@ == Op::Commit(txn),
    {
        Operation::Commit(txn)
    }

    /// `txn` was rolled back.
    pub fn new_rollback(txn: TransactionId) -> (op: Operation)
        ensures
            op@ == Op::Rollback(txn),
    {
        Operation::Rollback(txn)
    }
}

/// An operation under its log sequence number.
#[derive(Debug)]
pub struct LogRecord {
    pub lsn: LsnId,
    pub operation: Operation,
}

/// A log record, as contracts speak of it.
#[verifier::ext_equal]
pub struct Entry {
    pub lsn: LsnId,
    pub op: Op,
}

impl View for LogRecord {
    type V = Entry;

    open spec fn view(&self) -> Entry {
        Entry { lsn: self.lsn, op: self.operation@ }
    }
}

impl Clone for LogRecord {
    fn clone(&self) -> (r: LogRecord)
        ensures
            r@ == self@,
    {
        LogRecord { lsn: self.lsn, operation: self.operation.clone() }
    }
}

/// The log records, as contracts speak of them.
pub open spec fn entries(records: Seq<LogRecord>) -> Seq<Entry> {
    records.map_values(|r: LogRecord| r@)
}

// ---------------------------------------------------------------------------
// Encoding
// ---------------------------------------------------------------------------

/// A page's number, if there is one.
pub open spec fn page_num(p: Option<PageId>) -> Option<u64> {
    match p {
        Some(id) => Some(id.0),
        None => None,
    }
}

/// A number as a page's.
pub open spec fn as_page(n: Option<u64>) -> Option<PageId> {
    match n {
        Some(v) => Some(PageId(v)),
        None => None,
    }
}

/// A version with its table: table number, tuple, page.
#[verifier::opaque]
pub open spec fn enc_image(i: Image) -> Seq<u8> {
    codec::varint(i.table_id.0 as nat) + (tuple::enc_row(i.tuple) + codec::enc_opt(
        page_num(i.data_page),
    ))
}

/// The version with its table at the front of `s`.
#[verifier::opaque]
pub open spec fn take_image_spec(s: Seq<u8>) -> Result<(Image, Seq<u8>), CodecError> {
    match codec::take_u64_spec(s) {
        Err(e) => Err(e),
        Ok((table, s1)) => match tuple::take_row_spec(s1) {
            Err(e) => Err(e),
            Ok((row, s2)) => match codec::take_opt_spec(s2) {
                Err(e) => Err(e),
                Ok((page, s3)) => Ok(
                    (
                        Image {
                            table_id: TableIdType(table),
                            tuple: row,
                            data_page: as_page(page),
                        },
                        s3,
                    ),
                ),
            },
        },
    }
}

/// Can the version be written?
pub open spec fn image_fits(i: Image) -> bool {
    tuple::row_fits(i.tuple)
}

/// A version with its table comes back as it was written.
pub proof fn image_round_trip(i: Image, rest: Seq<u8>)
    requires
        image_fits(i),
    ensures
        take_image_spec(enc_image(i) + rest) == Ok::<(Image, Seq<u8>), CodecError>((i, rest)),
{
    reveal(enc_image);
    reveal(take_image_spec);
    let e1 = codec::varint(i.table_id.0 as nat);
    let e2 = tuple::enc_row(i.tuple);
    let e3 = codec::enc_opt(page_num(i.data_page));
    codec::regroup(e1, e2 + e3, rest);
    codec::regroup(e2, e3, rest);
    codec::u64_round_trip(i.table_id.0, e2 + (e3 + rest));
    tuple::row_round_trip(i.tuple, e3 + rest);
    codec::opt_round_trip(page_num(i.data_page), rest);
}

/// An operation: a tag byte that never changes its meaning, then its parts.
pub open spec fn enc_op(op: Op) -> Seq<u8> {
    match op {
        Op::Add { txn, post } => seq![0u8] + (codec::varint(txn.0 as nat) + enc_image(post)),
        Op::Mod { txn, pre, post } => seq![1u8] + (codec::varint(txn.0 as nat) + (enc_image(pre)
            + enc_image(post))),
        Op::Del { txn, pre } => seq![2u8] + (codec::varint(txn.0 as nat) + enc_image(pre)),
        Op::Commit(txn) => seq![3u8] + codec::varint(txn.0 as nat),
        Op::Rollback(txn) => seq![4u8] + codec::varint(txn.0 as nat),
        Op::Sequence { name, high_water, dropped } => seq![5u8] + (codec::enc_text(name) + (
        codec::varint(high_water as nat) + codec::enc_bool(dropped))),
        Op::Purge { txn, table_id, key } => seq![6u8] + (codec::varint(txn.0 as nat) + (
        codec::varint(table_id.0 as nat) + tuple::enc_key(key))),
    }
}

/// The transaction's number and the version after it, at the front of `s`.
pub open spec fn take_txn_image_spec(s: Seq<u8>) -> Result<
    ((TransactionId, Image), Seq<u8>),
    CodecError,
> {
    match codec::take_u64_spec(s) {
        Err(e) => Err(e),
        Ok((txn, s1)) => match take_image_spec(s1) {
            Err(e) => Err(e),
            Ok((image, s2)) => Ok(((TransactionId(txn), image), s2)),
        },
    }
}

/// The operation at the front of `s`.
pub open spec fn take_op_spec(s: Seq<u8>) -> Result<(Op, Seq<u8>), CodecError> {
    if s.len() == 0 {
        Err(CodecError::UnexpectedEnd)
    } else {
        let body = s.skip(1);
        if s[0] == 0 {
            match take_txn_image_spec(body) {
                Err(e) => Err(e),
                Ok(((txn, post), rest)) => Ok((Op::Add { txn, post }, rest)),
            }
        } else if s[0] == 1 {
            match take_txn_image_spec(body) {
                Err(e) => Err(e),
                Ok(((txn, pre), rest)) => match take_image_spec(rest) {
                    Err(e) => Err(e),
                    Ok((post, tail)) => Ok((Op::Mod { txn, pre, post }, tail)),
                },
            }
        } else if s[0] == 2 {
            match take_txn_image_spec(body) {
                Err(e) => Err(e),
                Ok(((txn, pre), rest)) => Ok((Op::Del { txn, pre }, rest)),
            }
        } else if s[0] == 3 {
            match codec::take_u64_spec(body) {
                Err(e) => Err(e),
                Ok((txn, rest)) => Ok((Op::Commit(TransactionId(txn)), rest)),
            }
        } else if s[0] == 4 {
            match codec::take_u64_spec(body) {
                Err(e) => Err(e),
                Ok((txn, rest)) => Ok((Op::Rollback(TransactionId(txn)), rest)),
            }
        } else if s[0] == 5 {
            match codec::take_text_spec(body) {
                Err(e) => Err(e),
                Ok((name, s1)) => match codec::take_u64_spec(s1) {
                    Err(e) => Err(e),
                    Ok((high_water, s2)) => match codec::take_bool_spec(s2) {
                        Err(e) => Err(e),
                        Ok((dropped, s3)) => Ok((Op::Sequence { name, high_water, dropped }, s3)),
                    },
                },
            }
        } else if s[0] == 6 {
            match codec::take_u64_spec(body) {
                Err(e) => Err(e),
                Ok((txn, s1)) => match codec::take_u64_spec(s1) {
                    Err(e) => Err(e),
                    Ok((table, s2)) => match tuple::take_key_spec(s2) {
                        Err(e) => Err(e),
                        Ok((key, s3)) => Ok(
                            (
                                Op::Purge {
                                    txn: TransactionId(txn),
                                    table_id: TableIdType(table),
                                    key,
                                },
                                s3,
                            ),
                        ),
                    },
                },
            }
        } else {
            Err(CodecError::UnknownTag)
        }
    }
}

/// Can the operation be written? Its lengths have to fit their encodings.
pub open spec fn op_fits(op: Op) -> bool {
    match op {
        Op::Add { txn, post } => image_fits(post),
        Op::Mod { txn, pre, post } => image_fits(pre) && image_fits(post),
        Op::Del { txn, pre } => image_fits(pre),
        Op::Sequence { name, .. } => vstd::utf8::encode_utf8(name).len() < WIDE,
        Op::Purge { key, .. } => tuple::key_fits(key),
        _ => true,
    }
}

/// An operation comes back as it was written.
#[verifier::rlimit(40)]
pub proof fn op_round_trip(op: Op, rest: Seq<u8>)
    requires
        op_fits(op),
    ensures
        take_op_spec(enc_op(op) + rest) == Ok::<(Op, Seq<u8>), CodecError>((op, rest)),
{
    let s = enc_op(op) + rest;
    match op {
        Op::Add { txn, post } => {
            let t = codec::varint(txn.0 as nat);
            assert(s.skip(1) =~= t + (enc_image(post) + rest));
            codec::u64_round_trip(txn.0, enc_image(post) + rest);
            image_round_trip(post, rest);
        },
        Op::Mod { txn, pre, post } => {
            let t = codec::varint(txn.0 as nat);
            let a = enc_image(pre);
            let b = enc_image(post);
            assert(s.skip(1) =~= (t + (a + b)) + rest);
            codec::regroup(t, a + b, rest);
            codec::regroup(a, b, rest);
            codec::u64_round_trip(txn.0, a + (b + rest));
            image_round_trip(pre, b + rest);
            image_round_trip(post, rest);
        },
        Op::Del { txn, pre } => {
            let t = codec::varint(txn.0 as nat);
            assert(s.skip(1) =~= t + (enc_image(pre) + rest));
            codec::u64_round_trip(txn.0, enc_image(pre) + rest);
            image_round_trip(pre, rest);
        },
        Op::Commit(txn) => {
            assert(s.skip(1) =~= codec::varint(txn.0 as nat) + rest);
            codec::u64_round_trip(txn.0, rest);
        },
        Op::Rollback(txn) => {
            assert(s.skip(1) =~= codec::varint(txn.0 as nat) + rest);
            codec::u64_round_trip(txn.0, rest);
        },
        Op::Sequence { name, high_water, dropped } => {
            let a = codec::enc_text(name);
            let b = codec::varint(high_water as nat);
            let c = codec::enc_bool(dropped);
            assert(s.skip(1) =~= (a + (b + c)) + rest);
            codec::regroup(a, b + c, rest);
            codec::regroup(b, c, rest);
            codec::text_round_trip(name, b + (c + rest));
            codec::u64_round_trip(high_water, c + rest);
            codec::bool_round_trip(dropped, rest);
        },
        Op::Purge { txn, table_id, key } => {
            let a = codec::varint(txn.0 as nat);
            let b = codec::varint(table_id.0 as nat);
            let c = tuple::enc_key(key);
            assert(s.skip(1) =~= (a + (b + c)) + rest);
            codec::regroup(a, b + c, rest);
            codec::regroup(b, c, rest);
            codec::u64_round_trip(txn.0, b + (c + rest));
            codec::u64_round_trip(table_id.0, c + rest);
            tuple::key_round_trip(key, rest);
        },
    }
}

/// A log record: its sequence number, then the operation.
#[verifier::opaque]
pub open spec fn enc_entry(e: Entry) -> Seq<u8> {
    codec::varint(e.lsn.0 as nat) + enc_op(e.op)
}

/// The log record at the front of `s`.
#[verifier::opaque]
pub open spec fn take_entry_spec(s: Seq<u8>) -> Result<(Entry, Seq<u8>), CodecError> {
    match codec::take_u64_spec(s) {
        Err(e) => Err(e),
        Ok((lsn, rest)) => match take_op_spec(rest) {
            Err(e) => Err(e),
            Ok((op, tail)) => Ok((Entry { lsn: LsnId(lsn), op }, tail)),
        },
    }
}

/// A log record comes back as it was written.
pub proof fn entry_round_trip(e: Entry, rest: Seq<u8>)
    requires
        op_fits(e.op),
    ensures
        take_entry_spec(enc_entry(e) + rest) == Ok::<(Entry, Seq<u8>), CodecError>((e, rest)),
{
    reveal(enc_entry);
    reveal(take_entry_spec);
    codec::regroup(codec::varint(e.lsn.0 as nat), enc_op(e.op), rest);
    codec::u64_round_trip(e.lsn.0, enc_op(e.op) + rest);
    op_round_trip(e.op, rest);
}

/// Appends a version with its table.
pub fn put_record(out: &mut Vec<u8>, r: &Record)
    ensures
        final(out)@ == old(out)@ + enc_image(r@),
{
    let page: Option<u64> = match r.data_page {
        Some(p) => Some(p.0),
        None => None,
    };
    put_u64(out, r.table_id.0);
    put_tuple(out, &r.tuple);
    put_opt(out, page);
    proof {
        reveal(enc_image);
        let e1 = codec::varint(r.table_id.0 as nat);
        let e2 = tuple::enc_row(r@.tuple);
        let e3 = codec::enc_opt(page);
        codec::regroup(old(out)@ + e1, e2, e3);
        codec::regroup(old(out)@, e1, e2 + e3);
    }
}

/// Takes a version with its table off the front of `bytes`.
pub fn take_record(bytes: &[u8]) -> (r: Result<(Record, &[u8]), CodecError>)
    ensures
        codec::took(r, take_image_spec(bytes@)),
{
    proof {
        reveal(take_image_spec);
    }
    let (table, s1) = match take_u64(bytes) {
        Ok(taken) => taken,
        Err(e) => {
            return Err(e);
        },
    };
    let (t, s2) = match take_tuple(s1) {
        Ok(taken) => taken,
        Err(e) => {
            return Err(e);
        },
    };
    let (page, s3) = match take_opt(s2) {
        Ok(taken) => taken,
        Err(e) => {
            return Err(e);
        },
    };
    let data_page = match page {
        Some(n) => Some(PageId(n)),
        None => None,
    };
    Ok((Record { table_id: TableIdType(table), tuple: t, data_page }, s3))
}

/// Appends an operation.
pub fn put_op(out: &mut Vec<u8>, op: &Operation)
    ensures
        final(out)@ == old(out)@ + enc_op(op@),
{
    let ghost o = old(out)@;
    match op {
        Operation::Add { txn, post } => {
            out.push(0);
            put_u64(out, txn.0);
            put_record(out, post);
            proof {
                let t = codec::varint(txn.0 as nat);
                assert(o.push(0) =~= o + seq![0u8]);
                codec::regroup(o + seq![0u8], t, enc_image(post@));
                codec::regroup(o, seq![0u8], t + enc_image(post@));
            }
        },
        Operation::Mod { txn, pre, post } => {
            out.push(1);
            put_u64(out, txn.0);
            put_record(out, pre);
            put_record(out, post);
            proof {
                let t = codec::varint(txn.0 as nat);
                let a = enc_image(pre@);
                let b = enc_image(post@);
                assert(o.push(1) =~= o + seq![1u8]);
                codec::regroup(o + seq![1u8] + t, a, b);
                codec::regroup(o + seq![1u8], t, a + b);
                codec::regroup(o, seq![1u8], t + (a + b));
            }
        },
        Operation::Del { txn, pre } => {
            out.push(2);
            put_u64(out, txn.0);
            put_record(out, pre);
            proof {
                let t = codec::varint(txn.0 as nat);
                assert(o.push(2) =~= o + seq![2u8]);
                codec::regroup(o + seq![2u8], t, enc_image(pre@));
                codec::regroup(o, seq![2u8], t + enc_image(pre@));
            }
        },
        Operation::Commit(txn) => {
            out.push(3);
            put_u64(out, txn.0);
            proof {
                assert(o.push(3) =~= o + seq![3u8]);
                codec::regroup(o, seq![3u8], codec::varint(txn.0 as nat));
            }
        },
        Operation::Rollback(txn) => {
            out.push(4);
            put_u64(out, txn.0);
            proof {
                assert(o.push(4) =~= o + seq![4u8]);
                codec::regroup(o, seq![4u8], codec::varint(txn.0 as nat));
            }
        },
        Operation::Sequence { name, high_water, dropped } => {
            out.push(5);
            put_text(out, name.as_str());
            put_u64(out, *high_water);
            put_bool(out, *dropped);
            proof {
                let a = codec::enc_text(name@);
                let b = codec::varint(*high_water as nat);
                let c = codec::enc_bool(*dropped);
                assert(o.push(5) =~= o + seq![5u8]);
                codec::regroup(o + seq![5u8] + a, b, c);
                codec::regroup(o + seq![5u8], a, b + c);
                codec::regroup(o, seq![5u8], a + (b + c));
            }
        },
        Operation::Purge { txn, table_id, key } => {
            out.push(6);
            put_u64(out, txn.0);
            put_u64(out, table_id.0);
            put_key(out, key);
            proof {
                let a = codec::varint(txn.0 as nat);
                let b = codec::varint(table_id.0 as nat);
                let c = tuple::enc_key(key@);
                assert(o.push(6) =~= o + seq![6u8]);
                codec::regroup(o + seq![6u8] + a, b, c);
                codec::regroup(o + seq![6u8], a, b + c);
                codec::regroup(o, seq![6u8], a + (b + c));
            }
        },
    }
}

/// Takes a transaction's number and a version off the front of `bytes`.
fn take_txn_record(bytes: &[u8]) -> (r: Result<((TransactionId, Record), &[u8]), CodecError>)
    ensures
        match (r, take_txn_image_spec(bytes@)) {
            (Ok((v, rest)), Ok((w, tail))) => v.0 == w.0 && v.1@ == w.1 && rest@ == tail,
            (Err(e), Err(f)) => e == f,
            _ => false,
        },
{
    let (txn, s1) = match take_u64(bytes) {
        Ok(taken) => taken,
        Err(e) => {
            return Err(e);
        },
    };
    match take_record(s1) {
        Ok((record, s2)) => Ok(((TransactionId(txn), record), s2)),
        Err(e) => Err(e),
    }
}

/// Takes an operation off the front of `bytes`.
pub fn take_op(bytes: &[u8]) -> (r: Result<(Operation, &[u8]), CodecError>)
    ensures
        codec::took(r, take_op_spec(bytes@)),
{
    let (head, body) = match take_n(bytes, 1) {
        Ok(taken) => taken,
        Err(e) => {
            return Err(e);
        },
    };
    let tag: u8 = head[0];
    if tag == 0 {
        match take_txn_record(body) {
            Ok(((txn, post), rest)) => Ok((Operation::Add { txn, post }, rest)),
            Err(e) => Err(e),
        }
    } else if tag == 1 {
        match take_txn_record(body) {
            Ok(((txn, pre), rest)) => match take_record(rest) {
                Ok((post, tail)) => Ok((Operation::Mod { txn, pre, post }, tail)),
                Err(e) => Err(e),
            },
            Err(e) => Err(e),
        }
    } else if tag == 2 {
        match take_txn_record(body) {
            Ok(((txn, pre), rest)) => Ok((Operation::Del { txn, pre }, rest)),
            Err(e) => Err(e),
        }
    } else if tag == 3 {
        match take_u64(body) {
            Ok((txn, rest)) => Ok((Operation::Commit(TransactionId(txn)), rest)),
            Err(e) => Err(e),
        }
    } else if tag == 4 {
        match take_u64(body) {
            Ok((txn, rest)) => Ok((Operation::Rollback(TransactionId(txn)), rest)),
            Err(e) => Err(e),
        }
    } else if tag == 5 {
        let (name, s1) = match take_text(body) {
            Ok(taken) => taken,
            Err(e) => {
                return Err(e);
            },
        };
        let (high_water, s2) = match take_u64(s1) {
            Ok(taken) => taken,
            Err(e) => {
                return Err(e);
            },
        };
        match take_bool(s2) {
            Ok((dropped, s3)) => Ok((Operation::Sequence { name, high_water, dropped }, s3)),
            Err(e) => Err(e),
        }
    } else if tag == 6 {
        let (txn, s1) = match take_u64(body) {
            Ok(taken) => taken,
            Err(e) => {
                return Err(e);
            },
        };
        let (table, s2) = match take_u64(s1) {
            Ok(taken) => taken,
            Err(e) => {
                return Err(e);
            },
        };
        match take_key(s2) {
            Ok((key, s3)) => Ok(
                (
                    Operation::Purge {
                        txn: TransactionId(txn),
                        table_id: TableIdType(table),
                        key,
                    },
                    s3,
                ),
            ),
            Err(e) => Err(e),
        }
    } else {
        Err(CodecError::UnknownTag)
    }
}

impl Operation {
    /// The operation's bytes.
    pub fn to_bytes(&self) -> (out: Vec<u8>)
        ensures
            out@ == enc_op(self@),
    {
        let mut out: Vec<u8> = Vec::new();
        put_op(&mut out, self);
        assert(out@ =~= enc_op(self@));
        out
    }

    /// The operation that `bytes` begin with.
    pub fn from_bytes(bytes: &[u8]) -> (r: Result<Operation, StoreError>)
        ensures
            match take_op_spec(bytes@) {
                Ok((op, _)) => r matches Ok(v) && v@ == op,
                Err(e) => r matches Err(StoreError::SerializationError(f)) && f == e,
            },
    {
        match take_op(bytes) {
            Ok((op, _)) => Ok(op),
            Err(e) => Err(StoreError::SerializationError(e)),
        }
    }
}

impl LogRecord {
    /// The record's bytes.
    pub fn to_bytes(&self) -> (out: Vec<u8>)
        ensures
            out@ == enc_entry(self@),
    {
        let mut out: Vec<u8> = Vec::new();
        put_u64(&mut out, self.lsn.0);
        put_op(&mut out, &self.operation);
        proof {
            reveal(enc_entry);
            assert(out@ =~= enc_entry(self@));
        }
        out
    }

    /// The record that `bytes` begin with.
    pub fn from_bytes(bytes: &[u8]) -> (r: Result<LogRecord, StoreError>)
        ensures
            match take_entry_spec(bytes@) {
                Ok((entry, _)) => r matches Ok(v) && v@ == entry,
                Err(e) => r matches Err(StoreError::SerializationError(f)) && f == e,
            },
    {
        proof {
            reveal(take_entry_spec);
        }
        let (lsn, rest) = match take_u64(bytes) {
            Ok(taken) => taken,
            Err(e) => {
                return Err(StoreError::SerializationError(e));
            },
        };
        match take_op(rest) {
            Ok((operation, _)) => Ok(LogRecord { lsn: LsnId(lsn), operation }),
            Err(e) => Err(StoreError::SerializationError(e)),
        }
    }
}

} // verus!

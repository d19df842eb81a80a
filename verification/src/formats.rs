//! What the bytes are that files are made of: which byte comes first, which
//! number stands for what, and what everything begins with. Files outlive the
//! program that wrote them, so none of this may change.
use vstd::prelude::*;
use vstd::string::*;

use crate::codec;
use crate::codec::CodecError;
use crate::framing;
use crate::framing::{CURRENT_LOG_VERSION, LOG_MAGIC};
use crate::hash;
use crate::header;
use crate::header::{Header, MAGIC};
use crate::operation;
use crate::operation::{Entry, Op};
use crate::page;
use crate::page::{Head, HAS_OVERFLOW, INDEX_PAGE, IS_OVERFLOW, PINNED};
use crate::segment;
use crate::table;
use crate::table::Tab;
use crate::text;
use crate::tuple;
use crate::tuple::{Key, Row};
use crate::wal;

verus! {

/// A number of fixed width is written with its lowest byte first, and all but
/// that byte is how the number without it is written.
pub proof fn fixed_numbers_begin_with_the_lowest_byte(n: nat, width: nat)
    requires
        width > 0,
    ensures
        codec::le_bytes(n, width).len() == width,
        codec::le_bytes(n, width)[0] == n % 256,
        codec::le_bytes(n, width).skip(1) == codec::le_bytes(n / 256, (width - 1) as nat),
{
    codec::le_bytes_len(n, width);
    assert(codec::le_bytes(n, width).skip(1) =~= codec::le_bytes(n / 256, (width - 1) as nat));
}

/// A number of variable length is written in groups of seven bits, the lowest
/// first; every byte but the last has its top bit set.
pub proof fn short_numbers_take_one_byte(n: nat)
    ensures
        n < 128 ==> codec::varint(n) == seq![n as u8],
        n >= 128 ==> codec::varint(n)[0] == n % 128 + 128 && codec::varint(n).skip(1)
            == codec::varint(n / 128),
{
    if n >= 128 {
        assert(codec::varint(n).skip(1) =~= codec::varint(n / 128));
    }
}

/// Bytes come behind their number; a truth value is one byte, and so is the
/// absence of a number, while its presence is a 1 before it.
pub proof fn values_are_marked(b: Seq<u8>, n: u64)
    ensures
        codec::enc_bytes(b).len() == codec::varint(b.len()).len() + b.len(),
        codec::enc_bytes(b).skip(codec::varint(b.len()).len() as int) == b,
        codec::enc_bool(true) == seq![1u8],
        codec::enc_bool(false) == seq![0u8],
        codec::enc_opt(None) == seq![0u8],
        codec::enc_opt(Some(n))[0] == 1 && codec::enc_opt(Some(n)).skip(1) == codec::varint(
            n as nat,
        ),
{
    assert(codec::enc_bytes(b).skip(codec::varint(b.len()).len() as int) =~= b);
    assert(codec::enc_opt(Some(n)).skip(1) =~= codec::varint(n as nat));
    assert(codec::enc_bool(true) =~= seq![1u8]);
    assert(codec::enc_bool(false) =~= seq![0u8]);
}

/// Padding keeps the bytes in front and puts nothing but zeros behind them.
pub proof fn padding_is_zeros(s: Seq<u8>, n: nat, i: int)
    ensures
        codec::padded(s, n).len() == if s.len() < n {
            n
        } else {
            s.len()
        },
        codec::padded(s, n).take(s.len() as int) == s,
        s.len() <= i < codec::padded(s, n).len() ==> codec::padded(s, n)[i] == 0,
{
    assert(codec::padded(s, n).take(s.len() as int) =~= s);
}

/// A key begins with what kind it is of: 0 for a number, 1 for bytes.
pub proof fn keys_are_tagged(k: Key)
    ensures
        tuple::enc_key(k)[0] == if k is Int {
            0u8
        } else {
            1u8
        },
        k matches Key::Int(n) ==> tuple::enc_key(k).skip(1) == codec::varint(n as nat),
        k matches Key::Bytes(b) ==> tuple::enc_key(k).skip(1) == codec::enc_bytes(b),
{
    short_numbers_take_one_byte(0);
    short_numbers_take_one_byte(1);
    match k {
        Key::Int(n) => {
            assert(tuple::enc_key(k).skip(1) =~= codec::varint(n as nat));
        },
        Key::Bytes(b) => {
            assert(tuple::enc_key(k).skip(1) =~= codec::enc_bytes(b));
        },
    }
}

/// A record begins with its number, and behind that with the tag of its kind.
pub proof fn records_are_tagged(e: Entry)
    ensures
        ({
            let n = codec::varint(e.lsn.0 as nat);
            let s = operation::enc_entry(e);
            &&& s.len() > n.len()
            &&& s.take(n.len() as int) == n
            &&& s[n.len() as int] == match e.op {
                Op::Add { .. } => 0u8,
                Op::Mod { .. } => 1u8,
                Op::Del { .. } => 2u8,
                Op::Commit(_) => 3u8,
                Op::Rollback(_) => 4u8,
                Op::Sequence { .. } => 5u8,
                Op::Purge { .. } => 6u8,
            }
        }),
{
    reveal(operation::enc_entry);
    let n = codec::varint(e.lsn.0 as nat);
    assert(operation::enc_entry(e).take(n.len() as int) =~= n);
    assert(operation::enc_entry(e)[n.len() as int] == operation::enc_op(e.op)[0]);
}

/// The parts of a row stand in the order key, writer, record before, contents,
/// deletion mark.
pub proof fn row_parts_are_in_order(r: Row)
    ensures
        ({
            let s = tuple::enc_row(r);
            let k = tuple::enc_key(r.id);
            let w = codec::enc_opt(
                match r.txn_id {
                    Some(x) => Some(x.0),
                    None => None,
                },
            );
            let l = codec::enc_opt(
                match r.pre_lsn {
                    Some(x) => Some(x.0),
                    None => None,
                },
            );
            let d = codec::enc_bytes(r.data);
            s == k + w + l + d + seq![
                if r.tombstone {
                    1u8
                } else {
                    0u8
                },
            ]
        }),
{
    let s = tuple::enc_row(r);
    let k = tuple::enc_key(r.id);
    let w = codec::enc_opt(tuple::txn_num(r.txn_id));
    let l = codec::enc_opt(tuple::lsn_num(r.pre_lsn));
    let d = codec::enc_bytes(r.data);
    assert(s =~= k + w + l + d + codec::enc_bool(r.tombstone));
}

/// A frame is the length of its payload, its checksum and the payload; it is
/// whole where all of that is there, and good where the checksum is that of the
/// payload.
pub proof fn frames_are_measured_and_summed(payload: Seq<u8>)
    requires
        payload.len() < 0x1_0000_0000,
    ensures
        framing::frame(payload).len() == payload.len() + 8,
        codec::le_value(framing::frame(payload).take(4)) == payload.len(),
        codec::le_value(framing::frame(payload).subrange(4, 8)) == hash::fnv1a(payload),
        framing::frame(payload).skip(8) == payload,
{
    codec::le_limits();
    let a = codec::le_bytes(payload.len(), 4);
    let b = codec::le_bytes(hash::fnv1a(payload) as nat, 4);
    codec::le_bytes_len(payload.len(), 4);
    codec::le_bytes_len(hash::fnv1a(payload) as nat, 4);
    codec::le_round_trip(payload.len(), 4);
    codec::le_round_trip(hash::fnv1a(payload) as nat, 4);
    assert(framing::frame(payload).take(4) =~= a);
    assert(framing::frame(payload).subrange(4, 8) =~= b);
    assert(framing::frame(payload).skip(8) =~= payload);
}

/// A log file begins with four bytes that say what it is, its version and its
/// page size, in fourteen bytes; a data file with two bytes and its version.
pub proof fn files_begin_with_what_they_are(page_size: u64, h: Header)
    requires
        h.magic == MAGIC,
        h.format_version == 4,
    ensures
        LOG_MAGIC@ == seq![0x53u8, 0x71, 0x57, 0x4c],
        CURRENT_LOG_VERSION == 2,
        framing::enc_log_header(wal::header_of(page_size)).len() == 14,
        framing::enc_log_header(wal::header_of(page_size)).take(6) == seq![
            0x53u8,
            0x71,
            0x57,
            0x4c,
            2,
            0,
        ],
        codec::le_value(framing::enc_log_header(wal::header_of(page_size)).skip(6)) == page_size,
        header::enc_header(h).take(6) == seq![0x53u8, 0x65, 4, 0, 0, 0],
{
    codec::le_limits();
    let m = LOG_MAGIC@;
    let v = codec::le_bytes(2, 2);
    let n = codec::le_bytes(page_size as nat, 8);
    codec::le_bytes_len(2, 2);
    codec::le_bytes_len(page_size as nat, 8);
    codec::le_round_trip(page_size as nat, 8);
    reveal_with_fuel(codec::le_bytes, 5);
    assert(v =~= seq![2u8, 0]);
    let s = framing::enc_log_header(wal::header_of(page_size));
    assert(m =~= seq![0x53u8, 0x71, 0x57, 0x4c]);
    assert(s.take(6) =~= seq![0x53u8, 0x71, 0x57, 0x4c, 2, 0]);
    assert(s.skip(6) =~= n);
    let w = codec::le_bytes(4, 4);
    assert(w =~= seq![4u8, 0, 0, 0]);
    assert(MAGIC@ =~= seq![0x53u8, 0x65]);
    assert(header::enc_header(h).take(6) =~= seq![0x53u8, 0x65, 4, 0, 0, 0]);
}

/// A header's block is eighty bytes: the header with zeros behind it.
pub proof fn header_blocks_are_of_one_size(h: Header)
    ensures
        header::enc_header(h).len() <= 80 ==> header::block(h).len() == 80,
        header::block(h).take(header::enc_header(h).len() as int) == header::enc_header(h),
{
    padding_is_zeros(header::enc_header(h), 80, 0);
}

/// The flags of a page each have a bit of their own.
pub proof fn page_flags_are_bits()
    ensures
        PINNED == 1,
        INDEX_PAGE == 2,
        HAS_OVERFLOW == 4,
        IS_OVERFLOW == 8,
{
}

/// A page's header begins with the page behind it, the room and what is used of
/// it, in eight bytes each.
pub proof fn page_headers_begin_alike(h: Head)
    ensures
        page::enc_head(h).len() >= 24,
        codec::le_value(page::enc_head(h).take(8)) == h.next_page,
        codec::le_value(page::enc_head(h).subrange(8, 16)) == h.page_data_size,
        codec::le_value(page::enc_head(h).subrange(16, 24)) == h.page_used_size,
{
    codec::le_limits();
    let a = codec::le_bytes(h.next_page as nat, 8);
    let b = codec::le_bytes(h.page_data_size as nat, 8);
    let c = codec::le_bytes(h.page_used_size as nat, 8);
    codec::le_bytes_len(h.next_page as nat, 8);
    codec::le_bytes_len(h.page_data_size as nat, 8);
    codec::le_bytes_len(h.page_used_size as nat, 8);
    codec::le_round_trip(h.next_page as nat, 8);
    codec::le_round_trip(h.page_data_size as nat, 8);
    codec::le_round_trip(h.page_used_size as nat, 8);
    assert(page::enc_head(h).take(8) =~= a);
    assert(page::enc_head(h).subrange(8, 16) =~= b);
    assert(page::enc_head(h).subrange(16, 24) =~= c);
}

/// A table's entry in the catalog begins with its number and its name.
pub proof fn table_entries_begin_with_number_and_name(t: Tab)
    ensures
        ({
            let n = codec::varint(t.id.0 as nat);
            let m = codec::enc_text(t.name);
            let s = table::enc_table(t);
            &&& s.take(n.len() as int) == n
            &&& s.subrange(n.len() as int, (n.len() + m.len()) as int) == m
        }),
{
    let n = codec::varint(t.id.0 as nat);
    let m = codec::enc_text(t.name);
    assert(table::enc_table(t).take(n.len() as int) =~= n);
    assert(table::enc_table(t).subrange(n.len() as int, (n.len() + m.len()) as int) =~= m);
}

/// A segment of the log is named after its database, with ".wal." and its
/// number behind that; different numbers give different names.
pub proof fn segments_are_named_by_number(name: Seq<char>, m: u64, n: u64)
    ensures
        text::starts_with(segment::path_text(name, n), name),
        segment::path_text(name, n).skip(name.len() as int) == ".wal."@ + text::decimal(n as nat),
        segment::path_text(name, m) == segment::path_text(name, n) ==> m == n,
{
    let s = segment::path_text(name, n);
    let t = segment::path_text(name, m);
    assert(s.take(name.len() as int) =~= name);
    assert(s.skip(name.len() as int) =~= ".wal."@ + text::decimal(n as nat));
    if s == t {
        segment::path_gives_number(name, m);
        segment::path_gives_number(name, n);
    }
}

// ---------------------------------------------------------------------------
// What is refused
// ---------------------------------------------------------------------------

/// A number that is too large for where it goes is refused.
proof fn too_large_is_refused(n: nat, rest: Seq<u8>, max: nat, top: nat)
    requires
        1 <= max,
        top < 128,
        n >= codec::varint_limit(max, top),
    ensures
        codec::take_varint(codec::varint(n) + rest, max, top) is Err,
    decreases max,
{
    let s = codec::varint(n) + rest;
    if n >= 128 {
        assert(s.skip(1) =~= codec::varint(n / 128) + rest);
        if max > 1 {
            too_large_is_refused(n / 128, rest, (max - 1) as nat, top);
        }
    } else if max > 1 {
        limit_is_wide(max, top);
    }
}

/// More than one group holds every number of one byte.
proof fn limit_is_wide(max: nat, top: nat)
    requires
        max > 1,
    ensures
        codec::varint_limit(max, top) >= 128,
    decreases max,
{
    if max > 2 {
        limit_is_wide((max - 1) as nat, top);
    } else {
        assert(codec::varint_limit(1, top) == top + 1);
    }
}

/// Reading a number gives back what was written where it fits, and an error
/// where it does not: numbers of 16, 32 and 64 bits have just those bits.
pub proof fn numbers_are_read_within_their_width(n: nat, rest: Seq<u8>)
    ensures
        codec::take_u16_spec(codec::varint(n) + rest) is Ok <==> n < 0x1_0000,
        codec::take_u32_spec(codec::varint(n) + rest) is Ok <==> n < 0x1_0000_0000,
        codec::take_u64_spec(codec::varint(n) + rest) is Ok <==> n < 0x1_0000_0000_0000_0000,
        n < 0x1_0000_0000_0000_0000 ==> codec::take_u64_spec(codec::varint(n) + rest) == Ok::<
            (u64, Seq<u8>),
            CodecError,
        >((n as u64, rest)),
{
    codec::varint_limits();
    if n < 0x1_0000 {
        codec::varint_round_trip(n, rest, 3, 3);
    } else {
        too_large_is_refused(n, rest, 3, 3);
    }
    if n < 0x1_0000_0000 {
        codec::varint_round_trip(n, rest, 5, 15);
    } else {
        too_large_is_refused(n, rest, 5, 15);
    }
    if n < 0x1_0000_0000_0000_0000 {
        codec::varint_round_trip(n, rest, 10, 1);
    } else {
        too_large_is_refused(n, rest, 10, 1);
    }
}

/// Where bytes run out, or a byte is none that is ever written there, reading
/// fails: a truth value and the mark of an optional value are 0 or 1, and the
/// tag of an operation is at most 6.
pub proof fn unknown_bytes_are_refused(s: Seq<u8>, n: nat)
    ensures
        codec::take_n_spec(s, n) is Ok <==> n <= s.len(),
        n <= s.len() ==> codec::take_n_spec(s, n) == Ok::<(Seq<u8>, Seq<u8>), CodecError>(
            (s.take(n as int), s.skip(n as int)),
        ),
        codec::take_bool_spec(s) is Ok <==> s.len() > 0 && s[0] <= 1,
        s.len() > 0 && s[0] <= 1 ==> codec::take_bool_spec(s) == Ok::<
            (bool, Seq<u8>),
            CodecError,
        >((s[0] == 1, s.skip(1))),
        codec::take_opt_spec(s) is Ok ==> s.len() > 0 && s[0] <= 1,
        codec::take_opt_spec(s) matches Ok((v, _)) ==> (v is Some <==> s[0] == 1),
        operation::take_op_spec(s) is Ok ==> s.len() > 0 && s[0] <= 6,
        operation::take_op_spec(s) matches Ok((op, _)) ==> s[0] == operation::enc_op(op)[0],
        tuple::take_key_spec(s) matches Ok((k, _)) ==> (k is Int || k is Bytes) && s.len() > 0,
        s.len() > 0 && 2 <= s[0] < 128 ==> tuple::take_key_spec(s) is Err,
        s.len() == 0 ==> codec::take_u64_spec(s) is Err && tuple::take_key_spec(s) is Err,
{
}

} // verus!

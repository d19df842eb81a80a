//! The log on disk: a header, then framed records; and the recovery scan.
use vstd::prelude::*;
use vstd::slice::slice_subrange;
use vstd::string::*;

use crate::codec;
use crate::codec::{get_le, put_le, put_raw};
use crate::error::{Fault, StoreError};
use crate::hash;
use crate::hash::fnv1a_32;
use crate::operation;
use crate::operation::{Entry, LogRecord};
use crate::text;
use crate::text::{push_byte_list, push_decimal, push_hex};

verus! {

// ---------------------------------------------------------------------------
// The header of a log file
// ---------------------------------------------------------------------------

/// The first bytes of a log file: "SqWL".
pub const LOG_MAGIC: [u8; 4] = [0x53, 0x71, 0x57, 0x4c];

/// The version of the log's format; a log is only read when it matches.
pub const CURRENT_LOG_VERSION: u16 = 2;

/// What a log file begins with.
#[derive(Clone, Copy, Debug, PartialEq)]
pub struct LogHeader {
    pub magic: [u8; 4],
    pub version: u16,
    pub page_size: u64,
}

/// A log header's bytes: magic, version, page size, each of fixed width.
pub open spec fn enc_log_header(h: LogHeader) -> Seq<u8> {
    h.magic@ + codec::le_bytes(h.version as nat, 2) + codec::le_bytes(h.page_size as nat, 8)
}

/// The length of a log header.
pub open spec fn log_header_len() -> nat {
    14
}

/// The header's magic in `s`.
pub open spec fn header_magic(s: Seq<u8>) -> Seq<u8> {
    s.subrange(0, 4)
}

/// The header's version in `s`.
pub open spec fn header_version(s: Seq<u8>) -> nat {
    codec::le_value(s.subrange(4, 6))
}

/// The header's page size in `s`.
pub open spec fn header_page_size(s: Seq<u8>) -> nat {
    codec::le_value(s.subrange(6, 14))
}

/// Every log header has the same length, and its fields read back.
pub proof fn log_header_round_trip(h: LogHeader, rest: Seq<u8>)
    ensures
        enc_log_header(h).len() == log_header_len(),
        header_magic(enc_log_header(h) + rest) == h.magic@,
        header_version(enc_log_header(h) + rest) == h.version,
        header_page_size(enc_log_header(h) + rest) == h.page_size,
{
    let v = codec::le_bytes(h.version as nat, 2);
    let p = codec::le_bytes(h.page_size as nat, 8);
    codec::le_bytes_len(h.version as nat, 2);
    codec::le_bytes_len(h.page_size as nat, 8);
    codec::le_limits();
    codec::le_round_trip(h.version as nat, 2);
    codec::le_round_trip(h.page_size as nat, 8);
    let s = enc_log_header(h) + rest;
    assert(s.subrange(0, 4) =~= h.magic@);
    assert(s.subrange(4, 6) =~= v);
    assert(s.subrange(6, 14) =~= p);
}

impl LogHeader {
    /// The length of every log header.
    pub fn encoded_len() -> (n: usize)
        ensures
            n == log_header_len(),
    {
        14
    }

    /// The header's bytes.
    pub fn to_bytes(&self) -> (out: Vec<u8>)
        ensures
            out@ == enc_log_header(*self),
            out@.len() == log_header_len(),
    {
        let mut out: Vec<u8> = Vec::new();
        put_raw(&mut out, &self.magic);
        put_le(&mut out, self.version as u128, 2);
        put_le(&mut out, self.page_size as u128, 8);
        proof {
            log_header_round_trip(*self, seq![]);
            assert(out@ =~= enc_log_header(*self));
        }
        out
    }
}

/// Byte length of the header of a log file: where its records begin.
pub fn header_len() -> (n: usize)
    ensures
        n == log_header_len(),
{
    LogHeader::encoded_len()
}

/// What is wrong with a header, as far as one field goes; empty if nothing.
pub open spec fn magic_problem(s: Seq<u8>) -> Seq<char> {
    if header_magic(s) == LOG_MAGIC@ {
        seq![]
    } else {
        "magic "@ + text::byte_list(header_magic(s)) + " != expected "@ + text::byte_list(
            LOG_MAGIC@,
        ) + " — this file is not a squeal_db WAL"@
    }
}

/// What is wrong with a header's version; empty if nothing.
pub open spec fn version_problem(s: Seq<u8>) -> Seq<char> {
    if header_version(s) == CURRENT_LOG_VERSION {
        seq![]
    } else {
        "WAL format version "@ + text::decimal(header_version(s)) + " != this build's version "@
            + text::decimal(CURRENT_LOG_VERSION as nat)
    }
}

/// What is wrong with a header's page size; empty if nothing.
pub open spec fn page_size_problem(s: Seq<u8>, expected: u64) -> Seq<char> {
    if header_page_size(s) == expected {
        seq![]
    } else {
        "page_size "@ + text::decimal(header_page_size(s))
            + " != the paired database file's page_size "@ + text::decimal(expected as nat)
    }
}

/// Two messages in one, with a semicolon between where both say something.
pub open spec fn join_problems(a: Seq<char>, b: Seq<char>) -> Seq<char> {
    if a.len() == 0 {
        b
    } else if b.len() == 0 {
        a
    } else {
        a + "; "@ + b
    }
}

/// Everything that is wrong with the header `s`; empty if nothing.
pub open spec fn header_problems(s: Seq<u8>, expected: u64) -> Seq<char> {
    join_problems(
        join_problems(magic_problem(s), version_problem(s)),
        page_size_problem(s, expected),
    )
}

/// Is `s` the header of a log in this format, for pages of that size?
pub open spec fn header_matches(s: Seq<u8>, expected: u64) -> bool {
    header_magic(s) == LOG_MAGIC@ && header_version(s) == CURRENT_LOG_VERSION
        && header_page_size(s) == expected
}

/// Appends `b` to `a`, behind a semicolon where both say something.
fn add_problem(a: &mut String, b: &String)
    ensures
        final(a)@ == join_problems(old(a)@, b@),
{
    if b.as_str().is_empty() {
        assert(b@ =~= seq![]);
        if a.as_str().is_empty() {
            assert(a@ =~= b@);
        }
    } else if a.as_str().is_empty() {
        a.append(b.as_str());
        assert(a@ =~= b@);
    } else {
        a.append("; ");
        a.append(b.as_str());
    }
}

/// A header that matches has no problems, and one that does not has some.
pub proof fn problems_tell(s: Seq<u8>, expected: u64)
    ensures
        header_matches(s, expected) <==> header_problems(s, expected).len() == 0,
{
    reveal_strlit("magic ");
    reveal_strlit("WAL format version ");
    reveal_strlit("page_size ");
}

/// Checks the bytes of a log file's header against the page size of the
/// database it is paired with. All the fields that disagree are named at once.
pub fn validate_log_header(bytes: &[u8], expected_page_size: u64) -> (r: Result<(), StoreError>)
    requires
        bytes@.len() == log_header_len(),
    ensures
        match r {
            Ok(()) => header_matches(bytes@, expected_page_size),
            Err(e) => !header_matches(bytes@, expected_page_size) && e@
                == Fault::LogHeaderMismatch(header_problems(bytes@, expected_page_size)),
        },
{
    proof {
        codec::le_limits();
        problems_tell(bytes@, expected_page_size);
    }
    let magic = slice_subrange(bytes, 0, 4);
    let version: u64 = get_le(slice_subrange(bytes, 4, 6)) as u64;
    let page_size: u64 = get_le(slice_subrange(bytes, 6, 14)) as u64;
    let mut problems = String::new();
    let mut a = String::new();
    if !crate::tuple::same_bytes(magic, &LOG_MAGIC) {
        a = "magic ".to_owned();
        push_byte_list(&mut a, magic);
        a.append(" != expected ");
        push_byte_list(&mut a, &LOG_MAGIC);
        a.append(" — this file is not a squeal_db WAL");
    }
    assert(a@ == magic_problem(bytes@));
    add_problem(&mut problems, &a);
    let mut b = String::new();
    if version != CURRENT_LOG_VERSION as u64 {
        b = "WAL format version ".to_owned();
        push_decimal(&mut b, version);
        b.append(" != this build's version ");
        push_decimal(&mut b, CURRENT_LOG_VERSION as u64);
    }
    assert(b@ == version_problem(bytes@));
    add_problem(&mut problems, &b);
    let mut c = String::new();
    if page_size != expected_page_size {
        c = "page_size ".to_owned();
        push_decimal(&mut c, page_size);
        c.append(" != the paired database file's page_size ");
        push_decimal(&mut c, expected_page_size);
    }
    assert(c@ == page_size_problem(bytes@, expected_page_size));
    add_problem(&mut problems, &c);
    if problems.as_str().is_empty() {
        Ok(())
    } else {
        Err(StoreError::LogHeaderMismatch(problems))
    }
}

// ---------------------------------------------------------------------------
// Frames
// ---------------------------------------------------------------------------

/// The length of a frame's own header.
pub const FRAME_HEADER_LEN: usize = 8;

/// A frame: the payload's length and checksum, then the payload.
pub open spec fn frame(payload: Seq<u8>) -> Seq<u8> {
    codec::le_bytes(payload.len(), 4) + codec::le_bytes(hash::fnv1a(payload) as nat, 4) + payload
}

/// The length that the frame at the front of `s` claims for its payload.
pub open spec fn frame_len(s: Seq<u8>) -> nat {
    codec::le_value(s.subrange(0, 4))
}

/// The checksum that the frame at the front of `s` carries.
pub open spec fn frame_sum(s: Seq<u8>) -> nat {
    codec::le_value(s.subrange(4, 8))
}

/// Is the frame at the front of `s` there to its end?
pub open spec fn has_frame(s: Seq<u8>) -> bool {
    s.len() >= 8 && s.len() - 8 >= frame_len(s)
}

/// The payload of the frame at the front of `s`.
pub open spec fn frame_payload(s: Seq<u8>) -> Seq<u8> {
    s.subrange(8, 8 + frame_len(s) as int)
}

/// Is the frame at the front of `s` complete, and does its checksum hold?
pub open spec fn frame_ok(s: Seq<u8>) -> bool {
    has_frame(s) && hash::fnv1a(frame_payload(s)) == frame_sum(s)
}

/// What follows the frame at the front of `s`.
pub open spec fn after_frame(s: Seq<u8>) -> Seq<u8> {
    s.skip(8 + frame_len(s) as int)
}

/// A frame that was written reads back, whatever follows it.
pub proof fn frame_round_trip(payload: Seq<u8>, rest: Seq<u8>)
    requires
        payload.len() < 0x1_0000_0000,
    ensures
        frame(payload).len() == 8 + payload.len(),
        frame_ok(frame(payload) + rest),
        frame_len(frame(payload) + rest) == payload.len(),
        frame_payload(frame(payload) + rest) == payload,
        after_frame(frame(payload) + rest) == rest,
{
    let a = codec::le_bytes(payload.len(), 4);
    let b = codec::le_bytes(hash::fnv1a(payload) as nat, 4);
    codec::le_bytes_len(payload.len(), 4);
    codec::le_bytes_len(hash::fnv1a(payload) as nat, 4);
    codec::le_limits();
    codec::le_round_trip(payload.len(), 4);
    codec::le_round_trip(hash::fnv1a(payload) as nat, 4);
    let s = frame(payload) + rest;
    assert(s.subrange(0, 4) =~= a);
    assert(s.subrange(4, 8) =~= b);
    assert(frame_payload(s) =~= payload);
    assert(after_frame(s) =~= rest);
}

/// Frames a payload for the log. The frame keeps the low 32 bits of the
/// length, so only a payload below 4 GiB reads back.
pub fn frame_record(payload: &[u8]) -> (out: Vec<u8>)
    ensures
        out@ == frame(payload@),
{
    let checksum: u32 = fnv1a_32(payload);
    let mut out: Vec<u8> = Vec::new();
    put_le(&mut out, payload.len() as u128, 4);
    put_le(&mut out, checksum as u128, 4);
    put_raw(&mut out, payload);
    assert(out@ =~= frame(payload@));
    out
}

/// Reads the frame header at `pos`: the payload's length and checksum.
fn frame_header(buf: &[u8], pos: usize) -> (r: (u64, u32))
    requires
        pos + 8 <= buf@.len(),
    ensures
        r.0 == frame_len(buf@.skip(pos as int)),
        r.1 == frame_sum(buf@.skip(pos as int)),
        r.0 < 0x1_0000_0000,
{
    proof {
        codec::le_limits();
        assert(buf@.skip(pos as int).subrange(0, 4) =~= buf@.subrange(pos as int, pos + 4));
        assert(buf@.skip(pos as int).subrange(4, 8) =~= buf@.subrange(pos + 4, pos + 8));
    }
    let _n: usize = buf.len();
    let len: u64 = get_le(slice_subrange(buf, pos, pos + 4)) as u64;
    let sum: u32 = get_le(slice_subrange(buf, pos + 4, pos + 8)) as u32;
    (len, sum)
}

/// Does `buf[pos..]` begin with a complete frame whose checksum holds?
pub fn frame_is_complete_and_valid(buf: &[u8], pos: usize) -> (r: bool)
    requires
        pos <= buf@.len(),
    ensures
        r == frame_ok(buf@.skip(pos as int)),
{
    let ghost s = buf@.skip(pos as int);
    if buf.len() - pos < FRAME_HEADER_LEN {
        return false;
    }
    let (len, sum) = frame_header(buf, pos);
    if ((buf.len() - pos - FRAME_HEADER_LEN) as u64) < len {
        return false;
    }
    let start: usize = pos + FRAME_HEADER_LEN;
    assert(buf@.subrange(start as int, start + len) =~= frame_payload(s));
    fnv1a_32(slice_subrange(buf, start, start + len as usize)) == sum
}

// ---------------------------------------------------------------------------
// The recovery scan
// ---------------------------------------------------------------------------

/// The records that a scan found.
#[derive(Debug)]
pub struct ScannedLog {
    pub records: Vec<LogRecord>,
}

/// The message for a checksum that fails in the middle of a log.
pub open spec fn corruption_text(offset: nat, stored: nat, computed: nat) -> Seq<char> {
    "checksum mismatch at byte offset "@ + text::decimal(offset) + " (stored "@ + text::hex(stored)
        + ", computed "@ + text::hex(computed)
        + ") — a complete, valid record follows it, so this is not a torn tail from an in-progress write; the log is corrupted"@
}

/// Puts `front` before what a scan found.
pub open spec fn prepend(front: Seq<Entry>, found: Result<Seq<Entry>, Fault>) -> Result<
    Seq<Entry>,
    Fault,
> {
    match found {
        Ok(more) => Ok(front + more),
        Err(e) => Err(e),
    }
}

/// What the recovery scan makes of the frames in `s`, which lie at `offset`.
///
/// A frame that is cut short ends the scan: it was never fully written. So
/// does a frame whose checksum fails, unless a complete and valid frame comes
/// right after it, which no interrupted write could leave: that is corruption.
pub open spec fn scan(s: Seq<u8>, offset: nat) -> Result<Seq<Entry>, Fault>
    decreases s.len(),
{
    if !has_frame(s) {
        Ok(seq![])
    } else if !frame_ok(s) {
        if frame_ok(after_frame(s)) {
            Err(
                Fault::LogCorruption(
                    corruption_text(
                        offset,
                        frame_sum(s),
                        hash::fnv1a(frame_payload(s)) as nat,
                    ),
                ),
            )
        } else {
            Ok(seq![])
        }
    } else {
        match operation::take_entry_spec(frame_payload(s)) {
            Err(e) => Err(Fault::Serialization(e)),
            Ok((entry, _)) => prepend(
                seq![entry],
                scan(after_frame(s), offset + 8 + frame_len(s)),
            ),
        }
    }
}

/// The scan's result, as its specification gives it.
pub open spec fn scanned(r: Result<ScannedLog, StoreError>, want: Result<Seq<Entry>, Fault>) -> bool {
    match (r, want) {
        (Ok(log), Ok(found)) => operation::entries(log.records@) == found,
        (Err(e), Err(f)) => e@ == f,
        _ => false,
    }
}

/// The message for a checksum that fails in the middle of a log.
fn corruption_message(offset: u64, stored: u64, computed: u64) -> (out: String)
    ensures
        out@ == corruption_text(offset as nat, stored as nat, computed as nat),
{
    let mut out = "checksum mismatch at byte offset ".to_owned();
    push_decimal(&mut out, offset);
    out.append(" (stored ");
    push_hex(&mut out, stored);
    out.append(", computed ");
    push_hex(&mut out, computed);
    out.append(
        ") — a complete, valid record follows it, so this is not a torn tail from an in-progress write; the log is corrupted",
    );
    out
}

/// Scans framed records (what follows the header of a log file) and returns
/// those that were durably written.
pub fn scan_log(buf: &[u8]) -> (r: Result<ScannedLog, StoreError>)
    ensures
        scanned(r, scan(buf@, 0)),
{
    let mut records: Vec<LogRecord> = Vec::new();
    let mut pos: usize = 0;
    let ghost mut rest = buf@;
    proof {
        assert(operation::entries(records@) =~= seq![]);
        assert(buf@.skip(0) =~= buf@);
        match scan(buf@, 0) {
            Ok(more) => {
                assert(Seq::<Entry>::empty() + more =~= more);
            },
            Err(e) => {},
        }
    }
    loop
        invariant
            pos <= buf@.len(),
            rest == buf@.skip(pos as int),
            scan(buf@, 0) == prepend(operation::entries(records@), scan(rest, pos as nat)),
        decreases buf@.len() - pos,
    {
        if buf.len() - pos < FRAME_HEADER_LEN {
            assert(operation::entries(records@) + seq![] =~= operation::entries(records@));
            return Ok(ScannedLog { records });
        }
        let (len, checksum) = frame_header(buf, pos);
        let start: usize = pos + FRAME_HEADER_LEN;
        if ((buf.len() - start) as u64) < len {
            assert(operation::entries(records@) + seq![] =~= operation::entries(records@));
            return Ok(ScannedLog { records });
        }
        let payload = slice_subrange(buf, start, start + len as usize);
        assert(payload@ =~= frame_payload(rest));
        let actual: u32 = fnv1a_32(payload);
        let next: usize = start + len as usize;
        assert(buf@.skip(next as int) =~= after_frame(rest));
        if actual != checksum {
            if frame_is_complete_and_valid(buf, next) {
                return Err(
                    StoreError::LogCorruption(
                        corruption_message(pos as u64, checksum as u64, actual as u64),
                    ),
                );
            }
            assert(operation::entries(records@) + seq![] =~= operation::entries(records@));
            return Ok(ScannedLog { records });
        }
        match LogRecord::from_bytes(payload) {
            Err(e) => {
                return Err(e);
            },
            Ok(record) => {
                proof {
                    let before = operation::entries(records@);
                    let entry = record@;
                    assert(operation::entries(records@.push(record)) =~= before + seq![entry]);
                    match scan(after_frame(rest), (pos + 8 + frame_len(rest)) as nat) {
                        Ok(more) => {
                            assert(before + (seq![entry] + more) =~= (before + seq![entry]) + more);
                        },
                        Err(e) => {},
                    }
                }
                records.push(record);
            },
        }
        pos = next;
        proof {
            rest = buf@.skip(pos as int);
        }
    }
}

/// How many bytes at the end of `s` are not part of a complete, valid frame.
pub open spec fn trailing(s: Seq<u8>) -> nat
    decreases s.len(),
{
    if !frame_ok(s) {
        s.len()
    } else {
        trailing(after_frame(s))
    }
}

/// How many bytes at the end of `body` are not part of a complete, valid
/// frame: the torn tail, if any.
pub fn trailing_unscanned_bytes(body: &[u8]) -> (n: usize)
    ensures
        n == trailing(body@),
{
    let mut pos: usize = 0;
    assert(body@.skip(0) =~= body@);
    while frame_is_complete_and_valid(body, pos)
        invariant
            pos <= body@.len(),
            trailing(body@) == trailing(body@.skip(pos as int)),
        decreases body@.len() - pos,
    {
        let ghost s = body@.skip(pos as int);
        let _n: usize = body.len();
        let (len, _sum) = frame_header(body, pos);
        assert(body@.skip(pos + 8 + len) =~= after_frame(s));
        pos = pos + FRAME_HEADER_LEN + len as usize;
    }
    body.len() - pos
}

// ---------------------------------------------------------------------------
// Laws of the scan
// ---------------------------------------------------------------------------

/// The bytes that logging these records leaves.
pub open spec fn log_bytes(es: Seq<Entry>) -> Seq<u8>
    decreases es.len(),
{
    if es.len() == 0 {
        seq![]
    } else {
        frame(operation::enc_entry(es[0])) + log_bytes(es.skip(1))
    }
}

/// Can the record be framed? Its lengths have to fit their encodings.
pub open spec fn entry_fits(e: Entry) -> bool {
    operation::op_fits(e.op) && operation::enc_entry(e).len() < 0x1_0000_0000
}

/// Is `tail` what an interrupted write may leave: a frame cut short, or one
/// whose checksum fails with no valid frame behind it?
pub open spec fn torn(tail: Seq<u8>) -> bool {
    !has_frame(tail) || (!frame_ok(tail) && !frame_ok(after_frame(tail)))
}

/// A scan takes the record at the front and goes on behind it.
pub proof fn scan_takes_one(e: Entry, rest: Seq<u8>, offset: nat)
    requires
        entry_fits(e),
    ensures
        frame(operation::enc_entry(e)).len() == 8 + operation::enc_entry(e).len(),
        scan(frame(operation::enc_entry(e)) + rest, offset) == prepend(
            seq![e],
            scan(rest, offset + 8 + operation::enc_entry(e).len()),
        ),
{
    let payload = operation::enc_entry(e);
    frame_round_trip(payload, rest);
    operation::entry_round_trip(e, seq![]);
    assert(payload + seq![] =~= payload);
}

/// Everything that was written is recovered, and a torn tail behind it is
/// dropped without an error.
pub proof fn scan_recovers(es: Seq<Entry>, tail: Seq<u8>, offset: nat)
    requires
        forall|i: int| 0 <= i < es.len() ==> entry_fits(#[trigger] es[i]),
        torn(tail),
    ensures
        scan(log_bytes(es) + tail, offset) == Ok::<Seq<Entry>, Fault>(es),
    decreases es.len(),
{
    let s = log_bytes(es) + tail;
    if es.len() == 0 {
        assert(s =~= tail);
        assert(es =~= seq![]);
    } else {
        let payload = operation::enc_entry(es[0]);
        let rest = log_bytes(es.skip(1)) + tail;
        assert(entry_fits(es[0]));
        codec::regroup(frame(payload), log_bytes(es.skip(1)), tail);
        scan_takes_one(es[0], rest, offset);
        scan_recovers(es.skip(1), tail, offset + 8 + payload.len());
        assert(seq![es[0]] + es.skip(1) =~= es);
    }
}

/// A record whose checksum fails, with a valid record right behind it, is
/// reported as corruption and never dropped, however much was read before it.
pub proof fn scan_reports_corruption(es: Seq<Entry>, bad: Seq<u8>, offset: nat)
    requires
        forall|i: int| 0 <= i < es.len() ==> entry_fits(#[trigger] es[i]),
        has_frame(bad),
        !frame_ok(bad),
        frame_ok(after_frame(bad)),
    ensures
        scan(log_bytes(es) + bad, offset) matches Err(Fault::LogCorruption(_)),
    decreases es.len(),
{
    let s = log_bytes(es) + bad;
    if es.len() == 0 {
        assert(s =~= bad);
    } else {
        let payload = operation::enc_entry(es[0]);
        let rest = log_bytes(es.skip(1)) + bad;
        assert(entry_fits(es[0]));
        codec::regroup(frame(payload), log_bytes(es.skip(1)), bad);
        scan_takes_one(es[0], rest, offset);
        scan_reports_corruption(es.skip(1), bad, offset + 8 + payload.len());
    }
}

/// A log that is cut off at any byte gives back a prefix of its records: all
/// of those that lie before the cut, and nothing else.
pub proof fn scan_of_a_cut_log(es: Seq<Entry>, cut: nat, offset: nat) -> (k: nat)
    requires
        forall|i: int| 0 <= i < es.len() ==> entry_fits(#[trigger] es[i]),
        cut <= log_bytes(es).len(),
    ensures
        k <= es.len(),
        scan(log_bytes(es).take(cut as int), offset) == Ok::<Seq<Entry>, Fault>(
            es.take(k as int),
        ),
        log_bytes(es.take(k as int)).len() <= cut,
        k < es.len() ==> cut < log_bytes(es.take(k as int + 1)).len(),
    decreases es.len(),
{
    let s = log_bytes(es).take(cut as int);
    if es.len() == 0 {
        assert(es.take(0) =~= seq![]);
        0
    } else {
        let f = frame(operation::enc_entry(es[0]));
        let more = log_bytes(es.skip(1));
        assert(entry_fits(es[0]));
        scan_takes_one(es[0], more, offset);
        if cut < f.len() {
            assert(es.take(0) =~= seq![]);
            assert(es.take(1).skip(1) =~= seq![]);
            assert(log_bytes(es.take(1).skip(1)) =~= seq![]);
            assert(es.take(1)[0] == es[0]);
            assert(log_bytes(es.take(1)) =~= f);
            cut_frame(operation::enc_entry(es[0]), more, cut);
            0
        } else {
            let inner = scan_of_a_cut_log(
                es.skip(1),
                (cut - f.len()) as nat,
                offset + 8 + operation::enc_entry(es[0]).len(),
            );
            let tail = more.take(cut - f.len());
            assert(s =~= f + tail);
            scan_takes_one(es[0], tail, offset);
            let k = inner + 1;
            assert(es.take(k as int) =~= seq![es[0]] + es.skip(1).take(inner as int));
            assert(es.take(k as int).skip(1) =~= es.skip(1).take(inner as int));
            if k < es.len() {
                assert(es.take(k as int + 1).skip(1) =~= es.skip(1).take(inner as int + 1));
                assert(es.take(k as int + 1)[0] == es[0]);
            }
            k
        }
    }
}

/// A frame that is cut anywhere before its end is not complete.
proof fn cut_frame(payload: Seq<u8>, more: Seq<u8>, cut: nat)
    requires
        payload.len() < 0x1_0000_0000,
        cut < frame(payload).len(),
    ensures
        !has_frame((frame(payload) + more).take(cut as int)),
{
    frame_round_trip(payload, more);
    let whole = frame(payload) + more;
    if cut >= 8 {
        assert(whole.take(cut as int).subrange(0, 4) =~= whole.subrange(0, 4));
    }
}

/// A frame counts if and only if all of it is there, and only the first frame
/// does: whatever follows it changes nothing, and no part of it is enough.
pub proof fn only_whole_frames_count(payload: Seq<u8>, tail: Seq<u8>, k: int)
    requires
        payload.len() < 0x1_0000_0000,
        0 <= k < 8 + payload.len(),
    ensures
        frame_ok(frame(payload) + tail),
        !frame_ok(frame(payload).take(k)),
{
    frame_round_trip(payload, tail);
    frame_round_trip(payload, seq![]);
    assert(frame(payload) + Seq::<u8>::empty() =~= frame(payload));
    cut_frame(payload, seq![], k as nat);
}

} // verus!

//! A log file, described in words.
use vstd::prelude::*;
use vstd::slice::slice_subrange;
use vstd::string::*;

use crate::clock::LsnId;
use crate::codec;
use crate::codec::get_le;
use crate::error;
use crate::error::push_key;
use crate::framing;
use crate::framing::{
    scan_log, trailing_unscanned_bytes, LogHeader, CURRENT_LOG_VERSION, LOG_MAGIC,
};
use crate::mvcc;
use crate::operation;
use crate::operation::{Entry, LogRecord, Op, Operation};
use crate::page::PageId;
use crate::table::TableIdType;
use crate::text;
use crate::text::{push_byte_list, push_decimal};
use crate::tuple::{same_bytes, Key};
use crate::wal;

verus! {

/// An optional page, as it is printed.
pub open spec fn page_text(p: Option<PageId>) -> Seq<char> {
    match p {
        None => "None"@,
        Some(id) => "Some(PageId("@ + text::decimal(id.0 as nat) + "))"@,
    }
}

/// One record, as it is printed.
pub open spec fn entry_text(e: Entry) -> Seq<char> {
    let head = "lsn="@ + text::decimal(e.lsn.0 as nat);
    match e.op {
        Op::Add { txn, post } => head + " ADD    txn="@ + text::decimal(txn.0 as nat) + " table="@
            + text::decimal(post.table_id.0 as nat) + " key="@ + error::key_text(post.tuple.id)
            + " page="@ + page_text(post.data_page),
        Op::Mod { txn, pre, post } => head + " MOD    txn="@ + text::decimal(txn.0 as nat)
            + " table="@ + text::decimal(post.table_id.0 as nat) + " key="@ + error::key_text(
            post.tuple.id,
        ) + " pre_txn="@ + text::decimal(
            match pre.tuple.txn_id {
                Some(t) => t.0 as nat,
                None => 0,
            },
        ) + (if pre.tuple.tombstone {
            "(tombstone)"@
        } else {
            ""@
        }),
        Op::Del { txn, pre } => head + " DEL    txn="@ + text::decimal(txn.0 as nat) + " table="@
            + text::decimal(pre.table_id.0 as nat) + " key="@ + error::key_text(pre.tuple.id),
        Op::Commit(txn) => head + " COMMIT txn="@ + text::decimal(txn.0 as nat),
        Op::Rollback(txn) => head + " ABORT  txn="@ + text::decimal(txn.0 as nat),
        Op::Purge { txn, table_id, key } => head + " PURGE  txn="@ + text::decimal(txn.0 as nat)
            + " table="@ + text::decimal(table_id.0 as nat) + " key="@ + error::key_text(key),
        Op::Sequence { name, high_water, dropped } => head + " SEQ    "@ + name + " "@ + (
        if dropped {
            "dropped"@
        } else {
            "high_water="@ + text::decimal(high_water as nat)
        }),
    }
}

/// "ok" or "MISMATCH".
pub open spec fn verdict_text(ok: bool) -> Seq<char> {
    if ok {
        "ok"@
    } else {
        "MISMATCH"@
    }
}

/// A log file's header, as it is printed.
pub open spec fn header_text(s: Seq<u8>) -> Seq<char> {
    "LogHeader magic="@ + text::byte_list(framing::header_magic(s)) + " version="@ + text::decimal(
        framing::header_version(s),
    ) + " page_size="@ + text::decimal(framing::header_page_size(s)) + " (magic "@ + verdict_text(
        framing::header_magic(s) == LOG_MAGIC@,
    ) + ", version "@ + verdict_text(framing::header_version(s) == CURRENT_LOG_VERSION) + ")"@
}

/// The last line: how much was read and how much was left over.
pub open spec fn summary_text(records: nat, body: nat, left: nat) -> Seq<char> {
    text::decimal(records) + " record(s); "@ + text::decimal(body) + " byte(s) of record data; "@
        + text::decimal(left) + " trailing byte(s) not part of a complete record"@
}

/// The lines that describe a whole log file.
pub open spec fn wal_text(s: Seq<u8>) -> Seq<Seq<char>> {
    if s.len() < framing::log_header_len() {
        seq![
            "file is "@ + text::decimal(s.len()) + " byte(s), shorter than the "@ + text::decimal(
                framing::log_header_len(),
            ) + "-byte LogHeader"@,
        ]
    } else {
        let body = s.skip(framing::log_header_len() as int);
        match framing::scan(body, 0) {
            Err(f) => seq![header_text(s), "scan: "@ + error::fault_text(f)],
            Ok(es) => seq![header_text(s)] + es.map_values(|e: Entry| entry_text(e)) + seq![
                summary_text(es.len(), body.len(), framing::trailing(body)),
            ],
        }
    }
}

/// The lines, as contracts speak of them.
pub open spec fn lines(v: Seq<String>) -> Seq<Seq<char>> {
    v.map_values(|t: String| t@)
}

/// Appends an optional page, as it is printed.
fn push_page(out: &mut String, p: Option<PageId>)
    ensures
        final(out)@ == old(out)@ + page_text(p),
{
    match p {
        None => out.append("None"),
        Some(id) => {
            out.append("Some(PageId(");
            push_decimal(out, id.0);
            out.append("))");
            assert(out@ =~= old(out)@ + page_text(p));
        },
    }
}

/// One record, as it is printed.
fn describe_record(r: &LogRecord) -> (out: String)
    ensures
        out@ == entry_text(r@),
{
    let mut out = "lsn=".to_owned();
    push_decimal(&mut out, r.lsn.0);
    match &r.operation {
        Operation::Add { txn, post } => {
            out.append(" ADD    txn=");
            push_decimal(&mut out, txn.0);
            out.append(" table=");
            push_decimal(&mut out, post.table_id.0);
            out.append(" key=");
            push_key(&mut out, &post.tuple.id);
            out.append(" page=");
            push_page(&mut out, post.data_page);
        },
        Operation::Mod { txn, pre, post } => {
            out.append(" MOD    txn=");
            push_decimal(&mut out, txn.0);
            out.append(" table=");
            push_decimal(&mut out, post.table_id.0);
            out.append(" key=");
            push_key(&mut out, &post.tuple.id);
            out.append(" pre_txn=");
            let writer: u64 = match pre.tuple.txn_id {
                Some(t) => t.0,
                None => 0,
            };
            push_decimal(&mut out, writer);
            if pre.tuple.is_tombstoned() {
                out.append("(tombstone)");
            } else {
                out.append("");
            }
        },
        Operation::Del { txn, pre } => {
            out.append(" DEL    txn=");
            push_decimal(&mut out, txn.0);
            out.append(" table=");
            push_decimal(&mut out, pre.table_id.0);
            out.append(" key=");
            push_key(&mut out, &pre.tuple.id);
        },
        Operation::Commit(txn) => {
            out.append(" COMMIT txn=");
            push_decimal(&mut out, txn.0);
        },
        Operation::Rollback(txn) => {
            out.append(" ABORT  txn=");
            push_decimal(&mut out, txn.0);
        },
        Operation::Purge { txn, table_id, key } => {
            out.append(" PURGE  txn=");
            push_decimal(&mut out, txn.0);
            out.append(" table=");
            push_decimal(&mut out, table_id.0);
            out.append(" key=");
            push_key(&mut out, key);
        },
        Operation::Sequence { name, high_water, dropped } => {
            out.append(" SEQ    ");
            out.append(name.as_str());
            out.append(" ");
            if *dropped {
                out.append("dropped");
            } else {
                let ghost before = out@;
                out.append("high_water=");
                push_decimal(&mut out, *high_water);
                assert(out@ =~= before + ("high_water="@ + text::decimal(*high_water as nat)));
            }
        },
    }
    out
}

/// "ok" or "MISMATCH".
fn verdict(ok: bool) -> (t: &'static str)
    ensures
        t@ == verdict_text(ok),
{
    if ok {
        "ok"
    } else {
        "MISMATCH"
    }
}

/// The header of a log file, as it is printed.
fn describe_header(bytes: &[u8]) -> (out: String)
    requires
        bytes@.len() >= framing::log_header_len(),
    ensures
        out@ == header_text(bytes@),
{
    proof {
        codec::le_limits();
    }
    let magic = slice_subrange(bytes, 0, 4);
    let version: u64 = get_le(slice_subrange(bytes, 4, 6)) as u64;
    let page_size: u64 = get_le(slice_subrange(bytes, 6, 14)) as u64;
    let mut out = "LogHeader magic=".to_owned();
    push_byte_list(&mut out, magic);
    out.append(" version=");
    push_decimal(&mut out, version);
    out.append(" page_size=");
    push_decimal(&mut out, page_size);
    out.append(" (magic ");
    out.append(verdict(same_bytes(magic, &LOG_MAGIC)));
    out.append(", version ");
    out.append(verdict(version == CURRENT_LOG_VERSION as u64));
    out.append(")");
    out
}

/// A whole log file's bytes, header and all, described in one line for the
/// header, one for each record and one for what the scan made of it.
pub fn describe_wal(bytes: &[u8]) -> (out: Vec<String>)
    ensures
        lines(out@) == wal_text(bytes@),
{
    let mut out: Vec<String> = Vec::new();
    let header_len: usize = LogHeader::encoded_len();
    if bytes.len() < header_len {
        let mut line = "file is ".to_owned();
        push_decimal(&mut line, bytes.len() as u64);
        line.append(" byte(s), shorter than the ");
        push_decimal(&mut line, header_len as u64);
        line.append("-byte LogHeader");
        out.push(line);
        assert(lines(out@) =~= wal_text(bytes@));
        return out;
    }
    out.push(describe_header(bytes));
    let (_head, body) = bytes.split_at(header_len);
    assert(body@ =~= bytes@.skip(header_len as int));
    let log = match scan_log(body) {
        Ok(log) => log,
        Err(e) => {
            let mut line = "scan: ".to_owned();
            line.append(e.message().as_str());
            out.push(line);
            assert(lines(out@) =~= wal_text(bytes@));
            return out;
        },
    };
    let ghost es = operation::entries(log.records@);
    let ghost texts = es.map_values(|e: Entry| entry_text(e));
    assert(lines(out@) =~= seq![header_text(bytes@)] + texts.take(0));
    for i in 0..log.records.len()
        invariant
            es == operation::entries(log.records@),
            texts == es.map_values(|e: Entry| entry_text(e)),
            lines(out@) == seq![header_text(bytes@)] + texts.take(i as int),
    {
        let line = describe_record(&log.records[i]);
        let ghost before = out@;
        out.push(line);
        assert(lines(out@) =~= lines(before).push(line@));
        assert(texts.take(i + 1) =~= texts.take(i as int).push(entry_text(es[i as int])));
        assert(lines(out@) =~= seq![header_text(bytes@)] + texts.take(i + 1));
    }
    assert(texts.take(es.len() as int) =~= texts);
    let mut line = String::new();
    push_decimal(&mut line, log.records.len() as u64);
    assert(line@ =~= text::decimal(es.len()));
    line.append(" record(s); ");
    push_decimal(&mut line, body.len() as u64);
    line.append(" byte(s) of record data; ");
    push_decimal(&mut line, trailing_unscanned_bytes(body) as u64);
    line.append(" trailing byte(s) not part of a complete record");
    let ghost before = out@;
    out.push(line);
    assert(lines(out@) =~= lines(before) + seq![line@]);
    out
}

// ---------------------------------------------------------------------------
// What a line tells
// ---------------------------------------------------------------------------

/// The eight characters of a line behind its number: the word for what
/// happened, between blanks.
pub open spec fn word_in(line: Seq<char>, lsn: LsnId) -> Seq<char> {
    let h = 4 + text::decimal(lsn.0 as nat).len();
    line.subrange(h as int, h as int + 8)
}

/// A record's line begins with its number, and the word behind that says what
/// the record is: each kind has its own.
pub proof fn line_says_what_happened(e: Entry)
    ensures
        text::starts_with(entry_text(e), "lsn="@ + text::decimal(e.lsn.0 as nat)),
        word_in(entry_text(e), e.lsn) == " ADD    "@ <==> e.op is Add,
        word_in(entry_text(e), e.lsn) == " MOD    "@ <==> e.op is Mod,
        word_in(entry_text(e), e.lsn) == " DEL    "@ <==> e.op is Del,
        word_in(entry_text(e), e.lsn) == " COMMIT "@ <==> e.op is Commit,
        word_in(entry_text(e), e.lsn) == " ABORT  "@ <==> e.op is Rollback,
        word_in(entry_text(e), e.lsn) == " PURGE  "@ <==> e.op is Purge,
        word_in(entry_text(e), e.lsn) == " SEQ    "@ <==> e.op is Sequence,
{
    reveal_strlit("lsn=");
    words_differ();
    let t = entry_text(e);
    let n = text::decimal(e.lsn.0 as nat);
    let head = "lsn="@ + n;
    let (word, rest) = line_parts(e);
    assert(t.take(head.len() as int) =~= head);
    assert(word_in(t, e.lsn) =~= word);
}

/// The words are eight characters long, begin with a blank, and all differ.
proof fn words_differ()
    ensures
        " ADD    "@.len() == 8 && " ADD    "@[0] == ' ' && " ADD    "@[1] == 'A' && " ADD    "@[2]
            == 'D',
        " MOD    "@.len() == 8 && " MOD    "@[0] == ' ' && " MOD    "@[1] == 'M',
        " DEL    "@.len() == 8 && " DEL    "@[0] == ' ' && " DEL    "@[1] == 'D',
        " COMMIT "@.len() == 8 && " COMMIT "@[0] == ' ' && " COMMIT "@[1] == 'C',
        " ABORT  "@.len() == 8 && " ABORT  "@[0] == ' ' && " ABORT  "@[1] == 'A' && " ABORT  "@[2]
            == 'B',
        " PURGE  "@.len() == 8 && " PURGE  "@[0] == ' ' && " PURGE  "@[1] == 'P',
        " SEQ    "@.len() == 8 && " SEQ    "@[0] == ' ' && " SEQ    "@[1] == 'S',
{
    reveal_strlit(" ADD    ");
    reveal_strlit(" MOD    ");
    reveal_strlit(" DEL    ");
    reveal_strlit(" COMMIT ");
    reveal_strlit(" ABORT  ");
    reveal_strlit(" PURGE  ");
    reveal_strlit(" SEQ    ");
}

/// The word for what a record is.
spec fn word_for(op: Op) -> Seq<char> {
    match op {
        Op::Add { .. } => " ADD    "@,
        Op::Mod { .. } => " MOD    "@,
        Op::Del { .. } => " DEL    "@,
        Op::Commit(_) => " COMMIT "@,
        Op::Rollback(_) => " ABORT  "@,
        Op::Purge { .. } => " PURGE  "@,
        Op::Sequence { .. } => " SEQ    "@,
    }
}

/// A line taken apart: its number, the word, and the rest. But for a mark of a
/// sequence, the rest is the transaction's number, with nothing or a blank
/// behind it.
#[verifier::rlimit(60)]
proof fn line_parts(e: Entry) -> (t: (Seq<char>, Seq<char>))
    ensures
        t.0 == word_for(e.op),
        entry_text(e) == "lsn="@ + (text::decimal(e.lsn.0 as nat) + (t.0 + t.1)),
        !(e.op is Sequence) ==> exists|behind: Seq<char>|
            t.1 == "txn="@ + (text::decimal(mvcc::op_txn(e.op) as nat) + behind) && (
            #[trigger] behind.len() > 0 ==> behind[0] == ' '),
{
    words_differ();
    reveal_strlit("lsn=");
    reveal_strlit("txn=");
    reveal_strlit(" ADD    ");
    reveal_strlit(" MOD    ");
    reveal_strlit(" DEL    ");
    reveal_strlit(" COMMIT ");
    reveal_strlit(" ABORT  ");
    reveal_strlit(" PURGE  ");
    reveal_strlit(" SEQ    ");
    reveal_strlit(" ADD    txn=");
    reveal_strlit(" MOD    txn=");
    reveal_strlit(" DEL    txn=");
    reveal_strlit(" COMMIT txn=");
    reveal_strlit(" ABORT  txn=");
    reveal_strlit(" PURGE  txn=");
    reveal_strlit(" table=");
    let line = entry_text(e);
    let n = text::decimal(e.lsn.0 as nat);
    let x = text::decimal(mvcc::op_txn(e.op) as nat);
    let word = word_for(e.op);
    let rest = line.skip(n.len() as int + 12);
    let head = "lsn="@ + n;
    if e.op is Sequence {
        assert(line =~= "lsn="@ + (n + (word + rest)));
    } else {
        let behind = line.skip(n.len() as int + x.len() as int + 16);
        assert(word + "txn="@ =~= match e.op {
            Op::Add { .. } => " ADD    txn="@,
            Op::Mod { .. } => " MOD    txn="@,
            Op::Del { .. } => " DEL    txn="@,
            Op::Commit(_) => " COMMIT txn="@,
            Op::Rollback(_) => " ABORT  txn="@,
            _ => " PURGE  txn="@,
        });
        let start = head + (word + "txn="@) + x;
        match e.op {
            Op::Commit(_) => {
                assert(behind =~= seq![]);
                assert(line =~= start);
            },
            Op::Rollback(_) => {
                assert(behind =~= seq![]);
                assert(line =~= start);
            },
            _ => {
                assert(line.take(start.len() as int) =~= start);
                assert(line[start.len() as int] == " table="@[0]);
                assert(behind[0] == ' ');
            },
        }
        assert(line =~= start + behind);
        assert(rest =~= "txn="@ + (x + behind));
        assert(line =~= "lsn="@ + (n + (word + rest)));
        assert(behind.len() > 0 ==> behind[0] == ' ');
    }
    (word, rest)
}

/// Records that differ have lines that differ, as far as their numbers, their
/// kinds and their transactions go: two equal lines are of one number, of one
/// kind and of one transaction.
pub proof fn equal_lines_are_of_one_kind(a: Entry, b: Entry)
    requires
        entry_text(a) == entry_text(b),
    ensures
        a.lsn == b.lsn,
        a.op is Add <==> b.op is Add,
        a.op is Mod <==> b.op is Mod,
        a.op is Del <==> b.op is Del,
        a.op is Commit <==> b.op is Commit,
        a.op is Rollback <==> b.op is Rollback,
        a.op is Purge <==> b.op is Purge,
        a.op is Sequence <==> b.op is Sequence,
        mvcc::op_txn(a.op) == mvcc::op_txn(b.op),
{
    words_differ();
    let (va, ra) = line_parts(a);
    let (vb, rb) = line_parts(b);
    let na = text::decimal(a.lsn.0 as nat);
    let nb = text::decimal(b.lsn.0 as nat);
    let l = "lsn="@.len() as int;
    assert(entry_text(a).skip(l) =~= na + (va + ra));
    assert(entry_text(b).skip(l) =~= nb + (vb + rb));
    text::decimal_ends_at_no_digit(a.lsn.0 as nat, b.lsn.0 as nat, va + ra, vb + rb);
    assert(va =~= (va + ra).take(8));
    assert(vb =~= (vb + rb).take(8));
    assert(ra =~= (va + ra).skip(8));
    assert(rb =~= (vb + rb).skip(8));
    if !(a.op is Sequence) {
        let ya = choose|behind: Seq<char>|
            ra == "txn="@ + (text::decimal(mvcc::op_txn(a.op) as nat) + behind) && (
            #[trigger] behind.len() > 0 ==> behind[0] == ' ');
        let yb = choose|behind: Seq<char>|
            rb == "txn="@ + (text::decimal(mvcc::op_txn(b.op) as nat) + behind) && (
            #[trigger] behind.len() > 0 ==> behind[0] == ' ');
        let k = "txn="@.len() as int;
        let xa = text::decimal(mvcc::op_txn(a.op) as nat);
        let xb = text::decimal(mvcc::op_txn(b.op) as nat);
        assert(ra.skip(k) =~= xa + ya);
        assert(rb.skip(k) =~= xb + yb);
        text::decimal_ends_at_no_digit(
            mvcc::op_txn(a.op) as nat,
            mvcc::op_txn(b.op) as nat,
            ya,
            yb,
        );
    }
}

/// A log that holds these records is described in one line for its header, one
/// for each record in their order, each with the record's number and the word
/// for what it is, and one more, whatever an interrupted write left behind
/// them.
pub proof fn log_is_described_record_by_record(
    page_size: u64,
    es: Seq<Entry>,
    tail: Seq<u8>,
    i: int,
)
    requires
        forall|k: int| 0 <= k < es.len() ==> framing::entry_fits(#[trigger] es[k]),
        framing::torn(tail),
        0 <= i < es.len(),
    ensures
        ({
            let file = framing::enc_log_header(wal::header_of(page_size)) + framing::log_bytes(es)
                + tail;
            let line = wal_text(file)[i + 1];
            &&& wal_text(file).len() == es.len() + 2
            &&& text::starts_with(line, "lsn="@ + text::decimal(es[i].lsn.0 as nat))
            &&& word_in(line, es[i].lsn) == " COMMIT "@ <==> es[i].op is Commit
            &&& word_in(line, es[i].lsn) == " ABORT  "@ <==> es[i].op is Rollback
            &&& word_in(line, es[i].lsn) == " ADD    "@ <==> es[i].op is Add
            &&& word_in(line, es[i].lsn) == " MOD    "@ <==> es[i].op is Mod
            &&& word_in(line, es[i].lsn) == " DEL    "@ <==> es[i].op is Del
            &&& word_in(line, es[i].lsn) == " PURGE  "@ <==> es[i].op is Purge
            &&& word_in(line, es[i].lsn) == " SEQ    "@ <==> es[i].op is Sequence
        }),
{
    let h = framing::enc_log_header(wal::header_of(page_size));
    framing::log_header_round_trip(wal::header_of(page_size), seq![]);
    assert(h + Seq::<u8>::empty() =~= h);
    let file = h + framing::log_bytes(es) + tail;
    assert(file.skip(framing::log_header_len() as int) =~= framing::log_bytes(es) + tail);
    framing::scan_recovers(es, tail, 0);
    line_says_what_happened(es[i]);
    assert(wal_text(file)[i + 1] == entry_text(es[i]));
}

/// Is the record about a row?
pub open spec fn about_a_row(op: Op) -> bool {
    op is Add || op is Mod || op is Del || op is Purge
}

/// The table and the key of the row that a record is about.
pub open spec fn row_of(op: Op) -> (TableIdType, Key) {
    match op {
        Op::Add { post, .. } => (post.table_id, post.tuple.id),
        Op::Mod { post, .. } => (post.table_id, post.tuple.id),
        Op::Del { pre, .. } => (pre.table_id, pre.tuple.id),
        Op::Purge { table_id, key, .. } => (table_id, key),
        _ => (TableIdType(0), Key::Int(0)),
    }
}

/// The line of a record about a row, up to its transaction.
spec fn line_front(e: Entry) -> Seq<char> {
    "lsn="@ + text::decimal(e.lsn.0 as nat) + (word_for(e.op) + "txn="@) + text::decimal(
        mvcc::op_txn(e.op) as nat,
    )
}

/// The line of a record about a row, taken apart behind its transaction.
#[verifier::rlimit(60)]
proof fn row_parts(e: Entry) -> (more: Seq<char>)
    requires
        about_a_row(e.op),
    ensures
        e.op matches Op::Add { post, .. } ==> more == " page="@ + page_text(post.data_page),
        e.op matches Op::Mod { pre, .. } ==> more == " pre_txn="@ + (text::decimal(
            match pre.tuple.txn_id {
                Some(t) => t.0 as nat,
                None => 0,
            },
        ) + (if pre.tuple.tombstone {
            "(tombstone)"@
        } else {
            ""@
        })),
        entry_text(e) == line_front(e) + (" table="@ + (text::decimal(row_of(e.op).0.0 as nat) + (
        " key="@ + (error::key_text(row_of(e.op).1) + more)))),
        more.len() > 0 ==> more[0] == ' ',
{
    reveal_strlit("txn=");
    reveal_strlit(" ADD    ");
    reveal_strlit(" MOD    ");
    reveal_strlit(" DEL    ");
    reveal_strlit(" PURGE  ");
    reveal_strlit(" ADD    txn=");
    reveal_strlit(" MOD    txn=");
    reveal_strlit(" DEL    txn=");
    reveal_strlit(" PURGE  txn=");
    reveal_strlit(" page=");
    reveal_strlit(" pre_txn=");
    let n = text::decimal(row_of(e.op).0.0 as nat);
    let k = error::key_text(row_of(e.op).1);
    assert(word_for(e.op) + "txn="@ =~= match e.op {
        Op::Add { .. } => " ADD    txn="@,
        Op::Mod { .. } => " MOD    txn="@,
        Op::Del { .. } => " DEL    txn="@,
        _ => " PURGE  txn="@,
    });
    let front = line_front(e);
    let more = entry_text(e).skip(
        (front + " table="@ + n + " key="@ + k).len() as int,
    );
    let most = front + " table="@ + n + " key="@ + k;
    match e.op {
        Op::Add { txn, post } => {
            let rest = " page="@ + page_text(post.data_page);
            assert(entry_text(e) =~= most + rest);
            assert(more =~= rest);
        },
        Op::Mod { txn, pre, post } => {
            let rest = " pre_txn="@ + text::decimal(
                match pre.tuple.txn_id {
                    Some(t) => t.0 as nat,
                    None => 0,
                },
            ) + (if pre.tuple.tombstone {
                "(tombstone)"@
            } else {
                ""@
            });
            assert(entry_text(e) =~= most + rest);
            assert(more =~= rest);
            assert(rest =~= " pre_txn="@ + (text::decimal(
                match pre.tuple.txn_id {
                    Some(t) => t.0 as nat,
                    None => 0,
                },
            ) + (if pre.tuple.tombstone {
                "(tombstone)"@
            } else {
                ""@
            })));
        },
        _ => {
            assert(entry_text(e) =~= most);
            assert(more =~= seq![]);
        },
    }
    assert(entry_text(e) =~= most + more);
    assert(most + more =~= front + (" table="@ + (n + (" key="@ + (k + more)))));
    more
}

/// Two equal lines about rows are about the same row. Those of additions name
/// the same page, and those of changes the same writer before, and whether the
/// version before was a deletion mark.
pub proof fn equal_lines_are_about_one_row(a: Entry, b: Entry)
    requires
        entry_text(a) == entry_text(b),
        about_a_row(a.op),
    ensures
        about_a_row(b.op),
        row_of(a.op) == row_of(b.op),
        match (a.op, b.op) {
            (Op::Add { post: p, .. }, Op::Add { post: q, .. }) => p.data_page == q.data_page,
            (Op::Mod { pre: p, .. }, Op::Mod { pre: q, .. }) => {
                &&& p.tuple.tombstone == q.tuple.tombstone
                &&& p.tuple.txn_id is Some && q.tuple.txn_id is Some ==> p.tuple.txn_id
                    == q.tuple.txn_id
            },
            _ => true,
        },
{
    reveal_strlit(" key=");
    reveal_strlit("(tombstone)");
    reveal_strlit("");
    reveal_strlit("None");
    reveal_strlit("Some(PageId(");
    reveal_strlit("))");
    equal_lines_are_of_one_kind(a, b);
    let ma = row_parts(a);
    let mb = row_parts(b);
    let (ta, ka) = row_of(a.op);
    let (tb, kb) = row_of(b.op);
    let ra = " key="@ + (error::key_text(ka) + ma);
    let rb = " key="@ + (error::key_text(kb) + mb);
    let na = text::decimal(ta.0 as nat);
    let nb = text::decimal(tb.0 as nat);
    assert(line_front(a) == line_front(b));
    same_behind(line_front(a), " table="@ + (na + ra), " table="@ + (nb + rb));
    same_behind(" table="@, na + ra, nb + rb);
    text::decimal_ends_at_no_digit(ta.0 as nat, tb.0 as nat, ra, rb);
    same_behind(" key="@, error::key_text(ka) + ma, error::key_text(kb) + mb);
    error::key_texts_tell_keys_apart(ka, kb, ma, mb);
    match (a.op, b.op) {
        (Op::Add { post: p, .. }, Op::Add { post: q, .. }) => {
            same_behind(" page="@, page_text(p.data_page), page_text(q.data_page));
            match (p.data_page, q.data_page) {
                (Some(m), Some(n)) => {
                    let f = "Some(PageId("@;
                    let r = "))"@;
                    let x = text::decimal(m.0 as nat);
                    let y = text::decimal(n.0 as nat);
                    assert(f + x + r =~= f + (x + r));
                    assert(f + y + r =~= f + (y + r));
                    same_behind(f, x + r, y + r);
                    text::decimal_ends_at_no_digit(m.0 as nat, n.0 as nat, r, r);
                },
                (Some(m), None) => {
                    assert(page_text(p.data_page)[0] == 'S');
                    assert(page_text(q.data_page)[0] == 'N');
                },
                (None, Some(n)) => {
                    assert(page_text(p.data_page)[0] == 'N');
                    assert(page_text(q.data_page)[0] == 'S');
                },
                (None, None) => {},
            }
        },
        (Op::Mod { pre: p, .. }, Op::Mod { pre: q, .. }) => {
            let m = match p.tuple.txn_id {
                Some(t) => t.0 as nat,
                None => 0,
            };
            let n = match q.tuple.txn_id {
                Some(t) => t.0 as nat,
                None => 0,
            };
            let x = if p.tuple.tombstone {
                "(tombstone)"@
            } else {
                ""@
            };
            let y = if q.tuple.tombstone {
                "(tombstone)"@
            } else {
                ""@
            };
            same_behind(" pre_txn="@, text::decimal(m) + x, text::decimal(n) + y);
            text::decimal_ends_at_no_digit(m, n, x, y);
            if p.tuple.tombstone != q.tuple.tombstone {
                assert(x.len() != y.len());
            }
        },
        _ => {},
    }
}

/// What is behind the same front is the same, where the whole is.
proof fn same_behind(front: Seq<char>, s: Seq<char>, t: Seq<char>)
    requires
        front + s == front + t,
    ensures
        s == t,
{
    assert((front + s).skip(front.len() as int) =~= s);
    assert((front + t).skip(front.len() as int) =~= t);
}

/// Two equal lines about sequences are about the same sequence, and say the
/// same of it: that it is gone, or up to where it is covered.
#[verifier::rlimit(60)]
pub proof fn equal_lines_are_about_one_sequence(a: Entry, b: Entry)
    requires
        entry_text(a) == entry_text(b),
        a.op is Sequence,
    ensures
        match (a.op, b.op) {
            (
                Op::Sequence { name: m, high_water: h, dropped: x },
                Op::Sequence { name: n, high_water: i, dropped: y },
            ) => m == n && x == y && (!x ==> h == i),
            _ => false,
        },
{
    reveal_strlit("dropped");
    reveal_strlit("high_water=");
    reveal_strlit(" ");
    equal_lines_are_of_one_kind(a, b);
    match (a.op, b.op) {
        (
            Op::Sequence { name: m, high_water: h, dropped: x },
            Op::Sequence { name: n, high_water: i, dropped: y },
        ) => {
            let front = "lsn="@ + text::decimal(a.lsn.0 as nat) + " SEQ    "@;
            let dh = text::decimal(h as nat);
            let di = text::decimal(i as nat);
            text::decimal_digits(h as nat);
            text::decimal_digits(i as nat);
            let s = m + " "@ + (if x {
                "dropped"@
            } else {
                "high_water="@ + dh
            });
            let t = n + " "@ + (if y {
                "dropped"@
            } else {
                "high_water="@ + di
            });
            assert(entry_text(a) =~= front + s);
            assert(entry_text(b) =~= front + t);
            same_behind(front, s, t);
            if x {
                assert(s.last() == 'd');
            } else {
                assert(s.last() == dh[dh.len() - 1]);
            }
            if y {
                assert(t.last() == 'd');
            } else {
                assert(t.last() == di[di.len() - 1]);
            }
            if x {
                assert(m =~= s.take(s.len() - 8));
                assert(n =~= t.take(t.len() - 8));
            } else {
                if dh.len() < di.len() {
                    assert(s[s.len() - dh.len() - 1] == '=');
                    assert(t[t.len() - dh.len() - 1] == di[di.len() - dh.len() - 1]);
                    assert(text::is_digit(di[di.len() - dh.len() - 1]));
                }
                if di.len() < dh.len() {
                    assert(t[t.len() - di.len() - 1] == '=');
                    assert(s[s.len() - di.len() - 1] == dh[dh.len() - di.len() - 1]);
                    assert(text::is_digit(dh[dh.len() - di.len() - 1]));
                }
                assert(dh =~= s.skip(s.len() - dh.len()));
                assert(di =~= t.skip(t.len() - di.len()));
                assert(m =~= s.take(s.len() - dh.len() - 12));
                assert(n =~= t.take(t.len() - di.len() - 12));
            }
        },
        _ => {},
    }
}

/// A file too short for a header is described in one line, and every other in
/// two at least.
pub proof fn short_file_takes_one_line(s: Seq<u8>)
    ensures
        wal_text(s).len() == 1 <==> s.len() < 14,
{
}

/// The header's line says "ok" of the magic exactly where it is that of a log,
/// and of the version exactly where it is the current one.
pub proof fn header_line_judges(s: Seq<u8>)
    ensures
        ({
            let line = header_text(s);
            let good = framing::header_magic(s) == LOG_MAGIC@;
            let known = framing::header_version(s) == CURRENT_LOG_VERSION;
            &&& line.len() >= 12
            &&& known <==> line.skip(line.len() - 12) == "version ok)"@.insert(0, ' ')
            &&& known ==> line.len() >= 23
            &&& known ==> (good <==> line.skip(line.len() - 23) == "(magic ok, version ok)"@.insert(
                0,
                ' ',
            ))
        }),
{
    reveal_strlit("version ok)");
    reveal_strlit("(magic ok, version ok)");
    reveal_strlit(" (magic ");
    reveal_strlit(", version ");
    reveal_strlit(")");
    reveal_strlit("ok");
    reveal_strlit("MISMATCH");
    let line = header_text(s);
    let good = framing::header_magic(s) == LOG_MAGIC@;
    let known = framing::header_version(s) == CURRENT_LOG_VERSION;
    let a = "version ok)"@.insert(0, ' ');
    let b = "(magic ok, version ok)"@.insert(0, ' ');
    let tail = " (magic "@ + verdict_text(good) + ", version "@ + verdict_text(known) + ")"@;
    let front = line.take(line.len() - tail.len());
    assert(line =~= front + tail);
    if known {
        assert(line.skip(line.len() - 12) =~= a);
        if good {
            assert(line.skip(line.len() - 23) =~= b);
        } else {
            assert(line[line.len() - 13 - 1] == 'H');
            assert(b[23 - 13 - 1] == 'k');
            assert(line.skip(line.len() - 23)[9] == 'H');
        }
    } else {
        assert(line[line.len() - 2] == 'H');
        assert(line.skip(line.len() - 12)[10] == 'H');
        assert(a[10] == 'k');
    }
}

/// Two equal last lines are of logs with as many records, as many bytes of them
/// and as many bytes left over.
pub proof fn summaries_tell_counts_apart(a: nat, b: nat, c: nat, x: nat, y: nat, z: nat)
    requires
        summary_text(a, b, c) == summary_text(x, y, z),
    ensures
        a == x,
        b == y,
        c == z,
{
    reveal_strlit(" record(s); ");
    reveal_strlit(" byte(s) of record data; ");
    reveal_strlit(" trailing byte(s) not part of a complete record");
    let p = " record(s); "@;
    let q = " byte(s) of record data; "@;
    let r = " trailing byte(s) not part of a complete record"@;
    let da = text::decimal(a);
    let db = text::decimal(b);
    let dc = text::decimal(c);
    let dx = text::decimal(x);
    let dy = text::decimal(y);
    let dz = text::decimal(z);
    assert(summary_text(a, b, c) =~= da + (p + (db + (q + (dc + r)))));
    assert(summary_text(x, y, z) =~= dx + (p + (dy + (q + (dz + r)))));
    text::decimal_ends_at_no_digit(a, x, p + (db + (q + (dc + r))), p + (dy + (q + (dz + r))));
    same_behind(p, db + (q + (dc + r)), dy + (q + (dz + r)));
    text::decimal_ends_at_no_digit(b, y, q + (dc + r), q + (dz + r));
    same_behind(q, dc + r, dz + r);
    text::decimal_ends_at_no_digit(c, z, r, r);
}

} // verus!

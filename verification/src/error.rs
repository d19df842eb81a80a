//! What can go wrong.
use vstd::prelude::*;
use vstd::string::*;

use crate::codec::CodecError;
use crate::page::PageId;
use crate::text;
use crate::text::{push_byte_list, push_decimal};
use crate::tuple::{DBIdType, Key};

verus! {

/// What went wrong with a file, as far as the store distinguishes it.
#[derive(Clone, Copy, Debug, PartialEq, Eq, Structural)]
pub enum IoFault {
    /// No file has the name.
    NotFound,
    /// A file of that name exists already.
    AlreadyExists,
    /// The file ends before all the bytes asked for were read.
    UnexpectedEof,
    /// Anything else that the operating system reports.
    Other,
}

/// What can go wrong in the store.
#[derive(Debug)]
pub enum StoreError {
    IoError(IoFault),
    SerializationError(CodecError),
    FileError,
    BadRowNumber(u64),
    PageCapacityError,
    LockContentionError,
    DuplicateKey(DBIdType),
    KeyNotFound(DBIdType),
    /// The row's current version cannot be built on: its writer is still
    /// active, or committed after this transaction began.
    WriteConflict(DBIdType),
    /// As `WriteConflict`, and the whole transaction was rolled back for it.
    WriteConflictTransactionAborted(DBIdType),
    TransactionAlreadyFinished,
    TableNameInvalid(usize, usize),
    ReservedTableName(String),
    UnknownError(String),
    DuplicateName(String),
    MissingKey(String),
    TupleTooLarge(u64, usize),
    RunPageIndexOutOfRange(usize, usize),
    UndoLogError(String),
    TableNotFound(String),
    PageTransientlyInconsistent(PageId),
    UnknownPageContentKind(u16),
    DuplicatePageContentKind(u16),
    InvalidPageMagic(PageId),
    PageChecksumMismatch(PageId),
    TruncatedValueItem(String),
    LogHeaderMismatch(String),
    LogCorruption(String),
    HeaderCorruption(String),
    /// The engine refuses all writes since it could not finish an abort.
    EngineDegraded(String),
    /// A lock was not granted in time; the transaction was rolled back.
    LockTimeout(String),
    /// A lock was asked for out of order; the transaction was rolled back.
    LockOrderViolation(String),
    /// The engine ended the transaction because its snapshot grew too old.
    SnapshotTooOld(String),
    /// A version that a reader needs cannot be reached.
    Corruption(String),
}

/// An error, as contracts speak of it.
pub enum Fault {
    Io(IoFault),
    Serialization(CodecError),
    File,
    BadRowNumber(u64),
    PageCapacity,
    LockContention,
    DuplicateKey(Key),
    KeyNotFound(Key),
    WriteConflict(Key),
    WriteConflictTransactionAborted(Key),
    TransactionAlreadyFinished,
    TableNameInvalid(usize, usize),
    ReservedTableName(Seq<char>),
    Unknown(Seq<char>),
    DuplicateName(Seq<char>),
    MissingKey(Seq<char>),
    TupleTooLarge(u64, usize),
    RunPageIndexOutOfRange(usize, usize),
    UndoLog(Seq<char>),
    TableNotFound(Seq<char>),
    PageTransientlyInconsistent(PageId),
    UnknownPageContentKind(u16),
    DuplicatePageContentKind(u16),
    InvalidPageMagic(PageId),
    PageChecksumMismatch(PageId),
    TruncatedValueItem(Seq<char>),
    LogHeaderMismatch(Seq<char>),
    LogCorruption(Seq<char>),
    HeaderCorruption(Seq<char>),
    EngineDegraded(Seq<char>),
    LockTimeout(Seq<char>),
    LockOrderViolation(Seq<char>),
    SnapshotTooOld(Seq<char>),
    Corruption(Seq<char>),
}

impl View for StoreError {
    type V = Fault;

    open spec fn view(&self) -> Fault {
        match *self {
            StoreError::IoError(f) => Fault::Io(f),
            StoreError::SerializationError(e) => Fault::Serialization(e),
            StoreError::FileError => Fault::File,
            StoreError::BadRowNumber(n) => Fault::BadRowNumber(n),
            StoreError::PageCapacityError => Fault::PageCapacity,
            StoreError::LockContentionError => Fault::LockContention,
            StoreError::DuplicateKey(k) => Fault::DuplicateKey(k@),
            StoreError::KeyNotFound(k) => Fault::KeyNotFound(k@),
            StoreError::WriteConflict(k) => Fault::WriteConflict(k@),
            StoreError::WriteConflictTransactionAborted(k) => {
                Fault::WriteConflictTransactionAborted(k@)
            },
            StoreError::TransactionAlreadyFinished => Fault::TransactionAlreadyFinished,
            StoreError::TableNameInvalid(max, got) => Fault::TableNameInvalid(max, got),
            StoreError::ReservedTableName(t) => Fault::ReservedTableName(t@),
            StoreError::UnknownError(t) => Fault::Unknown(t@),
            StoreError::DuplicateName(t) => Fault::DuplicateName(t@),
            StoreError::MissingKey(t) => Fault::MissingKey(t@),
            StoreError::TupleTooLarge(n, max) => Fault::TupleTooLarge(n, max),
            StoreError::RunPageIndexOutOfRange(i, n) => Fault::RunPageIndexOutOfRange(i, n),
            StoreError::UndoLogError(t) => Fault::UndoLog(t@),
            StoreError::TableNotFound(t) => Fault::TableNotFound(t@),
            StoreError::PageTransientlyInconsistent(p) => Fault::PageTransientlyInconsistent(p),
            StoreError::UnknownPageContentKind(k) => Fault::UnknownPageContentKind(k),
            StoreError::DuplicatePageContentKind(k) => Fault::DuplicatePageContentKind(k),
            StoreError::InvalidPageMagic(p) => Fault::InvalidPageMagic(p),
            StoreError::PageChecksumMismatch(p) => Fault::PageChecksumMismatch(p),
            StoreError::TruncatedValueItem(t) => Fault::TruncatedValueItem(t@),
            StoreError::LogHeaderMismatch(t) => Fault::LogHeaderMismatch(t@),
            StoreError::LogCorruption(t) => Fault::LogCorruption(t@),
            StoreError::HeaderCorruption(t) => Fault::HeaderCorruption(t@),
            StoreError::EngineDegraded(t) => Fault::EngineDegraded(t@),
            StoreError::LockTimeout(t) => Fault::LockTimeout(t@),
            StoreError::LockOrderViolation(t) => Fault::LockOrderViolation(t@),
            StoreError::SnapshotTooOld(t) => Fault::SnapshotTooOld(t@),
            StoreError::Corruption(t) => Fault::Corruption(t@),
        }
    }
}

/// A key, as it is printed.
pub open spec fn key_text(k: Key) -> Seq<char> {
    match k {
        Key::Int(n) => text::decimal(n as nat),
        Key::Bytes(b) => text::byte_list(b),
    }
}

/// Appends a key, as it is printed.
pub fn push_key(out: &mut String, k: &DBIdType)
    ensures
        final(out)@ == old(out)@ + key_text(k@),
{
    match k {
        DBIdType::Int(n) => push_decimal(out, *n),
        DBIdType::Bytes(b) => push_byte_list(out, b),
    }
}

/// The message that an error shows.
pub open spec fn fault_text(f: Fault) -> Seq<char> {
    match f {
        Fault::Io(f) => "IO Error"@,
        Fault::Serialization(e) => "Serialization Error"@,
        Fault::File => "Bad file"@,
        Fault::BadRowNumber(n) => "Invalid row number "@ + text::decimal(n as nat),
        Fault::PageCapacity => "No space in page"@,
        Fault::LockContention => "Lock contention."@,
        Fault::DuplicateKey(k) => "Duplicate key "@ + key_text(k),
        Fault::KeyNotFound(k) => "Key not found "@ + key_text(k),
        Fault::WriteConflict(k) => "Write conflict on key "@ + key_text(k) + " — row was concurrently modified by another transaction"@,
        Fault::WriteConflictTransactionAborted(k) => "Write conflict on key "@ + key_text(k) + " — row was concurrently modified by another transaction; the entire transaction was rolled back"@,
        Fault::TransactionAlreadyFinished => "transaction is no longer active (already committed or rolled back)"@,
        Fault::TableNameInvalid(max, got) => "Table name max length is "@ + text::decimal(max as nat) + ", got "@ + text::decimal(got as nat),
        Fault::ReservedTableName(t) => "Table name "@ + t + " uses the reserved __system. prefix"@,
        Fault::Unknown(t) => "Unknown error "@ + t,
        Fault::DuplicateName(t) => "Duplicate table name "@ + t,
        Fault::MissingKey(t) => "Missing key "@ + t,
        Fault::TupleTooLarge(n, max) => "value too large: "@ + text::decimal(n as nat) + " byte(s), maximum allowed is "@ + text::decimal(max as nat) + " byte(s)"@,
        Fault::RunPageIndexOutOfRange(i, n) => "run page index "@ + text::decimal(i as nat) + " out of range (run has "@ + text::decimal(n as nat) + " page(s))"@,
        Fault::UndoLog(t) => "Undo log error : "@ + t,
        Fault::TableNotFound(t) => "Table not found : "@ + t,
        Fault::PageTransientlyInconsistent(p) => "Page PageId("@ + text::decimal(p.0 as nat) + ") read mid-overflow-transition, retry"@,
        Fault::UnknownPageContentKind(k) => "No PageContent factory registered for kind "@ + text::decimal(k as nat),
        Fault::DuplicatePageContentKind(k) => "PageContent kind "@ + text::decimal(k as nat) + " is already registered"@,
        Fault::InvalidPageMagic(p) => "Page PageId("@ + text::decimal(p.0 as nat) + ") has an invalid magic number — not a valid page, or badly corrupted"@,
        Fault::PageChecksumMismatch(p) => "Page PageId("@ + text::decimal(p.0 as nat) + ") failed its checksum — data is corrupted"@,
        Fault::TruncatedValueItem(t) => "Truncated or malformed value item bytes: "@ + t,
        Fault::LogHeaderMismatch(t) => "WAL header mismatch: "@ + t,
        Fault::LogCorruption(t) => "WAL corruption: "@ + t,
        Fault::HeaderCorruption(t) => "Header corruption: "@ + t,
        Fault::EngineDegraded(t) => "engine is degraded: "@ + t,
        Fault::LockTimeout(t) => "lock timeout: "@ + t,
        Fault::LockOrderViolation(t) => "lock order violation: "@ + t,
        Fault::SnapshotTooOld(t) => "snapshot too old: "@ + t,
        Fault::Corruption(t) => "Corruption: "@ + t,
    }
}

impl StoreError {
    /// The message that the error shows.
    pub fn message(&self) -> (out: String)
        ensures
            out@ == fault_text(self@),
    {
        match self {
            StoreError::IoError(_) => "IO Error".to_owned(),
            StoreError::SerializationError(_) => "Serialization Error".to_owned(),
            StoreError::FileError => "Bad file".to_owned(),
            StoreError::BadRowNumber(n) => {
                let mut out = "Invalid row number ".to_owned();
                push_decimal(&mut out, *n);
                out
            },
            StoreError::PageCapacityError => "No space in page".to_owned(),
            StoreError::LockContentionError => "Lock contention.".to_owned(),
            StoreError::DuplicateKey(k) => {
                let mut out = "Duplicate key ".to_owned();
                push_key(&mut out, k);
                out
            },
            StoreError::KeyNotFound(k) => {
                let mut out = "Key not found ".to_owned();
                push_key(&mut out, k);
                out
            },
            StoreError::WriteConflict(k) => {
                let mut out = "Write conflict on key ".to_owned();
                push_key(&mut out, k);
                out.append(" — row was concurrently modified by another transaction");
                out
            },
            StoreError::WriteConflictTransactionAborted(k) => {
                let mut out = "Write conflict on key ".to_owned();
                push_key(&mut out, k);
                out.append(" — row was concurrently modified by another transaction; the entire transaction was rolled back");
                out
            },
            StoreError::TransactionAlreadyFinished => "transaction is no longer active (already committed or rolled back)".to_owned(),
            StoreError::TableNameInvalid(max, got) => {
                let mut out = "Table name max length is ".to_owned();
                push_decimal(&mut out, *max as u64);
                out.append(", got ");
                push_decimal(&mut out, *got as u64);
                out
            },
            StoreError::ReservedTableName(t) => {
                let mut out = "Table name ".to_owned();
                out.append(t.as_str());
                out.append(" uses the reserved __system. prefix");
                out
            },
            StoreError::UnknownError(t) => {
                let mut out = "Unknown error ".to_owned();
                out.append(t.as_str());
                out
            },
            StoreError::DuplicateName(t) => {
                let mut out = "Duplicate table name ".to_owned();
                out.append(t.as_str());
                out
            },
            StoreError::MissingKey(t) => {
                let mut out = "Missing key ".to_owned();
                out.append(t.as_str());
                out
            },
            StoreError::TupleTooLarge(n, max) => {
                let mut out = "value too large: ".to_owned();
                push_decimal(&mut out, *n);
                out.append(" byte(s), maximum allowed is ");
                push_decimal(&mut out, *max as u64);
                out.append(" byte(s)");
                out
            },
            StoreError::RunPageIndexOutOfRange(i, n) => {
                let mut out = "run page index ".to_owned();
                push_decimal(&mut out, *i as u64);
                out.append(" out of range (run has ");
                push_decimal(&mut out, *n as u64);
                out.append(" page(s))");
                out
            },
            StoreError::UndoLogError(t) => {
                let mut out = "Undo log error : ".to_owned();
                out.append(t.as_str());
                out
            },
            StoreError::TableNotFound(t) => {
                let mut out = "Table not found : ".to_owned();
                out.append(t.as_str());
                out
            },
            StoreError::PageTransientlyInconsistent(p) => {
                let mut out = "Page PageId(".to_owned();
                push_decimal(&mut out, p.0);
                out.append(") read mid-overflow-transition, retry");
                out
            },
            StoreError::UnknownPageContentKind(k) => {
                let mut out = "No PageContent factory registered for kind ".to_owned();
                push_decimal(&mut out, *k as u64);
                out
            },
            StoreError::DuplicatePageContentKind(k) => {
                let mut out = "PageContent kind ".to_owned();
                push_decimal(&mut out, *k as u64);
                out.append(" is already registered");
                out
            },
            StoreError::InvalidPageMagic(p) => {
                let mut out = "Page PageId(".to_owned();
                push_decimal(&mut out, p.0);
                out.append(") has an invalid magic number — not a valid page, or badly corrupted");
                out
            },
            StoreError::PageChecksumMismatch(p) => {
                let mut out = "Page PageId(".to_owned();
                push_decimal(&mut out, p.0);
                out.append(") failed its checksum — data is corrupted");
                out
            },
            StoreError::TruncatedValueItem(t) => {
                let mut out = "Truncated or malformed value item bytes: ".to_owned();
                out.append(t.as_str());
                out
            },
            StoreError::LogHeaderMismatch(t) => {
                let mut out = "WAL header mismatch: ".to_owned();
                out.append(t.as_str());
                out
            },
            StoreError::LogCorruption(t) => {
                let mut out = "WAL corruption: ".to_owned();
                out.append(t.as_str());
                out
            },
            StoreError::HeaderCorruption(t) => {
                let mut out = "Header corruption: ".to_owned();
                out.append(t.as_str());
                out
            },
            StoreError::EngineDegraded(t) => {
                let mut out = "engine is degraded: ".to_owned();
                out.append(t.as_str());
                out
            },
            StoreError::LockTimeout(t) => {
                let mut out = "lock timeout: ".to_owned();
                out.append(t.as_str());
                out
            },
            StoreError::LockOrderViolation(t) => {
                let mut out = "lock order violation: ".to_owned();
                out.append(t.as_str());
                out
            },
            StoreError::SnapshotTooOld(t) => {
                let mut out = "snapshot too old: ".to_owned();
                out.append(t.as_str());
                out
            },
            StoreError::Corruption(t) => {
                let mut out = "Corruption: ".to_owned();
                out.append(t.as_str());
                out
            },
        }
    }
}

// ---------------------------------------------------------------------------
// What a message tells
// ---------------------------------------------------------------------------

/// The kinds of errors, numbered.
pub open spec fn kind_of(f: Fault) -> nat {
    match f {
        Fault::Io(_) => 0,
        Fault::Serialization(_) => 1,
        Fault::File => 2,
        Fault::BadRowNumber(_) => 3,
        Fault::PageCapacity => 4,
        Fault::LockContention => 5,
        Fault::DuplicateKey(_) => 6,
        Fault::KeyNotFound(_) => 7,
        Fault::WriteConflict(_) => 8,
        Fault::WriteConflictTransactionAborted(_) => 9,
        Fault::TransactionAlreadyFinished => 10,
        Fault::TableNameInvalid(_, _) => 11,
        Fault::ReservedTableName(_) => 12,
        Fault::Unknown(_) => 13,
        Fault::DuplicateName(_) => 14,
        Fault::MissingKey(_) => 15,
        Fault::TupleTooLarge(_, _) => 16,
        Fault::RunPageIndexOutOfRange(_, _) => 17,
        Fault::UndoLog(_) => 18,
        Fault::TableNotFound(_) => 19,
        Fault::PageTransientlyInconsistent(_) => 20,
        Fault::UnknownPageContentKind(_) => 21,
        Fault::DuplicatePageContentKind(_) => 22,
        Fault::InvalidPageMagic(_) => 23,
        Fault::PageChecksumMismatch(_) => 24,
        Fault::TruncatedValueItem(_) => 25,
        Fault::LogHeaderMismatch(_) => 26,
        Fault::LogCorruption(_) => 27,
        Fault::HeaderCorruption(_) => 28,
        Fault::EngineDegraded(_) => 29,
        Fault::LockTimeout(_) => 30,
        Fault::LockOrderViolation(_) => 31,
        Fault::SnapshotTooOld(_) => 32,
        Fault::Corruption(_) => 33,
    }
}

/// How every message begins, and how some of those end that begin alike.
#[verifier::rlimit(100)]
#[verifier::spinoff_prover]
proof fn message_parts(f: Fault)
    ensures
        fault_text(f).len() >= 8,
        match f {
            Fault::Io(_) => {
                &&& fault_text(f)[0] == 'I'
                &&& fault_text(f)[1] == 'O'
                &&& fault_text(f)[2] == ' '
                &&& fault_text(f)[3] == 'E'
                &&& fault_text(f)[4] == 'r'
                &&& fault_text(f)[5] == 'r'
                &&& fault_text(f)[6] == 'o'
                &&& fault_text(f)[7] == 'r'
            },
            Fault::Serialization(_) => {
                &&& fault_text(f)[0] == 'S'
                &&& fault_text(f)[1] == 'e'
                &&& fault_text(f)[2] == 'r'
                &&& fault_text(f)[3] == 'i'
                &&& fault_text(f)[4] == 'a'
                &&& fault_text(f)[5] == 'l'
                &&& fault_text(f)[6] == 'i'
                &&& fault_text(f)[7] == 'z'
            },
            Fault::File => {
                &&& fault_text(f)[0] == 'B'
                &&& fault_text(f)[1] == 'a'
                &&& fault_text(f)[2] == 'd'
                &&& fault_text(f)[3] == ' '
                &&& fault_text(f)[4] == 'f'
                &&& fault_text(f)[5] == 'i'
                &&& fault_text(f)[6] == 'l'
                &&& fault_text(f)[7] == 'e'
            },
            Fault::BadRowNumber(_) => {
                &&& fault_text(f)[0] == 'I'
                &&& fault_text(f)[1] == 'n'
                &&& fault_text(f)[2] == 'v'
                &&& fault_text(f)[3] == 'a'
                &&& fault_text(f)[4] == 'l'
                &&& fault_text(f)[5] == 'i'
                &&& fault_text(f)[6] == 'd'
                &&& fault_text(f)[7] == ' '
            },
            Fault::PageCapacity => {
                &&& fault_text(f)[0] == 'N'
                &&& fault_text(f)[1] == 'o'
                &&& fault_text(f)[2] == ' '
                &&& fault_text(f)[3] == 's'
                &&& fault_text(f)[4] == 'p'
                &&& fault_text(f)[5] == 'a'
                &&& fault_text(f)[6] == 'c'
                &&& fault_text(f)[7] == 'e'
            },
            Fault::LockContention => {
                &&& fault_text(f)[0] == 'L'
                &&& fault_text(f)[1] == 'o'
                &&& fault_text(f)[2] == 'c'
                &&& fault_text(f)[3] == 'k'
                &&& fault_text(f)[4] == ' '
                &&& fault_text(f)[5] == 'c'
                &&& fault_text(f)[6] == 'o'
                &&& fault_text(f)[7] == 'n'
            },
            Fault::DuplicateKey(_) => {
                &&& fault_text(f)[0] == 'D'
                &&& fault_text(f)[1] == 'u'
                &&& fault_text(f)[2] == 'p'
                &&& fault_text(f)[3] == 'l'
                &&& fault_text(f)[4] == 'i'
                &&& fault_text(f)[5] == 'c'
                &&& fault_text(f)[6] == 'a'
                &&& fault_text(f)[7] == 't'
                &&& fault_text(f).len() > 10
                &&& fault_text(f)[10] == 'k'
            },
            Fault::KeyNotFound(_) => {
                &&& fault_text(f)[0] == 'K'
                &&& fault_text(f)[1] == 'e'
                &&& fault_text(f)[2] == 'y'
                &&& fault_text(f)[3] == ' '
                &&& fault_text(f)[4] == 'n'
                &&& fault_text(f)[5] == 'o'
                &&& fault_text(f)[6] == 't'
                &&& fault_text(f)[7] == ' '
            },
            Fault::WriteConflict(_) => {
                &&& fault_text(f)[0] == 'W'
                &&& fault_text(f)[1] == 'r'
                &&& fault_text(f)[2] == 'i'
                &&& fault_text(f)[3] == 't'
                &&& fault_text(f)[4] == 'e'
                &&& fault_text(f)[5] == ' '
                &&& fault_text(f)[6] == 'c'
                &&& fault_text(f)[7] == 'o'
                &&& fault_text(f).last() == 'n'
                &&& fault_text(f).len() > 12
                &&& fault_text(f)[fault_text(f).len() - 11] == 't'
            },
            Fault::WriteConflictTransactionAborted(_) => {
                &&& fault_text(f)[0] == 'W'
                &&& fault_text(f)[1] == 'r'
                &&& fault_text(f)[2] == 'i'
                &&& fault_text(f)[3] == 't'
                &&& fault_text(f)[4] == 'e'
                &&& fault_text(f)[5] == ' '
                &&& fault_text(f)[6] == 'c'
                &&& fault_text(f)[7] == 'o'
                &&& fault_text(f).last() == 'k'
                &&& fault_text(f).len() > 12
                &&& fault_text(f)[fault_text(f).len() - 11] == 'r'
            },
            Fault::TransactionAlreadyFinished => {
                &&& fault_text(f)[0] == 't'
                &&& fault_text(f)[1] == 'r'
                &&& fault_text(f)[2] == 'a'
                &&& fault_text(f)[3] == 'n'
                &&& fault_text(f)[4] == 's'
                &&& fault_text(f)[5] == 'a'
                &&& fault_text(f)[6] == 'c'
                &&& fault_text(f)[7] == 't'
            },
            Fault::TableNameInvalid(_, _) => {
                &&& fault_text(f)[0] == 'T'
                &&& fault_text(f)[1] == 'a'
                &&& fault_text(f)[2] == 'b'
                &&& fault_text(f)[3] == 'l'
                &&& fault_text(f)[4] == 'e'
                &&& fault_text(f)[5] == ' '
                &&& fault_text(f)[6] == 'n'
                &&& fault_text(f)[7] == 'a'
                &&& text::is_digit(fault_text(f).last())
            },
            Fault::ReservedTableName(_) => {
                &&& fault_text(f)[0] == 'T'
                &&& fault_text(f)[1] == 'a'
                &&& fault_text(f)[2] == 'b'
                &&& fault_text(f)[3] == 'l'
                &&& fault_text(f)[4] == 'e'
                &&& fault_text(f)[5] == ' '
                &&& fault_text(f)[6] == 'n'
                &&& fault_text(f)[7] == 'a'
                &&& fault_text(f).last() == 'x'
                &&& fault_text(f).len() > 12
                &&& fault_text(f)[fault_text(f).len() - 11] == 't'
            },
            Fault::Unknown(_) => {
                &&& fault_text(f)[0] == 'U'
                &&& fault_text(f)[1] == 'n'
                &&& fault_text(f)[2] == 'k'
                &&& fault_text(f)[3] == 'n'
                &&& fault_text(f)[4] == 'o'
                &&& fault_text(f)[5] == 'w'
                &&& fault_text(f)[6] == 'n'
                &&& fault_text(f)[7] == ' '
            },
            Fault::DuplicateName(_) => {
                &&& fault_text(f)[0] == 'D'
                &&& fault_text(f)[1] == 'u'
                &&& fault_text(f)[2] == 'p'
                &&& fault_text(f)[3] == 'l'
                &&& fault_text(f)[4] == 'i'
                &&& fault_text(f)[5] == 'c'
                &&& fault_text(f)[6] == 'a'
                &&& fault_text(f)[7] == 't'
                &&& fault_text(f).len() > 10
                &&& fault_text(f)[10] == 't'
            },
            Fault::MissingKey(_) => {
                &&& fault_text(f)[0] == 'M'
                &&& fault_text(f)[1] == 'i'
                &&& fault_text(f)[2] == 's'
                &&& fault_text(f)[3] == 's'
                &&& fault_text(f)[4] == 'i'
                &&& fault_text(f)[5] == 'n'
                &&& fault_text(f)[6] == 'g'
                &&& fault_text(f)[7] == ' '
            },
            Fault::TupleTooLarge(_, _) => {
                &&& fault_text(f)[0] == 'v'
                &&& fault_text(f)[1] == 'a'
                &&& fault_text(f)[2] == 'l'
                &&& fault_text(f)[3] == 'u'
                &&& fault_text(f)[4] == 'e'
                &&& fault_text(f)[5] == ' '
                &&& fault_text(f)[6] == 't'
                &&& fault_text(f)[7] == 'o'
            },
            Fault::RunPageIndexOutOfRange(_, _) => {
                &&& fault_text(f)[0] == 'r'
                &&& fault_text(f)[1] == 'u'
                &&& fault_text(f)[2] == 'n'
                &&& fault_text(f)[3] == ' '
                &&& fault_text(f)[4] == 'p'
                &&& fault_text(f)[5] == 'a'
                &&& fault_text(f)[6] == 'g'
                &&& fault_text(f)[7] == 'e'
            },
            Fault::UndoLog(_) => {
                &&& fault_text(f)[0] == 'U'
                &&& fault_text(f)[1] == 'n'
                &&& fault_text(f)[2] == 'd'
                &&& fault_text(f)[3] == 'o'
                &&& fault_text(f)[4] == ' '
                &&& fault_text(f)[5] == 'l'
                &&& fault_text(f)[6] == 'o'
                &&& fault_text(f)[7] == 'g'
            },
            Fault::TableNotFound(_) => {
                &&& fault_text(f)[0] == 'T'
                &&& fault_text(f)[1] == 'a'
                &&& fault_text(f)[2] == 'b'
                &&& fault_text(f)[3] == 'l'
                &&& fault_text(f)[4] == 'e'
                &&& fault_text(f)[5] == ' '
                &&& fault_text(f)[6] == 'n'
                &&& fault_text(f)[7] == 'o'
            },
            Fault::PageTransientlyInconsistent(_) => {
                &&& fault_text(f)[0] == 'P'
                &&& fault_text(f)[1] == 'a'
                &&& fault_text(f)[2] == 'g'
                &&& fault_text(f)[3] == 'e'
                &&& fault_text(f)[4] == ' '
                &&& fault_text(f)[5] == 'P'
                &&& fault_text(f)[6] == 'a'
                &&& fault_text(f)[7] == 'g'
                &&& fault_text(f).last() == 'y'
                &&& fault_text(f).len() > 12
                &&& fault_text(f)[fault_text(f).len() - 11] == 't'
            },
            Fault::UnknownPageContentKind(_) => {
                &&& fault_text(f)[0] == 'N'
                &&& fault_text(f)[1] == 'o'
                &&& fault_text(f)[2] == ' '
                &&& fault_text(f)[3] == 'P'
                &&& fault_text(f)[4] == 'a'
                &&& fault_text(f)[5] == 'g'
                &&& fault_text(f)[6] == 'e'
                &&& fault_text(f)[7] == 'C'
            },
            Fault::DuplicatePageContentKind(_) => {
                &&& fault_text(f)[0] == 'P'
                &&& fault_text(f)[1] == 'a'
                &&& fault_text(f)[2] == 'g'
                &&& fault_text(f)[3] == 'e'
                &&& fault_text(f)[4] == 'C'
                &&& fault_text(f)[5] == 'o'
                &&& fault_text(f)[6] == 'n'
                &&& fault_text(f)[7] == 't'
            },
            Fault::InvalidPageMagic(_) => {
                &&& fault_text(f)[0] == 'P'
                &&& fault_text(f)[1] == 'a'
                &&& fault_text(f)[2] == 'g'
                &&& fault_text(f)[3] == 'e'
                &&& fault_text(f)[4] == ' '
                &&& fault_text(f)[5] == 'P'
                &&& fault_text(f)[6] == 'a'
                &&& fault_text(f)[7] == 'g'
                &&& fault_text(f).last() == 'd'
                &&& fault_text(f).len() > 12
                &&& fault_text(f)[fault_text(f).len() - 11] == 'y'
            },
            Fault::PageChecksumMismatch(_) => {
                &&& fault_text(f)[0] == 'P'
                &&& fault_text(f)[1] == 'a'
                &&& fault_text(f)[2] == 'g'
                &&& fault_text(f)[3] == 'e'
                &&& fault_text(f)[4] == ' '
                &&& fault_text(f)[5] == 'P'
                &&& fault_text(f)[6] == 'a'
                &&& fault_text(f)[7] == 'g'
                &&& fault_text(f).last() == 'd'
                &&& fault_text(f).len() > 12
                &&& fault_text(f)[fault_text(f).len() - 11] == 's'
            },
            Fault::TruncatedValueItem(_) => {
                &&& fault_text(f)[0] == 'T'
                &&& fault_text(f)[1] == 'r'
                &&& fault_text(f)[2] == 'u'
                &&& fault_text(f)[3] == 'n'
                &&& fault_text(f)[4] == 'c'
                &&& fault_text(f)[5] == 'a'
                &&& fault_text(f)[6] == 't'
                &&& fault_text(f)[7] == 'e'
            },
            Fault::LogHeaderMismatch(_) => {
                &&& fault_text(f)[0] == 'W'
                &&& fault_text(f)[1] == 'A'
                &&& fault_text(f)[2] == 'L'
                &&& fault_text(f)[3] == ' '
                &&& fault_text(f)[4] == 'h'
                &&& fault_text(f)[5] == 'e'
                &&& fault_text(f)[6] == 'a'
                &&& fault_text(f)[7] == 'd'
            },
            Fault::LogCorruption(_) => {
                &&& fault_text(f)[0] == 'W'
                &&& fault_text(f)[1] == 'A'
                &&& fault_text(f)[2] == 'L'
                &&& fault_text(f)[3] == ' '
                &&& fault_text(f)[4] == 'c'
                &&& fault_text(f)[5] == 'o'
                &&& fault_text(f)[6] == 'r'
                &&& fault_text(f)[7] == 'r'
            },
            Fault::HeaderCorruption(_) => {
                &&& fault_text(f)[0] == 'H'
                &&& fault_text(f)[1] == 'e'
                &&& fault_text(f)[2] == 'a'
                &&& fault_text(f)[3] == 'd'
                &&& fault_text(f)[4] == 'e'
                &&& fault_text(f)[5] == 'r'
                &&& fault_text(f)[6] == ' '
                &&& fault_text(f)[7] == 'c'
            },
            Fault::EngineDegraded(_) => {
                &&& fault_text(f)[0] == 'e'
                &&& fault_text(f)[1] == 'n'
                &&& fault_text(f)[2] == 'g'
                &&& fault_text(f)[3] == 'i'
                &&& fault_text(f)[4] == 'n'
                &&& fault_text(f)[5] == 'e'
                &&& fault_text(f)[6] == ' '
                &&& fault_text(f)[7] == 'i'
            },
            Fault::LockTimeout(_) => {
                &&& fault_text(f)[0] == 'l'
                &&& fault_text(f)[1] == 'o'
                &&& fault_text(f)[2] == 'c'
                &&& fault_text(f)[3] == 'k'
                &&& fault_text(f)[4] == ' '
                &&& fault_text(f)[5] == 't'
                &&& fault_text(f)[6] == 'i'
                &&& fault_text(f)[7] == 'm'
            },
            Fault::LockOrderViolation(_) => {
                &&& fault_text(f)[0] == 'l'
                &&& fault_text(f)[1] == 'o'
                &&& fault_text(f)[2] == 'c'
                &&& fault_text(f)[3] == 'k'
                &&& fault_text(f)[4] == ' '
                &&& fault_text(f)[5] == 'o'
                &&& fault_text(f)[6] == 'r'
                &&& fault_text(f)[7] == 'd'
            },
            Fault::SnapshotTooOld(_) => {
                &&& fault_text(f)[0] == 's'
                &&& fault_text(f)[1] == 'n'
                &&& fault_text(f)[2] == 'a'
                &&& fault_text(f)[3] == 'p'
                &&& fault_text(f)[4] == 's'
                &&& fault_text(f)[5] == 'h'
                &&& fault_text(f)[6] == 'o'
                &&& fault_text(f)[7] == 't'
            },
            Fault::Corruption(_) => {
                &&& fault_text(f)[0] == 'C'
                &&& fault_text(f)[1] == 'o'
                &&& fault_text(f)[2] == 'r'
                &&& fault_text(f)[3] == 'r'
                &&& fault_text(f)[4] == 'u'
                &&& fault_text(f)[5] == 'p'
                &&& fault_text(f)[6] == 't'
                &&& fault_text(f)[7] == 'i'
            },
        },
{
    reveal_strlit("IO Error");
    reveal_strlit("Serialization Error");
    reveal_strlit("Bad file");
    reveal_strlit("Invalid row number ");
    reveal_strlit("No space in page");
    reveal_strlit("Lock contention.");
    reveal_strlit("Duplicate key ");
    reveal_strlit("Key not found ");
    reveal_strlit("Write conflict on key ");
    reveal_strlit(" — row was concurrently modified by another transaction");
    reveal_strlit(" — row was concurrently modified by another transaction; the entire transaction was rolled back");
    reveal_strlit("transaction is no longer active (already committed or rolled back)");
    reveal_strlit("Table name max length is ");
    reveal_strlit("Table name ");
    reveal_strlit(" uses the reserved __system. prefix");
    reveal_strlit("Unknown error ");
    reveal_strlit("Duplicate table name ");
    reveal_strlit("Missing key ");
    reveal_strlit("value too large: ");
    reveal_strlit("run page index ");
    reveal_strlit("Undo log error : ");
    reveal_strlit("Table not found : ");
    reveal_strlit("Page PageId(");
    reveal_strlit(") read mid-overflow-transition, retry");
    reveal_strlit("No PageContent factory registered for kind ");
    reveal_strlit("PageContent kind ");
    reveal_strlit(") has an invalid magic number — not a valid page, or badly corrupted");
    reveal_strlit(") failed its checksum — data is corrupted");
    reveal_strlit("Truncated or malformed value item bytes: ");
    reveal_strlit("WAL header mismatch: ");
    reveal_strlit("WAL corruption: ");
    reveal_strlit("Header corruption: ");
    reveal_strlit("engine is degraded: ");
    reveal_strlit("lock timeout: ");
    reveal_strlit("lock order violation: ");
    reveal_strlit("snapshot too old: ");
    reveal_strlit("Corruption: ");
    let t = fault_text(f);
    match f {
        Fault::TableNameInvalid(max, got) => {
            text::decimal_digits(got as nat);
            let d = text::decimal(got as nat);
            assert(t.last() == d[d.len() - 1]);
        },
        _ => {},
    }
}

/// Errors of different kinds have different messages.
#[verifier::rlimit(60)]
pub proof fn messages_tell_errors_apart(f: Fault, g: Fault)
    requires
        fault_text(f) == fault_text(g),
    ensures
        kind_of(f) == kind_of(g),
{
    message_parts(f);
    message_parts(g);
}

/// A message that ends in a text says which: two errors of one kind with equal
/// messages carry the same text.
#[verifier::rlimit(60)]
pub proof fn messages_carry_their_texts(f: Fault, g: Fault)
    requires
        fault_text(f) == fault_text(g),
    ensures
        f matches Fault::ReservedTableName(t) ==> g == Fault::ReservedTableName(t),
        f matches Fault::Unknown(t) ==> g == Fault::Unknown(t),
        f matches Fault::DuplicateName(t) ==> g == Fault::DuplicateName(t),
        f matches Fault::MissingKey(t) ==> g == Fault::MissingKey(t),
        f matches Fault::UndoLog(t) ==> g == Fault::UndoLog(t),
        f matches Fault::TableNotFound(t) ==> g == Fault::TableNotFound(t),
        f matches Fault::TruncatedValueItem(t) ==> g == Fault::TruncatedValueItem(t),
        f matches Fault::LogHeaderMismatch(t) ==> g == Fault::LogHeaderMismatch(t),
        f matches Fault::LogCorruption(t) ==> g == Fault::LogCorruption(t),
        f matches Fault::HeaderCorruption(t) ==> g == Fault::HeaderCorruption(t),
        f matches Fault::EngineDegraded(t) ==> g == Fault::EngineDegraded(t),
        f matches Fault::LockTimeout(t) ==> g == Fault::LockTimeout(t),
        f matches Fault::LockOrderViolation(t) ==> g == Fault::LockOrderViolation(t),
        f matches Fault::SnapshotTooOld(t) ==> g == Fault::SnapshotTooOld(t),
        f matches Fault::Corruption(t) ==> g == Fault::Corruption(t),
{
    messages_tell_errors_apart(f, g);
    match (f, g) {
        (Fault::ReservedTableName(s), Fault::ReservedTableName(t)) => {
            let n = "Table name "@.len() as int;
            assert(fault_text(f).subrange(n, n + s.len()) =~= s);
            assert(fault_text(g).subrange(n, n + t.len()) =~= t);
        },
        (Fault::Unknown(s), Fault::Unknown(t)) => {
            behind("Unknown error "@, s, t);
        },
        (Fault::DuplicateName(s), Fault::DuplicateName(t)) => {
            behind("Duplicate table name "@, s, t);
        },
        (Fault::MissingKey(s), Fault::MissingKey(t)) => {
            behind("Missing key "@, s, t);
        },
        (Fault::UndoLog(s), Fault::UndoLog(t)) => {
            behind("Undo log error : "@, s, t);
        },
        (Fault::TableNotFound(s), Fault::TableNotFound(t)) => {
            behind("Table not found : "@, s, t);
        },
        (Fault::TruncatedValueItem(s), Fault::TruncatedValueItem(t)) => {
            behind("Truncated or malformed value item bytes: "@, s, t);
        },
        (Fault::LogHeaderMismatch(s), Fault::LogHeaderMismatch(t)) => {
            behind("WAL header mismatch: "@, s, t);
        },
        (Fault::LogCorruption(s), Fault::LogCorruption(t)) => {
            behind("WAL corruption: "@, s, t);
        },
        (Fault::HeaderCorruption(s), Fault::HeaderCorruption(t)) => {
            behind("Header corruption: "@, s, t);
        },
        (Fault::EngineDegraded(s), Fault::EngineDegraded(t)) => {
            behind("engine is degraded: "@, s, t);
        },
        (Fault::LockTimeout(s), Fault::LockTimeout(t)) => {
            behind("lock timeout: "@, s, t);
        },
        (Fault::LockOrderViolation(s), Fault::LockOrderViolation(t)) => {
            behind("lock order violation: "@, s, t);
        },
        (Fault::SnapshotTooOld(s), Fault::SnapshotTooOld(t)) => {
            behind("snapshot too old: "@, s, t);
        },
        (Fault::Corruption(s), Fault::Corruption(t)) => {
            behind("Corruption: "@, s, t);
        },
        _ => {},
    }
}

/// What is behind the same front is the same, where the whole is.
proof fn behind(front: Seq<char>, s: Seq<char>, t: Seq<char>)
    requires
        front + s == front + t,
    ensures
        s == t,
{
    assert((front + s).skip(front.len() as int) =~= s);
    assert((front + t).skip(front.len() as int) =~= t);
}

/// Two keys that are printed at the front of the same text, with no digit right
/// behind them, are the same key.
pub proof fn key_texts_tell_keys_apart(a: Key, b: Key, s: Seq<char>, t: Seq<char>)
    requires
        key_text(a) + s == key_text(b) + t,
        s.len() > 0 ==> !text::is_digit(s[0]),
        t.len() > 0 ==> !text::is_digit(t[0]),
    ensures
        a == b,
        s == t,
{
    reveal_strlit("[");
    match (a, b) {
        (Key::Int(m), Key::Int(n)) => {
            text::decimal_ends_at_no_digit(m as nat, n as nat, s, t);
        },
        (Key::Bytes(x), Key::Bytes(y)) => {
            text::byte_lists_tell_bytes_apart(x, y, s, t);
        },
        (Key::Int(m), Key::Bytes(y)) => {
            text::decimal_digits(m as nat);
            assert((key_text(a) + s)[0] == text::decimal(m as nat)[0]);
            assert((key_text(b) + t)[0] == '[');
        },
        (Key::Bytes(x), Key::Int(n)) => {
            text::decimal_digits(n as nat);
            assert((key_text(b) + t)[0] == text::decimal(n as nat)[0]);
            assert((key_text(a) + s)[0] == '[');
        },
    }
}

/// A message that is about a key says which.
#[verifier::rlimit(60)]
pub proof fn messages_carry_their_keys(f: Fault, g: Fault)
    requires
        fault_text(f) == fault_text(g),
    ensures
        f matches Fault::DuplicateKey(k) ==> g == Fault::DuplicateKey(k),
        f matches Fault::KeyNotFound(k) ==> g == Fault::KeyNotFound(k),
        f matches Fault::WriteConflict(k) ==> g == Fault::WriteConflict(k),
        f matches Fault::WriteConflictTransactionAborted(k) ==> g
            == Fault::WriteConflictTransactionAborted(k),
{
    reveal_strlit(" — row was concurrently modified by another transaction");
    reveal_strlit(
        " — row was concurrently modified by another transaction; the entire transaction was rolled back",
    );
    messages_tell_errors_apart(f, g);
    let none = Seq::<char>::empty();
    match (f, g) {
        (Fault::DuplicateKey(a), Fault::DuplicateKey(b)) => {
            behind("Duplicate key "@, key_text(a), key_text(b));
            assert(key_text(a) + none =~= key_text(b) + none);
            key_texts_tell_keys_apart(a, b, none, none);
        },
        (Fault::KeyNotFound(a), Fault::KeyNotFound(b)) => {
            behind("Key not found "@, key_text(a), key_text(b));
            assert(key_text(a) + none =~= key_text(b) + none);
            key_texts_tell_keys_apart(a, b, none, none);
        },
        (Fault::WriteConflict(a), Fault::WriteConflict(b)) => {
            let p = "Write conflict on key "@;
            let q = " — row was concurrently modified by another transaction"@;
            assert(p + key_text(a) + q =~= p + (key_text(a) + q));
            assert(p + key_text(b) + q =~= p + (key_text(b) + q));
            behind(p, key_text(a) + q, key_text(b) + q);
            key_texts_tell_keys_apart(a, b, q, q);
        },
        (
            Fault::WriteConflictTransactionAborted(a),
            Fault::WriteConflictTransactionAborted(b),
        ) => {
            let p = "Write conflict on key "@;
            let q = " — row was concurrently modified by another transaction; the entire transaction was rolled back"@;
            assert(p + key_text(a) + q =~= p + (key_text(a) + q));
            assert(p + key_text(b) + q =~= p + (key_text(b) + q));
            behind(p, key_text(a) + q, key_text(b) + q);
            key_texts_tell_keys_apart(a, b, q, q);
        },
        _ => {},
    }
}

/// A message that is about numbers says which, and in which role.
#[verifier::rlimit(60)]
pub proof fn messages_carry_their_numbers(f: Fault, g: Fault)
    requires
        fault_text(f) == fault_text(g),
    ensures
        f matches Fault::BadRowNumber(n) ==> g == Fault::BadRowNumber(n),
        f matches Fault::TableNameInvalid(m, n) ==> g == Fault::TableNameInvalid(m, n),
        f matches Fault::TupleTooLarge(n, m) ==> g == Fault::TupleTooLarge(n, m),
{
    reveal_strlit(", got ");
    reveal_strlit(" byte(s), maximum allowed is ");
    reveal_strlit(" byte(s)");
    messages_tell_errors_apart(f, g);
    let none = Seq::<char>::empty();
    match (f, g) {
        (Fault::BadRowNumber(a), Fault::BadRowNumber(b)) => {
            behind("Invalid row number "@, text::decimal(a as nat), text::decimal(b as nat));
            assert(text::decimal(a as nat) + none =~= text::decimal(b as nat) + none);
            text::decimal_ends_at_no_digit(a as nat, b as nat, none, none);
        },
        (Fault::TableNameInvalid(a, x), Fault::TableNameInvalid(b, y)) => {
            two_numbers(
                "Table name max length is "@,
                ", got "@,
                none,
                a as nat,
                x as nat,
                b as nat,
                y as nat,
            );
        },
        (Fault::TupleTooLarge(a, x), Fault::TupleTooLarge(b, y)) => {
            two_numbers(
                "value too large: "@,
                " byte(s), maximum allowed is "@,
                " byte(s)"@,
                a as nat,
                x as nat,
                b as nat,
                y as nat,
            );
        },
        _ => {},
    }
}

/// Two numbers between the same words are the same where the whole is.
proof fn two_numbers(
    p: Seq<char>,
    q: Seq<char>,
    r: Seq<char>,
    a: nat,
    x: nat,
    b: nat,
    y: nat,
)
    requires
        p + text::decimal(a) + q + text::decimal(x) + r == p + text::decimal(b) + q + text::decimal(
            y,
        ) + r || (r.len() == 0 && p + text::decimal(a) + q + text::decimal(x) == p + text::decimal(
            b,
        ) + q + text::decimal(y)),
        q.len() > 0 && !text::is_digit(q[0]),
        r.len() > 0 ==> !text::is_digit(r[0]),
    ensures
        a == b,
        x == y,
{
    let da = text::decimal(a);
    let db = text::decimal(b);
    let dx = text::decimal(x);
    let dy = text::decimal(y);
    assert(p + da + q + dx + r =~= p + (da + (q + (dx + r))));
    assert(p + db + q + dy + r =~= p + (db + (q + (dy + r))));
    if r.len() == 0 {
        assert(p + da + q + dx + r =~= p + da + q + dx);
        assert(p + db + q + dy + r =~= p + db + q + dy);
    }
    behind(p, da + (q + (dx + r)), db + (q + (dy + r)));
    text::decimal_ends_at_no_digit(a, b, q + (dx + r), q + (dy + r));
    behind(q, dx + r, dy + r);
    text::decimal_ends_at_no_digit(x, y, r, r);
}

} // verus!

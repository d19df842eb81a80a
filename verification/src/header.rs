//! The header of a database file: what it says, how it is stored, and what is
//! refused.
use vstd::prelude::*;
use vstd::string::*;

use crate::codec;
use crate::codec::{get_le, pad, put_le, put_raw, put_u128, take_n, take_u128, CodecError};
use crate::error::{Fault, StoreError};
use crate::hash;
use crate::hash::fnv1a_32;
use crate::text;
use crate::text::push_decimal;
use crate::tuple::same_bytes;

verus! {

/// The first bytes of a database file.
pub const MAGIC: [u8; 2] = [0x53, 0x65];

/// Where the first page lies: the header has this much room.
pub const ZERO_PAGE_SIZE: u64 = 8192;

/// The page size of a database that asks for none.
pub const DEFAULT_PAGE_SIZE: u64 = 16384;

/// The version of the header's format that is written.
pub const HEADER_FORMAT_VERSION: u32 = 4;

/// The smallest page size.
pub const MIN_PAGE_SIZE: u64 = 4096;

/// The largest page size.
pub const MAX_PAGE_SIZE: u64 = 1048576;

/// The cap on an index key's size of a database that asks for none.
pub const DEFAULT_MAX_INDEX_KEY_SIZE: u64 = 512;

/// The smallest cap on an index key's size.
pub const MIN_MAX_INDEX_KEY_SIZE: u64 = 64;

/// The largest cap on an index key's size.
pub const MAX_MAX_INDEX_KEY_SIZE: u64 = 8192;

/// How many bytes are set aside for a header and read as one.
pub const HEADER_SIZE: u64 = 80;

/// The header of a database file.
#[derive(Clone, Copy, Debug, PartialEq)]
pub struct Header {
    pub magic: [u8; 2],
    pub format_version: u32,
    pub first_page_offset: u64,
    pub page_count: u64,
    pub page_size: u64,
    pub last_checkpoint: u128,
    /// The clock's next number at the last checkpoint: nothing below it is
    /// ever handed out again.
    pub counter: u64,
    /// The last checkpoint's floor: no record below it is needed.
    pub checkpoint_lsn: u64,
    pub max_index_key_size: u64,
    /// The checksum over all other fields.
    pub header_checksum: u32,
}

/// The header in the format before the current one, which had no cap on the
/// size of an index key.
#[derive(Clone, Copy, Debug, PartialEq)]
pub struct HeaderV3Shape {
    pub magic: [u8; 2],
    pub format_version: u32,
    pub first_page_offset: u64,
    pub page_count: u64,
    pub page_size: u64,
    pub last_checkpoint: u128,
    pub counter: u64,
    pub checkpoint_lsn: u64,
    pub header_checksum: u32,
}

// ---------------------------------------------------------------------------
// Checksums
// ---------------------------------------------------------------------------

/// What the older format's checksum is taken over.
pub open spec fn v3_sum_input(h: HeaderV3Shape) -> Seq<u8> {
    h.magic@ + codec::le_bytes(h.format_version as nat, 4) + codec::le_bytes(
        h.first_page_offset as nat,
        8,
    ) + codec::le_bytes(h.page_count as nat, 8) + codec::le_bytes(h.page_size as nat, 8)
        + codec::le_bytes(h.last_checkpoint as nat, 16) + codec::le_bytes(h.counter as nat, 8)
        + codec::le_bytes(h.checkpoint_lsn as nat, 8)
}

/// The header without the field that the older format lacks.
pub open spec fn as_v3(h: Header) -> HeaderV3Shape {
    HeaderV3Shape {
        magic: h.magic,
        format_version: h.format_version,
        first_page_offset: h.first_page_offset,
        page_count: h.page_count,
        page_size: h.page_size,
        last_checkpoint: h.last_checkpoint,
        counter: h.counter,
        checkpoint_lsn: h.checkpoint_lsn,
        header_checksum: h.header_checksum,
    }
}

/// What the checksum is taken over: every other field, at its full width.
pub open spec fn sum_input(h: Header) -> Seq<u8> {
    v3_sum_input(as_v3(h)) + codec::le_bytes(h.max_index_key_size as nat, 8)
}

/// The checksum that the header should carry.
pub open spec fn sum_of(h: Header) -> u32 {
    hash::fnv1a(sum_input(h))
}

/// The header with the checksum that it should carry.
pub open spec fn sealed(h: Header) -> Header {
    Header { header_checksum: sum_of(h), ..h }
}

impl HeaderV3Shape {
    /// What the checksum is taken over.
    pub fn checksum_input(&self) -> (v: Vec<u8>)
        ensures
            v@ == v3_sum_input(*self),
    {
        let mut v: Vec<u8> = Vec::new();
        put_raw(&mut v, &self.magic);
        put_le(&mut v, self.format_version as u128, 4);
        put_le(&mut v, self.first_page_offset as u128, 8);
        put_le(&mut v, self.page_count as u128, 8);
        put_le(&mut v, self.page_size as u128, 8);
        put_le(&mut v, self.last_checkpoint, 16);
        put_le(&mut v, self.counter as u128, 8);
        put_le(&mut v, self.checkpoint_lsn as u128, 8);
        assert(Seq::<u8>::empty() + self.magic@ =~= self.magic@);
        v
    }
}

// ---------------------------------------------------------------------------
// Validation
// ---------------------------------------------------------------------------

/// Is the number a power of two?
pub open spec fn power_of_two(n: nat) -> bool
    decreases n,
{
    n == 1 || (n > 1 && n % 2 == 0 && power_of_two(n / 2))
}

/// Is the number a power of two?
fn is_power_of_two(n: u64) -> (r: bool)
    ensures
        r == power_of_two(n as nat),
{
    let mut m: u64 = n;
    while m > 1 && m % 2 == 0
        invariant
            power_of_two(n as nat) == power_of_two(m as nat),
        decreases m,
    {
        m = m / 2;
    }
    m == 1
}

/// Can pages have this size?
pub open spec fn page_size_ok(n: u64) -> bool {
    power_of_two(n as nat) && MIN_PAGE_SIZE <= n <= MAX_PAGE_SIZE
}

/// The message for a checksum that does not hold.
pub open spec fn sum_text(stored: nat, computed: nat) -> Seq<char> {
    "header checksum mismatch: stored "@ + text::decimal(stored) + ", computed "@ + text::decimal(
        computed,
    )
}

/// The message for a page size that cannot be.
pub open spec fn page_size_text(n: nat) -> Seq<char> {
    "invalid page_size "@ + text::decimal(n) + " (must be a power of two in ["@ + text::decimal(
        MIN_PAGE_SIZE as nat,
    ) + ", "@ + text::decimal(MAX_PAGE_SIZE as nat) + "])"@
}

/// The message for a first page that overlaps the header.
pub open spec fn offset_text(n: nat) -> Seq<char> {
    "first_page_offset "@ + text::decimal(n) + " is smaller than the header itself"@
}

/// The message for a cap that cannot be.
pub open spec fn key_size_text(n: nat) -> Seq<char> {
    "invalid max_index_key_size "@ + text::decimal(n) + " (must be in ["@ + text::decimal(
        MIN_MAX_INDEX_KEY_SIZE as nat,
    ) + ", "@ + text::decimal(MAX_MAX_INDEX_KEY_SIZE as nat) + "])"@
}

/// What is wrong with the fields that all formats share, if anything.
pub open spec fn shared_flaw(stored: u32, computed: u32, page_size: u64, offset: u64) -> Option<
    Seq<char>,
> {
    if stored != computed {
        Some(sum_text(stored as nat, computed as nat))
    } else if !page_size_ok(page_size) {
        Some(page_size_text(page_size as nat))
    } else if offset < HEADER_SIZE {
        Some(offset_text(offset as nat))
    } else {
        None
    }
}

/// What is wrong with a header, if anything.
pub open spec fn flaw(h: Header) -> Option<Seq<char>> {
    if h.format_version != HEADER_FORMAT_VERSION {
        Some(
            "unsupported header format_version "@ + text::decimal(h.format_version as nat)
                + " (expected "@ + text::decimal(HEADER_FORMAT_VERSION as nat) + ")"@,
        )
    } else {
        match shared_flaw(h.header_checksum, sum_of(h), h.page_size, h.first_page_offset) {
            Some(t) => Some(t),
            None => if h.max_index_key_size < MIN_MAX_INDEX_KEY_SIZE || h.max_index_key_size
                > MAX_MAX_INDEX_KEY_SIZE {
                Some(key_size_text(h.max_index_key_size as nat))
            } else {
                None
            },
        }
    }
}

/// Does the header say what every header says that was written?
pub open spec fn as_written(h: Header) -> bool {
    &&& h.magic@ == MAGIC@
    &&& h.format_version == HEADER_FORMAT_VERSION
    &&& h.first_page_offset >= HEADER_SIZE
    &&& h.header_checksum == sum_of(h)
}

/// Are the sizes of pages and of index keys such as a header may name?
pub open spec fn sizes_ok(h: Header) -> bool {
    page_size_ok(h.page_size) && MIN_MAX_INDEX_KEY_SIZE <= h.max_index_key_size
        <= MAX_MAX_INDEX_KEY_SIZE
}

/// What is wrong with a header in the older format, if anything.
pub open spec fn v3_flaw(h: HeaderV3Shape) -> Option<Seq<char>> {
    shared_flaw(
        h.header_checksum,
        hash::fnv1a(v3_sum_input(h)),
        h.page_size,
        h.first_page_offset,
    )
}

/// A header in the older format, as one in the current format: it gets the
/// default for the field that it lacks.
pub open spec fn upgraded(h: HeaderV3Shape) -> Header {
    sealed(
        Header {
            magic: h.magic,
            format_version: HEADER_FORMAT_VERSION,
            first_page_offset: h.first_page_offset,
            page_count: h.page_count,
            page_size: h.page_size,
            last_checkpoint: h.last_checkpoint,
            counter: h.counter,
            checkpoint_lsn: h.checkpoint_lsn,
            max_index_key_size: DEFAULT_MAX_INDEX_KEY_SIZE,
            header_checksum: 0,
        },
    )
}

/// Checks the fields that all formats share.
fn check_shared(stored: u32, computed: u32, page_size: u64, offset: u64) -> (r: Option<String>)
    ensures
        match r {
            Some(t) => shared_flaw(stored, computed, page_size, offset) == Some(t@),
            None => shared_flaw(stored, computed, page_size, offset) is None,
        },
{
    if stored != computed {
        let mut t = "header checksum mismatch: stored ".to_owned();
        push_decimal(&mut t, stored as u64);
        t.append(", computed ");
        push_decimal(&mut t, computed as u64);
        return Some(t);
    }
    if !is_power_of_two(page_size) || page_size < MIN_PAGE_SIZE || page_size > MAX_PAGE_SIZE {
        let mut t = "invalid page_size ".to_owned();
        push_decimal(&mut t, page_size);
        t.append(" (must be a power of two in [");
        push_decimal(&mut t, MIN_PAGE_SIZE);
        t.append(", ");
        push_decimal(&mut t, MAX_PAGE_SIZE);
        t.append("])");
        return Some(t);
    }
    if offset < HEADER_SIZE {
        let mut t = "first_page_offset ".to_owned();
        push_decimal(&mut t, offset);
        t.append(" is smaller than the header itself");
        return Some(t);
    }
    None
}

impl HeaderV3Shape {
    /// Checks the header by the rules of its own format, and turns it into one
    /// in the current format.
    pub fn validate_and_upgrade(self) -> (r: Result<Header, StoreError>)
        ensures
            match r {
                Ok(h) => v3_flaw(self) is None && h == upgraded(self),
                Err(e) => v3_flaw(self) matches Some(t) && e@ == Fault::HeaderCorruption(t),
            },
    {
        let expected: u32 = fnv1a_32(self.checksum_input().as_slice());
        match check_shared(
            self.header_checksum,
            expected,
            self.page_size,
            self.first_page_offset,
        ) {
            Some(t) => {
                return Err(StoreError::HeaderCorruption(t));
            },
            None => {},
        }
        let mut header = Header {
            magic: self.magic,
            format_version: HEADER_FORMAT_VERSION,
            first_page_offset: self.first_page_offset,
            page_count: self.page_count,
            page_size: self.page_size,
            last_checkpoint: self.last_checkpoint,
            counter: self.counter,
            checkpoint_lsn: self.checkpoint_lsn,
            max_index_key_size: DEFAULT_MAX_INDEX_KEY_SIZE,
            header_checksum: 0,
        };
        header.seal();
        Ok(header)
    }
}

impl Header {
    /// What the checksum is taken over.
    pub fn checksum_input(&self) -> (v: Vec<u8>)
        ensures
            v@ == sum_input(*self),
    {
        let shared = HeaderV3Shape {
            magic: self.magic,
            format_version: self.format_version,
            first_page_offset: self.first_page_offset,
            page_count: self.page_count,
            page_size: self.page_size,
            last_checkpoint: self.last_checkpoint,
            counter: self.counter,
            checkpoint_lsn: self.checkpoint_lsn,
            header_checksum: self.header_checksum,
        };
        let mut v = shared.checksum_input();
        put_le(&mut v, self.max_index_key_size as u128, 8);
        v
    }

    /// The checksum that the header should carry.
    pub fn compute_checksum(&self) -> (sum: u32)
        ensures
            sum == sum_of(*self),
    {
        fnv1a_32(self.checksum_input().as_slice())
    }

    /// Gives the header the checksum that it should carry: to be done right
    /// before it is written.
    pub fn seal(&mut self)
        ensures
            *final(self) == sealed(*old(self)),
    {
        self.header_checksum = self.compute_checksum();
    }

    /// Checks a header in the current format before anything in it is trusted.
    pub fn validate(&self) -> (r: Result<(), StoreError>)
        ensures
            match r {
                Ok(()) => flaw(*self) is None,
                Err(e) => flaw(*self) matches Some(t) && e@ == Fault::HeaderCorruption(t),
            },
    {
        if self.format_version != HEADER_FORMAT_VERSION {
            let mut t = "unsupported header format_version ".to_owned();
            push_decimal(&mut t, self.format_version as u64);
            t.append(" (expected ");
            push_decimal(&mut t, HEADER_FORMAT_VERSION as u64);
            t.append(")");
            return Err(StoreError::HeaderCorruption(t));
        }
        match check_shared(
            self.header_checksum,
            self.compute_checksum(),
            self.page_size,
            self.first_page_offset,
        ) {
            Some(t) => {
                return Err(StoreError::HeaderCorruption(t));
            },
            None => {},
        }
        if self.max_index_key_size < MIN_MAX_INDEX_KEY_SIZE || self.max_index_key_size
            > MAX_MAX_INDEX_KEY_SIZE {
            let mut t = "invalid max_index_key_size ".to_owned();
            push_decimal(&mut t, self.max_index_key_size);
            t.append(" (must be in [");
            push_decimal(&mut t, MIN_MAX_INDEX_KEY_SIZE);
            t.append(", ");
            push_decimal(&mut t, MAX_MAX_INDEX_KEY_SIZE);
            t.append("])");
            return Err(StoreError::HeaderCorruption(t));
        }
        Ok(())
    }
}

// ---------------------------------------------------------------------------
// Bytes
// ---------------------------------------------------------------------------

/// The bytes of the fields that all formats share.
pub open spec fn enc_shared(h: HeaderV3Shape) -> Seq<u8> {
    h.magic@ + (codec::le_bytes(h.format_version as nat, 4) + (codec::le_bytes(
        h.first_page_offset as nat,
        8,
    ) + (codec::le_bytes(h.page_count as nat, 8) + (codec::le_bytes(h.page_size as nat, 8) + (
    codec::varint(h.last_checkpoint as nat) + (codec::le_bytes(h.counter as nat, 8)
        + codec::le_bytes(h.checkpoint_lsn as nat, 8)))))))
}

/// A header's bytes: every field of fixed width but the time of the last
/// checkpoint.
pub open spec fn enc_header(h: Header) -> Seq<u8> {
    enc_shared(as_v3(h)) + (codec::le_bytes(h.max_index_key_size as nat, 8) + codec::le_bytes(
        h.header_checksum as nat,
        4,
    ))
}

/// A header's bytes, with zeros behind them up to what is set aside.
pub open spec fn block(h: Header) -> Seq<u8> {
    codec::padded(enc_header(h), HEADER_SIZE as nat)
}

/// The bytes of a header in the older format.
pub open spec fn enc_v3(h: HeaderV3Shape) -> Seq<u8> {
    enc_shared(h) + codec::le_bytes(h.header_checksum as nat, 4)
}

/// The number of fixed width at the front of `s`.
pub open spec fn take_fixed_spec(s: Seq<u8>, width: nat) -> Result<(u128, Seq<u8>), CodecError> {
    match codec::take_n_spec(s, width) {
        Ok((b, rest)) => Ok((codec::le_value(b) as u128, rest)),
        Err(e) => Err(e),
    }
}

/// The two magic bytes.
pub open spec fn magic_of(b: Seq<u8>) -> [u8; 2] {
    choose|m: [u8; 2]| m@ == b
}

/// The fields that all formats share, at the front of `s`.
pub open spec fn take_shared_spec(s: Seq<u8>) -> Result<(HeaderV3Shape, Seq<u8>), CodecError> {
    match codec::take_n_spec(s, 2) {
        Err(e) => Err(e),
        Ok((m, s)) => match take_fixed_spec(s, 4) {
            Err(e) => Err(e),
            Ok((v, s)) => match take_fixed_spec(s, 8) {
                Err(e) => Err(e),
                Ok((offset, s)) => match take_fixed_spec(s, 8) {
                    Err(e) => Err(e),
                    Ok((pages, s)) => match take_fixed_spec(s, 8) {
                        Err(e) => Err(e),
                        Ok((size, s)) => match codec::take_u128_spec(s) {
                            Err(e) => Err(e),
                            Ok((at, s)) => match take_fixed_spec(s, 8) {
                                Err(e) => Err(e),
                                Ok((counter, s)) => match take_fixed_spec(s, 8) {
                                    Err(e) => Err(e),
                                    Ok((floor, s)) => Ok(
                                        (
                                            HeaderV3Shape {
                                                magic: magic_of(m),
                                                format_version: v as u32,
                                                first_page_offset: offset as u64,
                                                page_count: pages as u64,
                                                page_size: size as u64,
                                                last_checkpoint: at,
                                                counter: counter as u64,
                                                checkpoint_lsn: floor as u64,
                                                header_checksum: 0,
                                            },
                                            s,
                                        ),
                                    ),
                                },
                            },
                        },
                    },
                },
            },
        },
    }
}

/// The header in the older format at the front of `s`.
pub open spec fn take_v3_spec(s: Seq<u8>) -> Result<HeaderV3Shape, CodecError> {
    match take_shared_spec(s) {
        Err(e) => Err(e),
        Ok((h, s)) => match take_fixed_spec(s, 4) {
            Err(e) => Err(e),
            Ok((sum, _)) => Ok(HeaderV3Shape { header_checksum: sum as u32, ..h }),
        },
    }
}

/// The header in the current format at the front of `s`.
pub open spec fn take_header_spec(s: Seq<u8>) -> Result<Header, CodecError> {
    match take_shared_spec(s) {
        Err(e) => Err(e),
        Ok((h, s)) => match take_fixed_spec(s, 8) {
            Err(e) => Err(e),
            Ok((key_size, s)) => match take_fixed_spec(s, 4) {
                Err(e) => Err(e),
                Ok((sum, _)) => Ok(
                    Header {
                        magic: h.magic,
                        format_version: h.format_version,
                        first_page_offset: h.first_page_offset,
                        page_count: h.page_count,
                        page_size: h.page_size,
                        last_checkpoint: h.last_checkpoint,
                        counter: h.counter,
                        checkpoint_lsn: h.checkpoint_lsn,
                        max_index_key_size: key_size as u64,
                        header_checksum: sum as u32,
                    },
                ),
            },
        },
    }
}

/// What decoding makes of the bytes of a header, by the version they name.
pub open spec fn decoded(s: Seq<u8>) -> Result<Header, Fault> {
    if s.len() < 2 {
        Err(
            Fault::HeaderCorruption(
                "need at least 2 byte(s) for the magic, buffer is "@ + text::decimal(s.len())
                    + " byte(s)"@,
            ),
        )
    } else if s.take(2) != MAGIC@ {
        Err(Fault::File)
    } else if s.len() < 6 {
        Err(
            Fault::HeaderCorruption(
                "need at least 6 byte(s) for magic+format_version, buffer is "@ + text::decimal(
                    s.len(),
                ) + " byte(s)"@,
            ),
        )
    } else {
        let version = codec::le_value(s.subrange(2, 6));
        if version == 3 {
            match take_v3_spec(s) {
                Err(e) => Err(Fault::Serialization(e)),
                Ok(h) => match v3_flaw(h) {
                    Some(t) => Err(Fault::HeaderCorruption(t)),
                    None => Ok(upgraded(h)),
                },
            }
        } else if version == HEADER_FORMAT_VERSION {
            match take_header_spec(s) {
                Err(e) => Err(Fault::Serialization(e)),
                Ok(h) => match flaw(h) {
                    Some(t) => Err(Fault::HeaderCorruption(t)),
                    None => Ok(h),
                },
            }
        } else {
            Err(
                Fault::HeaderCorruption(
                    "unsupported header format_version "@ + text::decimal(version)
                        + " — this file may have been written by a newer, deprecated, or unrecognized build"@,
                ),
            )
        }
    }
}

/// Takes a number of fixed width off the front of `bytes`.
fn take_fixed(bytes: &[u8], width: usize) -> (r: Result<(u128, &[u8]), CodecError>)
    requires
        width <= 16,
    ensures
        match (r, take_fixed_spec(bytes@, width as nat)) {
            (Ok((v, rest)), Ok((w, tail))) => v == w && rest@ == tail && v < codec::le_limit(
                width as nat,
            ),
            (Err(e), Err(f)) => e == f,
            _ => false,
        },
{
    match take_n(bytes, width) {
        Ok((b, rest)) => Ok((get_le(b), rest)),
        Err(e) => Err(e),
    }
}

/// Takes the fields that all formats share off the front of `bytes`.
fn take_shared(bytes: &[u8]) -> (r: Result<(HeaderV3Shape, &[u8]), CodecError>)
    ensures
        match (r, take_shared_spec(bytes@)) {
            (Ok((h, rest)), Ok((w, tail))) => h == w && rest@ == tail,
            (Err(e), Err(f)) => e == f,
            _ => false,
        },
{
    proof {
        codec::le_limits();
    }
    let (m, rest) = match take_n(bytes, 2) {
        Ok(x) => x,
        Err(e) => {
            return Err(e);
        },
    };
    let magic: [u8; 2] = [m[0], m[1]];
    proof {
        assert(magic@ =~= m@);
        let w = magic_of(m@);
        assert(w@ == m@);
        assert(w@ =~= magic@);
        assert(w == magic);
    }
    let (version, rest) = match take_fixed(rest, 4) {
        Ok(x) => x,
        Err(e) => {
            return Err(e);
        },
    };
    let (offset, rest) = match take_fixed(rest, 8) {
        Ok(x) => x,
        Err(e) => {
            return Err(e);
        },
    };
    let (pages, rest) = match take_fixed(rest, 8) {
        Ok(x) => x,
        Err(e) => {
            return Err(e);
        },
    };
    let (size, rest) = match take_fixed(rest, 8) {
        Ok(x) => x,
        Err(e) => {
            return Err(e);
        },
    };
    let (at, rest) = match take_u128(rest) {
        Ok(x) => x,
        Err(e) => {
            return Err(e);
        },
    };
    let (counter, rest) = match take_fixed(rest, 8) {
        Ok(x) => x,
        Err(e) => {
            return Err(e);
        },
    };
    let (floor, rest) = match take_fixed(rest, 8) {
        Ok(x) => x,
        Err(e) => {
            return Err(e);
        },
    };
    Ok(
        (
            HeaderV3Shape {
                magic,
                format_version: version as u32,
                first_page_offset: offset as u64,
                page_count: pages as u64,
                page_size: size as u64,
                last_checkpoint: at,
                counter: counter as u64,
                checkpoint_lsn: floor as u64,
                header_checksum: 0,
            },
            rest,
        ),
    )
}

impl HeaderV3Shape {
    /// Decodes a header in the older format.
    fn from_bytes(bytes: &[u8]) -> (r: Result<HeaderV3Shape, CodecError>)
        ensures
            r == take_v3_spec(bytes@),
    {
        let (h, rest) = match take_shared(bytes) {
            Ok(x) => x,
            Err(e) => {
                return Err(e);
            },
        };
        match take_fixed(rest, 4) {
            Ok((sum, _)) => Ok(HeaderV3Shape { header_checksum: sum as u32, ..h }),
            Err(e) => Err(e),
        }
    }
}

impl Header {
    /// Decodes a header in the current format.
    fn from_bytes(bytes: &[u8]) -> (r: Result<Header, CodecError>)
        ensures
            r == take_header_spec(bytes@),
    {
        let (h, rest) = match take_shared(bytes) {
            Ok(x) => x,
            Err(e) => {
                return Err(e);
            },
        };
        let (key_size, rest) = match take_fixed(rest, 8) {
            Ok(x) => x,
            Err(e) => {
                return Err(e);
            },
        };
        match take_fixed(rest, 4) {
            Ok((sum, _)) => Ok(
                Header {
                    magic: h.magic,
                    format_version: h.format_version,
                    first_page_offset: h.first_page_offset,
                    page_count: h.page_count,
                    page_size: h.page_size,
                    last_checkpoint: h.last_checkpoint,
                    counter: h.counter,
                    checkpoint_lsn: h.checkpoint_lsn,
                    max_index_key_size: key_size as u64,
                    header_checksum: sum as u32,
                },
            ),
            Err(e) => Err(e),
        }
    }

    /// The header's bytes.
    pub fn to_bytes(&self) -> (out: Vec<u8>)
        ensures
            out@ == enc_header(*self),
    {
        let mut out: Vec<u8> = Vec::new();
        put_raw(&mut out, &self.magic);
        put_le(&mut out, self.format_version as u128, 4);
        put_le(&mut out, self.first_page_offset as u128, 8);
        put_le(&mut out, self.page_count as u128, 8);
        put_le(&mut out, self.page_size as u128, 8);
        put_u128(&mut out, self.last_checkpoint);
        put_le(&mut out, self.counter as u128, 8);
        put_le(&mut out, self.checkpoint_lsn as u128, 8);
        put_le(&mut out, self.max_index_key_size as u128, 8);
        put_le(&mut out, self.header_checksum as u128, 4);
        assert(out@ =~= enc_header(*self));
        out
    }

    /// The header's bytes, with zeros behind them up to what is set aside.
    pub fn to_block(&self) -> (out: Vec<u8>)
        ensures
            out@ == block(*self),
    {
        let mut out = self.to_bytes();
        pad(&mut out, 80);
        out
    }

    /// Decodes the header of a database file and checks it, by the rules of
    /// the format that it names. A header in the older format is upgraded.
    pub fn decode(bytes: &[u8]) -> (r: Result<Header, StoreError>)
        ensures
            match r {
                Ok(h) => decoded(bytes@) == Ok::<Header, Fault>(h),
                Err(e) => decoded(bytes@) == Err::<Header, Fault>(e@),
            },
    {
        let len: usize = bytes.len();
        if len < 2 {
            let mut t = "need at least 2 byte(s) for the magic, buffer is ".to_owned();
            push_decimal(&mut t, len as u64);
            t.append(" byte(s)");
            return Err(StoreError::HeaderCorruption(t));
        }
        let magic = vstd::slice::slice_subrange(bytes, 0, 2);
        assert(magic@ =~= bytes@.take(2));
        if !same_bytes(magic, &MAGIC) {
            return Err(StoreError::FileError);
        }
        if len < 6 {
            let mut t =
                "need at least 6 byte(s) for magic+format_version, buffer is ".to_owned();
            push_decimal(&mut t, len as u64);
            t.append(" byte(s)");
            return Err(StoreError::HeaderCorruption(t));
        }
        proof {
            codec::le_limits();
        }
        let version: u32 = get_le(vstd::slice::slice_subrange(bytes, 2, 6)) as u32;
        if version == 3 {
            match HeaderV3Shape::from_bytes(bytes) {
                Ok(h) => h.validate_and_upgrade(),
                Err(e) => Err(StoreError::SerializationError(e)),
            }
        } else if version == HEADER_FORMAT_VERSION {
            match Header::from_bytes(bytes) {
                Ok(h) => match h.validate() {
                    Ok(()) => Ok(h),
                    Err(e) => Err(e),
                },
                Err(e) => Err(StoreError::SerializationError(e)),
            }
        } else {
            let mut t = "unsupported header format_version ".to_owned();
            push_decimal(&mut t, version as u64);
            t.append(
                " — this file may have been written by a newer, deprecated, or unrecognized build",
            );
            Err(StoreError::HeaderCorruption(t))
        }
    }
}

// ---------------------------------------------------------------------------
// Laws
// ---------------------------------------------------------------------------

/// A number of fixed width reads back.
proof fn fixed_round_trip(n: nat, width: nat, rest: Seq<u8>)
    requires
        n < codec::le_limit(width),
        n <= u128::MAX,
    ensures
        take_fixed_spec(codec::le_bytes(n, width) + rest, width) == Ok::<
            (u128, Seq<u8>),
            CodecError,
        >((n as u128, rest)),
{
    codec::le_bytes_len(n, width);
    codec::le_round_trip(n, width);
    let s = codec::le_bytes(n, width) + rest;
    assert(s.take(width as int) =~= codec::le_bytes(n, width));
    assert(s.skip(width as int) =~= rest);
}

/// The fields that all formats share read back.
proof fn shared_round_trip(h: HeaderV3Shape, rest: Seq<u8>)
    ensures
        take_shared_spec(enc_shared(h) + rest) == Ok::<(HeaderV3Shape, Seq<u8>), CodecError>(
            (HeaderV3Shape { header_checksum: 0, ..h }, rest),
        ),
        (enc_shared(h) + rest).take(2) == h.magic@,
        codec::le_value((enc_shared(h) + rest).subrange(2, 6)) == h.format_version,
        enc_shared(h).len() >= 6,
{
    codec::le_limits();
    let e2 = codec::le_bytes(h.format_version as nat, 4);
    let e3 = codec::le_bytes(h.first_page_offset as nat, 8);
    let e4 = codec::le_bytes(h.page_count as nat, 8);
    let e5 = codec::le_bytes(h.page_size as nat, 8);
    let e6 = codec::varint(h.last_checkpoint as nat);
    let e7 = codec::le_bytes(h.counter as nat, 8);
    let e8 = codec::le_bytes(h.checkpoint_lsn as nat, 8);
    let t8 = e8 + rest;
    let t7 = e7 + t8;
    let t6 = e6 + t7;
    let t5 = e5 + t6;
    let t4 = e4 + t5;
    let t3 = e3 + t4;
    let t2 = e2 + t3;
    let s = enc_shared(h) + rest;
    codec::regroup(e7, e8, rest);
    codec::regroup(e6, e7 + e8, rest);
    codec::regroup(e5, e6 + (e7 + e8), rest);
    codec::regroup(e4, e5 + (e6 + (e7 + e8)), rest);
    codec::regroup(e3, e4 + (e5 + (e6 + (e7 + e8))), rest);
    codec::regroup(e2, e3 + (e4 + (e5 + (e6 + (e7 + e8)))), rest);
    codec::regroup(h.magic@, e2 + (e3 + (e4 + (e5 + (e6 + (e7 + e8))))), rest);
    assert(s == h.magic@ + t2);
    assert(s.take(2) =~= h.magic@);
    assert(s.skip(2) =~= t2);
    let m = magic_of(h.magic@);
    assert(m@ == h.magic@);
    assert(m =~= h.magic);
    codec::le_bytes_len(h.format_version as nat, 4);
    codec::le_round_trip(h.format_version as nat, 4);
    assert(s.subrange(2, 6) =~= e2);
    fixed_round_trip(h.format_version as nat, 4, t3);
    fixed_round_trip(h.first_page_offset as nat, 8, t4);
    fixed_round_trip(h.page_count as nat, 8, t5);
    fixed_round_trip(h.page_size as nat, 8, t6);
    codec::u128_round_trip(h.last_checkpoint, t7);
    fixed_round_trip(h.counter as nat, 8, t8);
    fixed_round_trip(h.checkpoint_lsn as nat, 8, rest);
}

/// A sound header that was written is read back as it was, whatever follows
/// it: the room that is left in its slot is filled with zeros.
pub proof fn header_round_trip(h: Header, rest: Seq<u8>)
    requires
        h.magic@ == MAGIC@,
        h.format_version == HEADER_FORMAT_VERSION,
    ensures
        decoded(enc_header(h) + rest) == match flaw(h) {
            Some(t) => Err::<Header, Fault>(Fault::HeaderCorruption(t)),
            None => Ok::<Header, Fault>(h),
        },
{
    codec::le_limits();
    let a = enc_shared(as_v3(h));
    let b = codec::le_bytes(h.max_index_key_size as nat, 8);
    let c = codec::le_bytes(h.header_checksum as nat, 4);
    codec::regroup(b, c, rest);
    codec::regroup(a, b + c, rest);
    shared_round_trip(as_v3(h), b + (c + rest));
    fixed_round_trip(h.max_index_key_size as nat, 8, c + rest);
    fixed_round_trip(h.header_checksum as nat, 4, rest);
}

/// A sound header in the older format opens as one in the current format,
/// with the default for the field that it lacks and nothing else changed; and
/// what it becomes is sound in turn.
pub proof fn older_header_opens(h: HeaderV3Shape, rest: Seq<u8>)
    requires
        h.magic@ == MAGIC@,
        h.format_version == 3,
        v3_flaw(h) is None,
    ensures
        decoded(enc_v3(h) + rest) == Ok::<Header, Fault>(upgraded(h)),
        flaw(upgraded(h)) is None,
{
    codec::le_limits();
    let a = enc_shared(h);
    let c = codec::le_bytes(h.header_checksum as nat, 4);
    codec::regroup(a, c, rest);
    shared_round_trip(h, c + rest);
    fixed_round_trip(h.header_checksum as nat, 4, rest);
}

/// Sealing makes a header's checksum hold, and changes nothing else.
pub proof fn sealed_holds(h: Header)
    ensures
        sealed(h).header_checksum == sum_of(sealed(h)),
        sealed(sealed(h)) == sealed(h),
{
}

/// A header that can be read is one that was written, with sizes that it may
/// name.
pub proof fn decoded_is_sound(s: Seq<u8>)
    ensures
        decoded(s) matches Ok(h) ==> as_written(h) && sizes_ok(h) && flaw(h) is None,
{
    if let Ok(h) = decoded(s) {
        let m: [u8; 2] = MAGIC;
        assert(codec::take_n_spec(s, 2) matches Ok((b, _)) && b =~= s.take(2));
        assert(m@ == s.take(2));
        assert(magic_of(s.take(2))@ == s.take(2));
        assert(h.magic@ == MAGIC@);
    }
}

// ---------------------------------------------------------------------------
// Which headers are trusted
// ---------------------------------------------------------------------------

/// Between a power of two and the next there is none.
proof fn no_power_between(n: nat, p: nat)
    requires
        power_of_two(p),
        p < n < 2 * p,
    ensures
        !power_of_two(n),
    decreases n,
{
    if power_of_two(n) && p > 1 {
        no_power_between(n / 2, p / 2);
    }
}

/// The sizes that pages can have, each the double of the one before.
proof fn page_sizes(n: u64)
    ensures
        page_size_ok(n) <==> n == 4096 || n == 8192 || n == 16384 || n == 32768 || n == 65536 || n
            == 131072 || n == 262144 || n == 524288 || n == 1048576,
{
    assert(power_of_two(4096)) by {
        reveal_with_fuel(power_of_two, 14);
    }
    assert(power_of_two(8192));
    assert(power_of_two(16384));
    assert(power_of_two(32768));
    assert(power_of_two(65536));
    assert(power_of_two(131072));
    assert(power_of_two(262144));
    assert(power_of_two(524288));
    assert(power_of_two(1048576));
    let m = n as nat;
    if 4096 < m < 8192 {
        no_power_between(m, 4096);
    } else if 8192 < m < 16384 {
        no_power_between(m, 8192);
    } else if 16384 < m < 32768 {
        no_power_between(m, 16384);
    } else if 32768 < m < 65536 {
        no_power_between(m, 32768);
    } else if 65536 < m < 131072 {
        no_power_between(m, 65536);
    } else if 131072 < m < 262144 {
        no_power_between(m, 131072);
    } else if 262144 < m < 524288 {
        no_power_between(m, 262144);
    } else if 524288 < m < 1048576 {
        no_power_between(m, 524288);
    }
}

/// A header is trusted exactly where it is in the current format, carries its
/// checksum, and names a page size from 4 KiB to 1 MiB that is a power of two,
/// a first page behind the header and a cap on index keys from 64 to 8192.
pub proof fn trusted_headers(h: Header)
    ensures
        flaw(h) is None <==> {
            &&& h.format_version == 4
            &&& h.header_checksum == hash::fnv1a(sum_input(h))
            &&& h.page_size == 4096 || h.page_size == 8192 || h.page_size == 16384 || h.page_size
                == 32768 || h.page_size == 65536 || h.page_size == 131072 || h.page_size == 262144
                || h.page_size == 524288 || h.page_size == 1048576
            &&& h.first_page_offset >= 80
            &&& 64 <= h.max_index_key_size <= 8192
        },
{
    page_sizes(h.page_size);
}

/// A header in the older format is trusted by the same rules, but for the field
/// that it lacks; and what it says is what the header says that it becomes.
pub proof fn trusted_older_headers(h: HeaderV3Shape)
    ensures
        v3_flaw(h) is None <==> {
            &&& h.header_checksum == hash::fnv1a(v3_sum_input(h))
            &&& h.page_size == 4096 || h.page_size == 8192 || h.page_size == 16384 || h.page_size
                == 32768 || h.page_size == 65536 || h.page_size == 131072 || h.page_size == 262144
                || h.page_size == 524288 || h.page_size == 1048576
            &&& h.first_page_offset >= 80
        },
        as_v3(upgraded(h)) == (HeaderV3Shape {
            format_version: 4,
            header_checksum: upgraded(h).header_checksum,
            ..h
        }),
        upgraded(h).max_index_key_size == 512,
{
    page_sizes(h.page_size);
}

/// The checksum covers every field: headers that it is taken over alike are
/// alike but for the checksum that they carry.
#[verifier::rlimit(60)]
pub proof fn checksum_covers_every_field(a: Header, b: Header)
    requires
        sum_input(a) == sum_input(b),
    ensures
        (Header { header_checksum: 0, ..a }) == (Header { header_checksum: 0, ..b }),
{
    codec::le_limits();
    older_sum_parts(as_v3(a));
    older_sum_parts(as_v3(b));
    codec::le_bytes_len(a.max_index_key_size as nat, 8);
    codec::le_bytes_len(b.max_index_key_size as nat, 8);
    codec::le_round_trip(a.max_index_key_size as nat, 8);
    codec::le_round_trip(b.max_index_key_size as nat, 8);
    let s = sum_input(a);
    let t = sum_input(b);
    assert(s.take(62) =~= v3_sum_input(as_v3(a)));
    assert(t.take(62) =~= v3_sum_input(as_v3(b)));
    assert(s.skip(62) =~= codec::le_bytes(a.max_index_key_size as nat, 8));
    assert(t.skip(62) =~= codec::le_bytes(b.max_index_key_size as nat, 8));
    assert(a.magic@ =~= b.magic@);
    assert(a.magic =~= b.magic);
}

/// Where the fields stand in what the older format's checksum is taken over.
proof fn older_sum_parts(h: HeaderV3Shape)
    ensures
        v3_sum_input(h).len() == 62,
        v3_sum_input(h).take(2) == h.magic@,
        codec::le_value(v3_sum_input(h).subrange(2, 6)) == h.format_version,
        codec::le_value(v3_sum_input(h).subrange(6, 14)) == h.first_page_offset,
        codec::le_value(v3_sum_input(h).subrange(14, 22)) == h.page_count,
        codec::le_value(v3_sum_input(h).subrange(22, 30)) == h.page_size,
        codec::le_value(v3_sum_input(h).subrange(30, 46)) == h.last_checkpoint,
        codec::le_value(v3_sum_input(h).subrange(46, 54)) == h.counter,
        codec::le_value(v3_sum_input(h).subrange(54, 62)) == h.checkpoint_lsn,
{
    codec::le_limits();
    let s = v3_sum_input(h);
    fixed_facts(h.format_version as nat, 4);
    fixed_facts(h.first_page_offset as nat, 8);
    fixed_facts(h.page_count as nat, 8);
    fixed_facts(h.page_size as nat, 8);
    fixed_facts(h.last_checkpoint as nat, 16);
    fixed_facts(h.counter as nat, 8);
    fixed_facts(h.checkpoint_lsn as nat, 8);
    assert(s.take(2) =~= h.magic@);
    assert(s.subrange(2, 6) =~= codec::le_bytes(h.format_version as nat, 4));
    assert(s.subrange(6, 14) =~= codec::le_bytes(h.first_page_offset as nat, 8));
    assert(s.subrange(14, 22) =~= codec::le_bytes(h.page_count as nat, 8));
    assert(s.subrange(22, 30) =~= codec::le_bytes(h.page_size as nat, 8));
    assert(s.subrange(30, 46) =~= codec::le_bytes(h.last_checkpoint as nat, 16));
    assert(s.subrange(46, 54) =~= codec::le_bytes(h.counter as nat, 8));
    assert(s.subrange(54, 62) =~= codec::le_bytes(h.checkpoint_lsn as nat, 8));
}

/// A number in a fixed width has that width and reads back.
proof fn fixed_facts(n: nat, width: nat)
    requires
        n < codec::le_limit(width),
    ensures
        codec::le_bytes(n, width).len() == width,
        codec::le_value(codec::le_bytes(n, width)) == n,
{
    codec::le_bytes_len(n, width);
    codec::le_round_trip(n, width);
}

} // verus!

//! Byte-level encoding shared by every on-disk structure.
//!
//! Integers are either fixed-width little-endian or variable-length (seven
//! bits a byte, least significant group first, the high bit set on every byte
//! but the last). A decoder takes the front of a byte string and hands back
//! the value with the bytes that follow it.
use vstd::prelude::*;

verus! {

/// Why a byte string could not be decoded.
#[derive(Clone, Copy, Debug, PartialEq, Eq, Structural)]
pub enum CodecError {
    /// The bytes end before the value does.
    UnexpectedEnd,
    /// A variable-length integer does not end in time, or is too large.
    BadVarint,
    /// A boolean byte is neither 0 nor 1.
    BadBool,
    /// The byte that says whether an optional value follows is neither 0 nor 1.
    BadOption,
    /// A string's bytes are not UTF-8.
    BadUtf8,
    /// A tag names no known variant.
    UnknownTag,
}

/// Joining byte strings is associative.
pub proof fn regroup(a: Seq<u8>, b: Seq<u8>, c: Seq<u8>)
    ensures
        (a + b) + c == a + (b + c),
{
    assert((a + b) + c =~= a + (b + c));
}

// ---------------------------------------------------------------------------
// Fixed-width little-endian integers
// ---------------------------------------------------------------------------

/// The low `width` bytes of `n`, least significant first.
pub open spec fn le_bytes(n: nat, width: nat) -> Seq<u8>
    decreases width,
{
    if width == 0 {
        seq![]
    } else {
        seq![(n % 256) as u8] + le_bytes(n / 256, (width - 1) as nat)
    }
}

/// The number whose little-endian bytes are `s`.
pub open spec fn le_value(s: Seq<u8>) -> nat
    decreases s.len(),
{
    if s.len() == 0 {
        0
    } else {
        s[0] as nat + 256 * le_value(s.skip(1))
    }
}

/// 256 to the power of `width`: one more than the largest number that `width`
/// bytes hold.
pub open spec fn le_limit(width: nat) -> nat
    decreases width,
{
    if width == 0 {
        1
    } else {
        256 * le_limit((width - 1) as nat)
    }
}

/// The limits of the widths in use, as numbers.
pub proof fn le_limits()
    ensures
        le_limit(2) == 0x1_0000,
        le_limit(4) == 0x1_0000_0000,
        le_limit(8) == 0x1_0000_0000_0000_0000,
        le_limit(16) == 0x1_0000_0000_0000_0000_0000_0000_0000_0000nat,
{
    reveal_with_fuel(le_limit, 17);
}

/// An encoding has exactly the width asked for.
pub proof fn le_bytes_len(n: nat, width: nat)
    ensures
        le_bytes(n, width).len() == width,
    decreases width,
{
    if width > 0 {
        le_bytes_len(n / 256, (width - 1) as nat);
    }
}

/// Reading back a little-endian encoding gives the number that was written,
/// whenever it fits in the width.
pub proof fn le_round_trip(n: nat, width: nat)
    requires
        n < le_limit(width),
    ensures
        le_value(le_bytes(n, width)) == n,
    decreases width,
{
    if width > 0 {
        le_bytes_len(n / 256, (width - 1) as nat);
        le_round_trip(n / 256, (width - 1) as nat);
        assert(le_bytes(n, width).skip(1) =~= le_bytes(n / 256, (width - 1) as nat));
    }
}

/// What `width` bytes hold stays below the width's limit.
pub proof fn le_value_bound(s: Seq<u8>)
    ensures
        le_value(s) < le_limit(s.len()),
    decreases s.len(),
{
    if s.len() > 0 {
        le_value_bound(s.skip(1));
    }
}

/// Appends the low `width` bytes of `v`, least significant first.
pub fn put_le(out: &mut Vec<u8>, v: u128, width: usize)
    ensures
        final(out)@ == old(out)@ + le_bytes(v as nat, width as nat),
{
    let mut left: u128 = v;
    let mut i: usize = 0;
    while i < width
        invariant
            i <= width,
            old(out)@ + le_bytes(v as nat, width as nat) == out@ + le_bytes(
                left as nat,
                (width - i) as nat,
            ),
        decreases width - i,
    {
        let ghost before = out@;
        let ghost tail = le_bytes((left / 256) as nat, (width - i - 1) as nat);
        out.push((left % 256) as u8);
        assert(before + (seq![(left % 256) as u8] + tail) =~= out@ + tail);
        left = left / 256;
        i = i + 1;
    }
    assert(out@ + le_bytes(left as nat, 0) =~= out@);
}

/// The number whose little-endian bytes are `bytes`.
pub fn get_le(bytes: &[u8]) -> (v: u128)
    requires
        bytes@.len() <= 16,
    ensures
        v == le_value(bytes@),
        v < le_limit(bytes@.len()),
{
    let mut v: u128 = 0;
    let mut i: usize = bytes.len();
    proof {
        assert(bytes@.skip(i as int) =~= seq![]);
        le_value_bound(bytes@);
    }
    while i > 0
        invariant
            i <= bytes@.len() <= 16,
            v == le_value(bytes@.skip(i as int)),
        decreases i,
    {
        i = i - 1;
        proof {
            assert(bytes@.skip(i as int).skip(1) =~= bytes@.skip(i + 1));
            le_value_bound(bytes@.skip(i + 1));
            le_limit_grows((bytes@.len() - i - 1) as nat, 15);
            reveal_with_fuel(le_limit, 17);
        }
        v = v * 256 + (bytes[i] as u128);
    }
    assert(bytes@.skip(0) =~= bytes@);
    v
}

proof fn le_limit_grows(a: nat, b: nat)
    requires
        a <= b,
    ensures
        le_limit(a) <= le_limit(b),
    decreases b,
{
    if a < b {
        le_limit_grows(a, (b - 1) as nat);
    }
}

// ---------------------------------------------------------------------------
// Variable-length integers
// ---------------------------------------------------------------------------

/// The variable-length encoding of `n`.
pub open spec fn varint(n: nat) -> Seq<u8>
    decreases n,
{
    if n < 128 {
        seq![n as u8]
    } else {
        seq![(n % 128 + 128) as u8] + varint(n / 128)
    }
}

/// Takes a variable-length integer of at most `max` bytes off the front of
/// `s`; a `max`-th byte may hold at most `top`.
pub open spec fn take_varint(s: Seq<u8>, max: nat, top: nat) -> Result<(nat, Seq<u8>), CodecError>
    decreases max,
{
    if max == 0 {
        Err(CodecError::BadVarint)
    } else if s.len() == 0 {
        Err(CodecError::UnexpectedEnd)
    } else if s[0] < 128 {
        if max == 1 && s[0] > top {
            Err(CodecError::BadVarint)
        } else {
            Ok((s[0] as nat, s.skip(1)))
        }
    } else {
        match take_varint(s.skip(1), (max - 1) as nat, top) {
            Ok((n, rest)) => Ok(((s[0] - 128 + 128 * n) as nat, rest)),
            Err(e) => Err(e),
        }
    }
}

/// One more than the largest number that `max` groups hold, the last of them
/// being at most `top`.
pub open spec fn varint_limit(max: nat, top: nat) -> nat
    decreases max,
{
    if max <= 1 {
        top + 1
    } else {
        128 * varint_limit((max - 1) as nat, top)
    }
}

/// The limits of the integer widths in use, as numbers.
pub proof fn varint_limits()
    ensures
        varint_limit(3, 3) == 0x1_0000,
        varint_limit(5, 15) == 0x1_0000_0000,
        varint_limit(10, 1) == 0x1_0000_0000_0000_0000,
        varint_limit(19, 3) == 0x1_0000_0000_0000_0000_0000_0000_0000_0000nat,
{
    reveal_with_fuel(varint_limit, 20);
}

/// Taking back a variable-length encoding gives the number that was written
/// and leaves what follows it.
pub proof fn varint_round_trip(n: nat, rest: Seq<u8>, max: nat, top: nat)
    requires
        1 <= max,
        top < 128,
        n < varint_limit(max, top),
    ensures
        take_varint(varint(n) + rest, max, top) == Ok::<(nat, Seq<u8>), CodecError>((n, rest)),
    decreases max,
{
    let s = varint(n) + rest;
    if n < 128 {
        assert(s.skip(1) =~= rest);
    } else {
        varint_round_trip(n / 128, rest, (max - 1) as nat, top);
        assert(s.skip(1) =~= varint(n / 128) + rest);
    }
}

/// A larger number takes no fewer bytes.
pub proof fn varint_grows(a: nat, b: nat)
    requires
        a <= b,
    ensures
        varint(a).len() <= varint(b).len(),
    decreases b,
{
    if b >= 128 && a >= 128 {
        varint_grows(a / 128, b / 128);
    }
}

/// A number below the limit of `max` groups takes between one and `max` bytes.
pub proof fn varint_len(n: nat, max: nat, top: nat)
    requires
        1 <= max,
        top < 128,
        n < varint_limit(max, top),
    ensures
        1 <= varint(n).len() <= max,
    decreases max,
{
    if n >= 128 {
        varint_len(n / 128, (max - 1) as nat, top);
    }
}

/// What a decoder took is never larger than the width allows.
pub proof fn take_varint_bound(s: Seq<u8>, max: nat, top: nat)
    requires
        top < 128,
    ensures
        take_varint(s, max, top) matches Ok((n, rest)) ==> n < varint_limit(max, top)
            && rest.len() < s.len(),
    decreases max,
{
    if max > 0 && s.len() > 0 {
        varint_limit_least(max, top);
        if s[0] >= 128 {
            take_varint_bound(s.skip(1), (max - 1) as nat, top);
        }
    }
}

proof fn varint_limit_least(max: nat, top: nat)
    ensures
        varint_limit(max, top) >= 1,
        max >= 2 ==> varint_limit(max, top) >= 128,
    decreases max,
{
    if max > 1 {
        varint_limit_least((max - 1) as nat, top);
    }
}

/// The 16-bit integer at the front of `s`.
pub open spec fn take_u16_spec(s: Seq<u8>) -> Result<(u16, Seq<u8>), CodecError> {
    match take_varint(s, 3, 3) {
        Ok((n, rest)) => Ok((n as u16, rest)),
        Err(e) => Err(e),
    }
}

/// The 32-bit integer at the front of `s`.
pub open spec fn take_u32_spec(s: Seq<u8>) -> Result<(u32, Seq<u8>), CodecError> {
    match take_varint(s, 5, 15) {
        Ok((n, rest)) => Ok((n as u32, rest)),
        Err(e) => Err(e),
    }
}

/// The 64-bit integer at the front of `s`.
pub open spec fn take_u64_spec(s: Seq<u8>) -> Result<(u64, Seq<u8>), CodecError> {
    match take_varint(s, 10, 1) {
        Ok((n, rest)) => Ok((n as u64, rest)),
        Err(e) => Err(e),
    }
}

/// The 128-bit integer at the front of `s`.
pub open spec fn take_u128_spec(s: Seq<u8>) -> Result<(u128, Seq<u8>), CodecError> {
    match take_varint(s, 19, 3) {
        Ok((n, rest)) => Ok((n as u128, rest)),
        Err(e) => Err(e),
    }
}

/// A decoder's result, as its specification gives it.
pub open spec fn took<T: View>(
    got: Result<(T, &[u8]), CodecError>,
    want: Result<(T::V, Seq<u8>), CodecError>,
) -> bool {
    match (got, want) {
        (Ok((v, rest)), Ok((w, tail))) => v@ == w && rest@ == tail,
        (Err(e), Err(f)) => e == f,
        _ => false,
    }
}

/// `postcard::to_allocvec` on a `u64`: the integer's variable-length
/// encoding. It writes to a growing vector, so it cannot fail.
#[verifier::external_body]
pub(crate) fn varint_u64(v: u64) -> (out: Vec<u8>)
    ensures
        out@ == varint(v as nat),
{
    postcard::to_allocvec(&v).unwrap()
}

/// `postcard::to_allocvec` on a `u128`: the integer's variable-length
/// encoding. It writes to a growing vector, so it cannot fail.
#[verifier::external_body]
pub(crate) fn varint_u128(v: u128) -> (out: Vec<u8>)
    ensures
        out@ == varint(v as nat),
{
    postcard::to_allocvec(&v).unwrap()
}

/// `postcard::take_from_bytes` for a `u16`: up to three bytes, the third at
/// most 3.
#[verifier::external_body]
pub(crate) fn take_u16(bytes: &[u8]) -> (r: Result<(u16, &[u8]), CodecError>)
    ensures
        took(r, take_u16_spec(bytes@)),
{
    match postcard::take_from_bytes::<u16>(bytes) {
        Ok(taken) => Ok(taken),
        Err(postcard::Error::DeserializeUnexpectedEnd) => Err(CodecError::UnexpectedEnd),
        Err(_) => Err(CodecError::BadVarint),
    }
}

/// `postcard::take_from_bytes` for a `u32`: up to five bytes, the fifth at
/// most 15.
#[verifier::external_body]
pub(crate) fn take_u32(bytes: &[u8]) -> (r: Result<(u32, &[u8]), CodecError>)
    ensures
        took(r, take_u32_spec(bytes@)),
{
    match postcard::take_from_bytes::<u32>(bytes) {
        Ok(taken) => Ok(taken),
        Err(postcard::Error::DeserializeUnexpectedEnd) => Err(CodecError::UnexpectedEnd),
        Err(_) => Err(CodecError::BadVarint),
    }
}

/// `postcard::take_from_bytes` for a `u64`: up to ten bytes, the tenth at
/// most 1.
#[verifier::external_body]
pub(crate) fn take_u64(bytes: &[u8]) -> (r: Result<(u64, &[u8]), CodecError>)
    ensures
        took(r, take_u64_spec(bytes@)),
{
    match postcard::take_from_bytes::<u64>(bytes) {
        Ok(taken) => Ok(taken),
        Err(postcard::Error::DeserializeUnexpectedEnd) => Err(CodecError::UnexpectedEnd),
        Err(_) => Err(CodecError::BadVarint),
    }
}

/// `postcard::take_from_bytes` for a `u128`: up to nineteen bytes, the
/// nineteenth at most 3.
#[verifier::external_body]
pub(crate) fn take_u128(bytes: &[u8]) -> (r: Result<(u128, &[u8]), CodecError>)
    ensures
        took(r, take_u128_spec(bytes@)),
{
    match postcard::take_from_bytes::<u128>(bytes) {
        Ok(taken) => Ok(taken),
        Err(postcard::Error::DeserializeUnexpectedEnd) => Err(CodecError::UnexpectedEnd),
        Err(_) => Err(CodecError::BadVarint),
    }
}

// ---------------------------------------------------------------------------
// Bytes, strings, booleans, optional integers
// ---------------------------------------------------------------------------

/// One past the largest length or integer that an encoding can carry.
pub const WIDE: u128 = 0x1_0000_0000_0000_0000;

/// A byte string, preceded by its length.
pub open spec fn enc_bytes(b: Seq<u8>) -> Seq<u8> {
    varint(b.len()) + b
}

/// Takes `n` bytes off the front of `s`.
pub open spec fn take_n_spec(s: Seq<u8>, n: nat) -> Result<(Seq<u8>, Seq<u8>), CodecError> {
    if s.len() < n {
        Err(CodecError::UnexpectedEnd)
    } else {
        Ok((s.take(n as int), s.skip(n as int)))
    }
}

/// The byte string at the front of `s`.
pub open spec fn take_bytes_spec(s: Seq<u8>) -> Result<(Seq<u8>, Seq<u8>), CodecError> {
    match take_u64_spec(s) {
        Ok((n, rest)) => take_n_spec(rest, n as nat),
        Err(e) => Err(e),
    }
}

/// A string: the length of its UTF-8 bytes, then the bytes.
pub open spec fn enc_text(t: Seq<char>) -> Seq<u8> {
    enc_bytes(vstd::utf8::encode_utf8(t))
}

/// The string at the front of `s`.
pub open spec fn take_text_spec(s: Seq<u8>) -> Result<(Seq<char>, Seq<u8>), CodecError> {
    match take_bytes_spec(s) {
        Ok((b, rest)) => if vstd::utf8::valid_utf8(b) {
            Ok((vstd::utf8::decode_utf8(b), rest))
        } else {
            Err(CodecError::BadUtf8)
        },
        Err(e) => Err(e),
    }
}

/// A boolean: one byte, 0 or 1.
pub open spec fn enc_bool(b: bool) -> Seq<u8> {
    seq![if b { 1u8 } else { 0u8 }]
}

/// The boolean at the front of `s`.
pub open spec fn take_bool_spec(s: Seq<u8>) -> Result<(bool, Seq<u8>), CodecError> {
    if s.len() == 0 {
        Err(CodecError::UnexpectedEnd)
    } else if s[0] > 1 {
        Err(CodecError::BadBool)
    } else {
        Ok((s[0] == 1, s.skip(1)))
    }
}

/// An optional integer: 0 for none, or 1 and the integer.
pub open spec fn enc_opt(v: Option<u64>) -> Seq<u8> {
    match v {
        None => seq![0u8],
        Some(n) => seq![1u8] + varint(n as nat),
    }
}

/// The optional integer at the front of `s`.
pub open spec fn take_opt_spec(s: Seq<u8>) -> Result<(Option<u64>, Seq<u8>), CodecError> {
    if s.len() == 0 {
        Err(CodecError::UnexpectedEnd)
    } else if s[0] == 0 {
        Ok((None, s.skip(1)))
    } else if s[0] == 1 {
        match take_u64_spec(s.skip(1)) {
            Ok((n, rest)) => Ok((Some(n), rest)),
            Err(e) => Err(e),
        }
    } else {
        Err(CodecError::BadOption)
    }
}

/// A 64-bit integer comes back as it was written.
pub proof fn u64_round_trip(n: u64, rest: Seq<u8>)
    ensures
        take_u64_spec(varint(n as nat) + rest) == Ok::<(u64, Seq<u8>), CodecError>((n, rest)),
        1 <= varint(n as nat).len() <= 10,
{
    varint_limits();
    varint_round_trip(n as nat, rest, 10, 1);
    varint_len(n as nat, 10, 1);
}

/// A 128-bit integer comes back as it was written.
pub proof fn u128_round_trip(n: u128, rest: Seq<u8>)
    ensures
        take_u128_spec(varint(n as nat) + rest) == Ok::<(u128, Seq<u8>), CodecError>((n, rest)),
        1 <= varint(n as nat).len() <= 19,
{
    varint_limits();
    varint_round_trip(n as nat, rest, 19, 3);
    varint_len(n as nat, 19, 3);
}

/// A 16-bit integer comes back as it was written.
pub proof fn u16_round_trip(n: u16, rest: Seq<u8>)
    ensures
        take_u16_spec(varint(n as nat) + rest) == Ok::<(u16, Seq<u8>), CodecError>((n, rest)),
        1 <= varint(n as nat).len() <= 3,
{
    varint_limits();
    varint_round_trip(n as nat, rest, 3, 3);
    varint_len(n as nat, 3, 3);
}

/// A byte string comes back as it was written.
pub proof fn bytes_round_trip(b: Seq<u8>, rest: Seq<u8>)
    requires
        b.len() < WIDE,
    ensures
        take_bytes_spec(enc_bytes(b) + rest) == Ok::<(Seq<u8>, Seq<u8>), CodecError>((b, rest)),
{
    u64_round_trip(b.len() as u64, b + rest);
    assert(enc_bytes(b) + rest =~= varint(b.len()) + (b + rest));
    assert((b + rest).take(b.len() as int) =~= b);
    assert((b + rest).skip(b.len() as int) =~= rest);
}

/// A string comes back as it was written.
pub proof fn text_round_trip(t: Seq<char>, rest: Seq<u8>)
    requires
        vstd::utf8::encode_utf8(t).len() < WIDE,
    ensures
        take_text_spec(enc_text(t) + rest) == Ok::<(Seq<char>, Seq<u8>), CodecError>((t, rest)),
{
    bytes_round_trip(vstd::utf8::encode_utf8(t), rest);
    vstd::utf8::encode_utf8_valid_utf8(t);
    vstd::utf8::encode_utf8_decode_utf8(t);
}

/// A boolean comes back as it was written.
pub proof fn bool_round_trip(b: bool, rest: Seq<u8>)
    ensures
        take_bool_spec(enc_bool(b) + rest) == Ok::<(bool, Seq<u8>), CodecError>((b, rest)),
{
    assert((enc_bool(b) + rest).skip(1) =~= rest);
}

/// An optional integer comes back as it was written.
pub proof fn opt_round_trip(v: Option<u64>, rest: Seq<u8>)
    ensures
        take_opt_spec(enc_opt(v) + rest) == Ok::<(Option<u64>, Seq<u8>), CodecError>((v, rest)),
        1 <= enc_opt(v).len() <= 11,
{
    let s = enc_opt(v) + rest;
    match v {
        None => {
            assert(s.skip(1) =~= rest);
        },
        Some(n) => {
            assert(s.skip(1) =~= varint(n as nat) + rest);
            u64_round_trip(n, rest);
        },
    }
}

/// Appends the variable-length encoding of `v`.
pub fn put_u64(out: &mut Vec<u8>, v: u64)
    ensures
        final(out)@ == old(out)@ + varint(v as nat),
{
    let mut bytes = varint_u64(v);
    out.append(&mut bytes);
}

/// Appends the variable-length encoding of `v`.
pub fn put_u128(out: &mut Vec<u8>, v: u128)
    ensures
        final(out)@ == old(out)@ + varint(v as nat),
{
    let mut bytes = varint_u128(v);
    out.append(&mut bytes);
}

/// Appends `b` as it is.
pub fn put_raw(out: &mut Vec<u8>, b: &[u8])
    ensures
        final(out)@ == old(out)@ + b@,
{
    for i in 0..b.len()
        invariant
            out@ == old(out)@ + b@.take(i as int),
    {
        out.push(b[i]);
        assert(b@.take(i + 1) =~= b@.take(i as int).push(b@[i as int]));
    }
    assert(b@.take(b@.len() as int) =~= b@);
}

/// Appends `b`, preceded by its length.
pub fn put_bytes(out: &mut Vec<u8>, b: &[u8])
    ensures
        final(out)@ == old(out)@ + enc_bytes(b@),
{
    put_u64(out, b.len() as u64);
    put_raw(out, b);
    assert(out@ =~= old(out)@ + enc_bytes(b@));
}

/// Appends the string `t`, preceded by its length in bytes.
pub fn put_text(out: &mut Vec<u8>, t: &str)
    ensures
        final(out)@ == old(out)@ + enc_text(t@),
{
    put_bytes(out, t.as_bytes());
}

/// Appends a boolean's byte.
pub fn put_bool(out: &mut Vec<u8>, b: bool)
    ensures
        final(out)@ == old(out)@ + enc_bool(b),
{
    out.push(if b { 1 } else { 0 });
    assert(out@ =~= old(out)@ + enc_bool(b));
}

/// Appends an optional integer.
pub fn put_opt(out: &mut Vec<u8>, v: Option<u64>)
    ensures
        final(out)@ == old(out)@ + enc_opt(v),
{
    match v {
        None => {
            out.push(0);
        },
        Some(n) => {
            out.push(1);
            put_u64(out, n);
        },
    }
    assert(out@ =~= old(out)@ + enc_opt(v));
}

/// Takes `n` bytes off the front of `bytes`.
pub fn take_n(bytes: &[u8], n: usize) -> (r: Result<(&[u8], &[u8]), CodecError>)
    ensures
        took(r, take_n_spec(bytes@, n as nat)),
{
    if bytes.len() < n {
        return Err(CodecError::UnexpectedEnd);
    }
    let (head, tail) = bytes.split_at(n);
    assert(tail@ =~= bytes@.skip(n as int));
    assert(head@ =~= bytes@.take(n as int));
    Ok((head, tail))
}

/// Takes the byte string off the front of `bytes`.
pub fn take_bytes(bytes: &[u8]) -> (r: Result<(&[u8], &[u8]), CodecError>)
    ensures
        took(r, take_bytes_spec(bytes@)),
{
    let (n, rest) = match take_u64(bytes) {
        Ok(taken) => taken,
        Err(e) => {
            return Err(e);
        },
    };
    if n > rest.len() as u64 {
        return Err(CodecError::UnexpectedEnd);
    }
    take_n(rest, n as usize)
}

/// `std::str::from_utf8`: the string that the bytes encode, or nothing where
/// they are not UTF-8.
#[verifier::external_body]
fn utf8_text(bytes: &[u8]) -> (r: Option<&str>)
    ensures
        r matches Some(t) ==> vstd::utf8::valid_utf8(bytes@) && t@ == vstd::utf8::decode_utf8(
            bytes@,
        ),
        r is None ==> !vstd::utf8::valid_utf8(bytes@),
{
    std::str::from_utf8(bytes).ok()
}

/// Takes the string off the front of `bytes`.
pub fn take_text(bytes: &[u8]) -> (r: Result<(String, &[u8]), CodecError>)
    ensures
        took(r, take_text_spec(bytes@)),
{
    match take_bytes(bytes) {
        Ok((b, rest)) => match utf8_text(b) {
            Some(t) => Ok((t.to_owned(), rest)),
            None => Err(CodecError::BadUtf8),
        },
        Err(e) => Err(e),
    }
}

/// Takes the boolean off the front of `bytes`.
pub fn take_bool(bytes: &[u8]) -> (r: Result<(bool, &[u8]), CodecError>)
    ensures
        took(r, take_bool_spec(bytes@)),
{
    let (head, rest) = match take_n(bytes, 1) {
        Ok(taken) => taken,
        Err(e) => {
            return Err(e);
        },
    };
    if head[0] > 1 {
        Err(CodecError::BadBool)
    } else {
        Ok((head[0] == 1, rest))
    }
}

/// Takes the optional integer off the front of `bytes`.
pub fn take_opt(bytes: &[u8]) -> (r: Result<(Option<u64>, &[u8]), CodecError>)
    ensures
        took(r, take_opt_spec(bytes@)),
{
    let (head, rest) = match take_n(bytes, 1) {
        Ok(taken) => taken,
        Err(e) => {
            return Err(e);
        },
    };
    if head[0] == 0 {
        Ok((None, rest))
    } else if head[0] == 1 {
        match take_u64(rest) {
            Ok((n, tail)) => Ok((Some(n), tail)),
            Err(e) => Err(e),
        }
    } else {
        Err(CodecError::BadOption)
    }
}

// ---------------------------------------------------------------------------
// Padding
// ---------------------------------------------------------------------------

/// Bytes, with zeros behind them up to a length.
pub open spec fn padded(s: Seq<u8>, n: nat) -> Seq<u8> {
    s + Seq::new(
        if s.len() < n {
            (n - s.len()) as nat
        } else {
            0
        },
        |i: int| 0u8,
    )
}

/// Appends zeros up to a length.
pub fn pad(out: &mut Vec<u8>, n: usize)
    ensures
        final(out)@ == padded(old(out)@, n as nat),
{
    let ghost was = out@;
    while out.len() < n
        invariant
            was.len() <= out@.len(),
            out@.len() <= n || out@.len() == was.len(),
            out@ == was + Seq::new((out@.len() - was.len()) as nat, |i: int| 0u8),
        decreases n - out@.len(),
    {
        let ghost before = out@;
        out.push(0);
        assert(out@ =~= was + Seq::new((out@.len() - was.len()) as nat, |i: int| 0u8));
    }
    assert(out@ =~= padded(was, n as nat));
}

} // verus!

//! The 32-bit FNV-1a hash that guards log frames, pages and headers.
use vstd::prelude::*;

verus! {

/// The hash of the empty string.
pub const FNV_OFFSET: u32 = 0x811C_9DC5;

/// The factor that every step multiplies by.
pub const FNV_PRIME: u32 = 0x0100_0193;

/// One step: fold `byte` into the running hash.
pub open spec fn fnv_step(hash: u32, byte: u8) -> u32 {
    ((hash ^ (byte as u32)) as int * FNV_PRIME as int % 0x1_0000_0000) as u32
}

/// FNV-1a over a byte string, from the first byte to the last.
pub open spec fn fnv1a(bytes: Seq<u8>) -> u32
    decreases bytes.len(),
{
    if bytes.len() == 0 {
        FNV_OFFSET
    } else {
        fnv_step(fnv1a(bytes.drop_last()), bytes.last())
    }
}

/// FNV-1a of `bytes`, in 32-bit arithmetic.
pub fn fnv1a_32(bytes: &[u8]) -> (hash: u32)
    ensures
        hash == fnv1a(bytes@),
{
    let mut hash: u32 = FNV_OFFSET;
    for i in 0..bytes.len()
        invariant
            hash == fnv1a(bytes@.take(i as int)),
    {
        let mixed: u32 = hash ^ (bytes[i] as u32);
        hash = mixed.wrapping_mul(FNV_PRIME);
        assert(bytes@.take(i + 1).drop_last() =~= bytes@.take(i as int));
    }
    assert(bytes@.take(bytes@.len() as int) =~= bytes@);
    hash
}

/// FNV-1a of `bytes`, computed in 64-bit arithmetic with the hash kept to its
/// low 32 bits: the same number as `fnv1a_32`.
pub fn db_hash(bytes: &[u8]) -> (hash: u64)
    ensures
        hash == fnv1a(bytes@),
{
    let mut hash: u64 = FNV_OFFSET as u64;
    for i in 0..bytes.len()
        invariant
            hash == fnv1a(bytes@.take(i as int)),
    {
        let mixed: u64 = hash ^ (bytes[i] as u64);
        proof {
            let low: u32 = hash as u32;
            let byte: u8 = bytes@[i as int];
            assert(mixed == (low ^ (byte as u32)) as u64);
            assert(mixed * 0x0100_0193 <= u64::MAX) by (nonlinear_arith)
                requires
                    mixed <= 0xFFFF_FFFFu64,
            ;
        }
        let product: u64 = mixed * (FNV_PRIME as u64);
        assert(product & 0xFFFF_FFFF == product % 0x1_0000_0000) by (bit_vector);
        hash = product & 0xFFFF_FFFF;
        assert(bytes@.take(i + 1).drop_last() =~= bytes@.take(i as int));
    }
    assert(bytes@.take(bytes@.len() as int) =~= bytes@);
    hash
}

/// The hash of nothing is the offset basis, and every further byte is mixed in
/// by an exclusive or and one multiplication with the prime, modulo 2^32.
pub proof fn hash_goes_byte_by_byte(s: Seq<u8>, b: u8)
    ensures
        fnv1a(Seq::empty()) == 2166136261,
        fnv1a(s.push(b)) == (fnv1a(s) ^ (b as u32)) * 16777619 % 4294967296,
{
    assert(s.push(b).drop_last() =~= s);
}

} // verus!

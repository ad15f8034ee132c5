//! The two hashes behind field keys: a byte-string hash of the FNV-1a family
//! and a multiply-xor mixer that folds one more word into a running hash.

use vstd::prelude::*;

verus! {

/// The multiplier of the mixer.
pub const FX_SEED: u64 = 0x517c_c1b7_2722_0a95;

/// The hash of the empty byte string.
pub const FNV_OFFSET: u64 = 0xcbf2_9ce4_8422_2325;

/// The multiplier of the byte-string hash.
pub const FNV_PRIME: u64 = 0x0000_0100_0000_01b3;

/// The low 64 bits of `a * b`.
pub open spec fn mul_u64(a: u64, b: u64) -> u64 {
    ((a as nat * b as nat) % 0x1_0000_0000_0000_0000) as u64
}

/// `hash` turned left by five bits, xor-ed with `word`, times the seed.
pub open spec fn spec_add_u64_to_hash(hash: u64, word: u64) -> u64 {
    mul_u64(((hash << 5) | (hash >> 59)) ^ word, FX_SEED)
}

/// Folds `word` into `hash`.
pub fn add_u64_to_hash(hash: u64, word: u64) -> (r: u64)
    ensures
        r == spec_add_u64_to_hash(hash, word),
{
    (((hash << 5) | (hash >> 59)) ^ word).wrapping_mul(FX_SEED)
}

/// The hash of a byte string: from the offset, each byte in turn is xor-ed in
/// and the result multiplied by the prime.
pub open spec fn spec_hash_bytes(bytes: Seq<u8>) -> u64
    decreases bytes.len(),
{
    if bytes.len() == 0 {
        FNV_OFFSET
    } else {
        mul_u64(spec_hash_bytes(bytes.drop_last()) ^ (bytes.last() as u64), FNV_PRIME)
    }
}

/// Hashes a byte string.
pub fn hash_bytes(bytes: &[u8]) -> (r: u64)
    ensures
        r == spec_hash_bytes(bytes@),
{
    let mut hash: u64 = FNV_OFFSET;
    let mut i: usize = 0;
    while i < bytes.len()
        invariant
            i <= bytes@.len(),
            hash == spec_hash_bytes(bytes@.take(i as int)),
        decreases bytes@.len() - i,
    {
        proof {
            assert(bytes@.take(i + 1).drop_last() =~= bytes@.take(i as int));
        }
        hash = (hash ^ (bytes[i] as u64)).wrapping_mul(FNV_PRIME);
        i += 1;
    }
    proof {
        assert(bytes@.take(i as int) =~= bytes@);
    }
    hash
}

} // verus!

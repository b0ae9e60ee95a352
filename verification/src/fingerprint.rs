//! Content fingerprints: a 64-bit FNV-1a hash over bytes.
//!
//! Fingerprints detect whether a file or a chunk changed since it was last
//! indexed; they are compared for equality only.

use vstd::prelude::*;

verus! {

/// FNV-1a offset basis.
pub const FNV_OFFSET: u64 = 0xcbf29ce484222325;

/// FNV-1a prime.
pub const FNV_PRIME: u64 = 0x100000001b3;

/// One FNV-1a round: xor the byte in, then multiply by the prime mod 2^64.
pub open spec fn fnv1a_step(h: u64, b: u8) -> u64 {
    vstd::wrapping::u64_specs::wrapping_mul(h ^ (b as u64), FNV_PRIME)
}

/// FNV-1a over a whole byte sequence, starting from `seed`.
pub open spec fn fnv1a(s: Seq<u8>, seed: u64) -> u64
    decreases s.len(),
{
    if s.len() == 0 {
        seed
    } else {
        fnv1a_step(fnv1a(s.drop_last(), seed), s.last())
    }
}

/// FNV-1a hash of `bytes` from an explicit seed.
pub fn fnv64(bytes: &[u8], seed: u64) -> (h: u64)
    ensures
        h == fnv1a(bytes@, seed),
{
    let mut h: u64 = seed;
    let mut i: usize = 0;
    while i < bytes.len()
        invariant
            i <= bytes@.len(),
            h == fnv1a(bytes@.take(i as int), seed),
        decreases bytes@.len() - i,
    {
        let b = bytes[i];
        h = (h ^ (b as u64)).wrapping_mul(FNV_PRIME);
        proof {
            assert(bytes@.take(i + 1).drop_last() =~= bytes@.take(i as int));
            assert(bytes@.take(i + 1).last() == bytes@[i as int]);
        }
        i = i + 1;
    }
    proof {
        assert(bytes@.take(bytes@.len() as int) =~= bytes@);
    }
    h
}

/// The content fingerprint of a byte string.
pub fn fingerprint64(bytes: &[u8]) -> (h: u64)
    ensures
        h == fnv1a(bytes@, FNV_OFFSET),
{
    fnv64(bytes, FNV_OFFSET)
}

} // verus!

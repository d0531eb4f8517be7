//! FNV-1a 64-bit hash: fast and non-cryptographic, chosen for trusted batch
//! input as a deliberate performance/security trade-off. Not resistant to
//! adversarial key collisions.

use vstd::prelude::*;

verus! {

/// FNV-1a 64-bit offset basis.
pub const FNV_OFFSET_BASIS: u64 = 0xcbf29ce484222325;

/// FNV-1a 64-bit prime.
pub const FNV_PRIME: u64 = 0x100000001b3;

/// One FNV-1a step: xor the byte into the state, then multiply by the prime
/// modulo two to the sixty-fourth.
pub open spec fn fnv_step(h: u64, b: u8) -> u64 {
    vstd::wrapping::u64_specs::wrapping_mul(h ^ (b as u64), FNV_PRIME)
}

/// FNV-1a digest of `s`, continued from state `h`.
pub open spec fn fnv_from(h: u64, s: Seq<u8>) -> u64
    decreases s.len(),
{
    if s.len() == 0 {
        h
    } else {
        fnv_step(fnv_from(h, s.drop_last()), s.last())
    }
}

/// FNV-1a digest of a whole byte sequence.
pub open spec fn fnv1a(s: Seq<u8>) -> u64 {
    fnv_from(FNV_OFFSET_BASIS, s)
}

/// Running FNV-1a hasher state.
pub struct FnvHasher(pub u64);

impl Default for FnvHasher {
    /// A fresh hasher starts at the offset basis.
    fn default() -> (h: FnvHasher)
        ensures
            h.0 == FNV_OFFSET_BASIS,
    {
        FnvHasher(FNV_OFFSET_BASIS)
    }
}

impl FnvHasher {
    /// The digest of everything written so far.
    pub fn finish(&self) -> (r: u64)
        ensures
            r == self.0,
    {
        self.0
    }

    /// Fold `bytes` into the hasher state, byte by byte.
    pub fn write(&mut self, bytes: &[u8])
        ensures
            final(self).0 == fnv_from(old(self).0, bytes@),
    {
        let ghost start: u64 = self.0;
        let mut hash = self.0;
        let mut i: usize = 0;
        while i < bytes.len()
            invariant
                i <= bytes@.len(),
                hash == fnv_from(start, bytes@.take(i as int)),
            decreases bytes@.len() - i,
        {
            hash = (hash ^ (bytes[i] as u64)).wrapping_mul(FNV_PRIME);
            proof {
                assert(bytes@.take(i + 1).drop_last() =~= bytes@.take(i as int));
                assert(bytes@.take(i + 1).last() == bytes@[i as int]);
            }
            i = i + 1;
        }
        proof {
            assert(bytes@.take(bytes@.len() as int) =~= bytes@);
        }
        self.0 = hash;
    }
}

/// FNV-1a digest of a byte slice, via a fresh hasher.
pub fn fnv_hash(bytes: &[u8]) -> (h: u64)
    ensures
        h == fnv1a(bytes@),
{
    let mut hasher = FnvHasher::default();
    hasher.write(bytes);
    hasher.finish()
}

} // verus!

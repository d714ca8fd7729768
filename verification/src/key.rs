//! The hashing capability a key type must supply.
//!
//! The table is generic over its key type; all it asks of a key is a
//! deterministic hash and an equality test, both tied by contract to the
//! key's abstract view.  Determinism is what makes probing sound: equal
//! keys must always start their probe sequence at the same home slot.

use vstd::prelude::*;
use vstd::string::StrSliceExecFns;

verus! {

/// FNV-1a 64-bit offset basis.
pub const FNV_OFFSET: u64 = 0xcbf29ce484222325;

/// FNV-1a 64-bit prime.
pub const FNV_PRIME: u64 = 0x100000001b3;

/// One FNV-1a mixing step: fold a character into the running hash.
pub open spec fn fnv64_step(h: u64, c: char) -> u64 {
    vstd::wrapping::u64_specs::wrapping_mul(h ^ (c as u64), FNV_PRIME)
}

/// The FNV-1a hash of a character sequence, defined left to right.
pub open spec fn fnv64(s: Seq<char>) -> u64
    decreases s.len(),
{
    if s.len() == 0 {
        FNV_OFFSET
    } else {
        fnv64_step(fnv64(s.drop_last()), s.last())
    }
}

/// A key usable by the open-addressed table: hashable and comparable,
/// with both operations pinned to the key's abstract view.
pub trait HashKey: View + Sized {
    /// The hash value of a key, as a function of its view alone.  Two
    /// keys with equal views therefore always hash alike.
    spec fn hash_of(kv: Self::V) -> u64;

    /// Compute the hash the probe sequence starts from.
    fn hash_key(&self) -> (h: u64)
        ensures
            h == Self::hash_of(self@),
    ;

    /// Decide whether two keys are the same key, i.e. have equal views.
    fn key_eq(&self, other: &Self) -> (eq: bool)
        ensures
            eq == (self@ == other@),
    ;
}

impl HashKey for String {
    open spec fn hash_of(kv: Seq<char>) -> u64 {
        fnv64(kv)
    }

    fn hash_key(&self) -> (h: u64) {
        let text: &str = self.as_str();
        let n: usize = text.unicode_len();
        let mut h: u64 = FNV_OFFSET;
        let mut i: usize = 0;
        while i < n
            invariant
                text@ == self@,
                n == self@.len(),
                i <= n,
                h == fnv64(self@.subrange(0, i as int)),
            decreases n - i,
        {
            let c = text.get_char(i);
            h = (h ^ (c as u64)).wrapping_mul(FNV_PRIME);
            proof {
                let pre = self@.subrange(0, i as int);
                let ext = self@.subrange(0, i + 1 as int);
                assert(ext.drop_last() =~= pre);
                assert(ext.last() == self@[i as int]);
            }
            i += 1;
        }
        proof {
            assert(self@.subrange(0, n as int) =~= self@);
        }
        h
    }

    fn key_eq(&self, other: &Self) -> (eq: bool) {
        *self == *other
    }
}

impl HashKey for u64 {
    open spec fn hash_of(kv: u64) -> u64 {
        kv
    }

    fn hash_key(&self) -> (h: u64) {
        *self
    }

    fn key_eq(&self, other: &Self) -> (eq: bool) {
        *self == *other
    }
}

} // verus!

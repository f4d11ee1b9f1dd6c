//! Key types for the maps.
//!
//! A key carries its own equality and its own 64-bit hash, both pinned to
//! the key's view: equal views compare equal and hash equal. The stored
//! hash of an entry is computed once, at insertion, from `key_hash`; the
//! index never assumes anything about the hash's distribution, so a
//! constant hash costs probe time but never correctness.

use vstd::prelude::*;
use vstd::string::StrSliceExecFns;

verus! {

/// A type usable as a map key. Equality and hashing are functions of the
/// view alone, which is what makes a stored hash safe to keep across the
/// life of an entry: two keys with equal views always land in the same
/// bucket of the index.
pub trait MapKey: View + Sized {
    /// The hash, as a function of the key's view alone.
    spec fn hash_of(v: Self::V) -> u64;

    /// Equality, decided by the view.
    fn key_eq(&self, other: &Self) -> (r: bool)
        ensures
            r == (self@ == other@),
    ;

    /// The hash; agrees with `hash_of` on the view.
    fn key_hash(&self) -> (r: u64)
        ensures
            r == Self::hash_of(self@),
    ;
}

pub const FNV_OFFSET_BASIS: u64 = 0xcbf29ce484222325;

pub const FNV_PRIME: u64 = 0x100000001b3;

/// One round of FNV-1a: fold one character into the running hash.
pub open spec fn fnv1a_step(h: u64, c: char) -> u64 {
    vstd::wrapping::u64_specs::wrapping_mul(h ^ (c as u64), FNV_PRIME)
}

/// FNV-1a over a sequence of characters, left to right.
pub open spec fn fnv1a_chars(s: Seq<char>) -> u64
    decreases s.len(),
{
    if s.len() == 0 {
        FNV_OFFSET_BASIS
    } else {
        fnv1a_step(fnv1a_chars(s.drop_last()), s.last())
    }
}

impl MapKey for String {
    open spec fn hash_of(v: Seq<char>) -> u64 {
        fnv1a_chars(v)
    }

    fn key_eq(&self, other: &Self) -> (r: bool) {
        *self == *other
    }

    fn key_hash(&self) -> (r: u64) {
        let n = self.as_str().unicode_len();
        let mut h: u64 = FNV_OFFSET_BASIS;
        let mut i: usize = 0;
        while i < n
            invariant
                n == self@.len(),
                0 <= i <= n,
                h == fnv1a_chars(self@.take(i as int)),
            decreases n - i,
        {
            let c = self.as_str().get_char(i);
            h = (h ^ (c as u64)).wrapping_mul(FNV_PRIME);
            proof {
                assert(self@.take(i + 1).drop_last() =~= self@.take(i as int));
                assert(self@.take(i + 1).last() == self@[i as int]);
            }
            i = i + 1;
        }
        proof {
            assert(self@.take(n as int) =~= self@);
        }
        h
    }
}

impl MapKey for u64 {
    open spec fn hash_of(v: u64) -> u64 {
        v
    }

    fn key_eq(&self, other: &Self) -> (r: bool) {
        *self == *other
    }

    fn key_hash(&self) -> (r: u64) {
        *self
    }
}

/// A string key whose hash is constantly zero. Every entry lands in one
/// bucket of the index, so lookups fall back on equality probing alone;
/// the maps' contracts hold all the same.
pub struct ZeroHashKey {
    pub text: String,
}

impl View for ZeroHashKey {
    type V = Seq<char>;

    open spec fn view(&self) -> Seq<char> {
        self.text@
    }
}

impl MapKey for ZeroHashKey {
    open spec fn hash_of(v: Seq<char>) -> u64 {
        0
    }

    fn key_eq(&self, other: &Self) -> (r: bool) {
        self.text == other.text
    }

    fn key_hash(&self) -> (r: u64) {
        0
    }
}

} // verus!

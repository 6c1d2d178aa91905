//! Byte-sequence utilities: equality and a deterministic 64-bit content hash.
//!
//! The hash turns an arbitrary byte sequence into a key-space coordinate and
//! into a content-derived message identifier, so identical payloads always
//! collapse to the same identifier.

use vstd::prelude::*;

verus! {

/// One mixing step of the 64-bit FNV-1a hash: fold a byte into the state.
pub open spec fn fnv64_step(h: u64, b: u8) -> u64 {
    ((((h ^ (b as u64)) as nat) * 0x100000001b3) % 0x1_0000_0000_0000_0000) as u64
}

/// 64-bit FNV-1a hash of a byte sequence.
pub open spec fn fnv64(s: Seq<u8>) -> u64
    decreases s.len(),
{
    if s.len() == 0 {
        0xcbf29ce484222325u64
    } else {
        fnv64_step(fnv64(s.drop_last()), s.last())
    }
}

/// Computes the 64-bit FNV-1a hash of `s`.
pub fn hash_bytes(s: &Vec<u8>) -> (h: u64)
    ensures
        h == fnv64(s@),
{
    let mut h: u64 = 0xcbf29ce484222325;
    let mut i: usize = 0;
    while i < s.len()
        invariant
            i <= s@.len(),
            h == fnv64(s@.subrange(0, i as int)),
        decreases s@.len() - i,
    {
        h = (h ^ (s[i] as u64)).wrapping_mul(0x100000001b3);
        i = i + 1;
        proof {
            assert(s@.subrange(0, i as int).drop_last() =~= s@.subrange(0, i - 1));
            assert(s@.subrange(0, i as int).last() == s@[i - 1]);
        }
    }
    proof {
        assert(s@.subrange(0, s@.len() as int) =~= s@);
    }
    h
}

/// Byte-for-byte equality of two byte vectors.
pub fn bytes_eq(a: &Vec<u8>, b: &Vec<u8>) -> (r: bool)
    ensures
        r == (a@ == b@),
{
    if a.len() != b.len() {
        return false;
    }
    let mut i: usize = 0;
    while i < a.len()
        invariant
            i <= a@.len(),
            a@.len() == b@.len(),
            forall|j: int| 0 <= j < i ==> a@[j] == b@[j],
        decreases a@.len() - i,
    {
        if a[i] != b[i] {
            return false;
        }
        i = i + 1;
    }
    proof {
        assert(a@ =~= b@);
    }
    true
}

/// Copies the bytes of `s` between positions `lo` (inclusive) and `hi`
/// (exclusive) into a fresh vector.
pub fn sub_bytes(s: &Vec<u8>, lo: usize, hi: usize) -> (r: Vec<u8>)
    requires
        lo <= hi <= s@.len(),
    ensures
        r@ == s@.subrange(lo as int, hi as int),
{
    let mut r: Vec<u8> = Vec::new();
    let mut i: usize = lo;
    while i < hi
        invariant
            lo <= i <= hi <= s@.len(),
            r@ =~= s@.subrange(lo as int, i as int),
        decreases hi - i,
    {
        r.push(s[i]);
        i = i + 1;
    }
    proof {
        assert(r@ =~= s@.subrange(lo as int, hi as int));
    }
    r
}

} // verus!

//! The hash that interned values are found by: the fold of machine words that
//! `FxHasher` computes.
use vstd::prelude::*;

verus! {

/// An odd constant with a balanced mix of bits.
pub const MULTIPLIER: u64 = 0x517c_c1b7_2722_0a95;

/// The hash that an empty sequence of words has.
pub const SEED: u64 = 0;

/// Add one word to a hash: rotate, exclusive or, multiply.
pub open spec fn mixed(h: u64, w: u64) -> u64 {
    (((h << 5) | (h >> 59)) ^ w).wrapping_mul(MULTIPLIER)
}

/// Add the bytes of a sequence to a hash, in order.
pub open spec fn mixed_bytes(h: u64, bytes: Seq<u8>) -> u64
    decreases bytes.len(),
{
    if bytes.len() == 0 {
        h
    } else {
        mixed(mixed_bytes(h, bytes.drop_last()), bytes.last() as u64)
    }
}

pub fn mix(h: u64, w: u64) -> (r: u64)
    ensures
        r == mixed(h, w),
{
    (((h << 5) | (h >> 59)) ^ w).wrapping_mul(MULTIPLIER)
}

pub fn mix_bytes(h: u64, bytes: &[u8]) -> (r: u64)
    ensures
        r == mixed_bytes(h, bytes@),
{
    let mut acc: u64 = h;
    let n: usize = bytes.len();
    let mut i: usize = 0;
    while i < n
        invariant
            n == bytes@.len(),
            i <= n,
            acc == mixed_bytes(h, bytes@.take(i as int)),
        decreases n - i,
    {
        assert(bytes@.take(i + 1).drop_last() =~= bytes@.take(i as int));
        acc = mix(acc, bytes[i] as u64);
        i = i + 1;
    }
    assert(bytes@.take(n as int) =~= bytes@);
    acc
}

} // verus!

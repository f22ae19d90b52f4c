use vstd::arithmetic::power2::{lemma2_to64, lemma_pow2_unfold, pow2};
use vstd::prelude::*;

verus! {

/// Number of set bits of `x`.
pub open spec fn popcount(x: u32) -> nat
    decreases x,
{
    if x == 0 {
        0
    } else {
        (x % 2) as nat + popcount(x / 2)
    }
}

/// Number of bit positions in which `a` and `b` differ.
pub open spec fn hamming(a: u32, b: u32) -> nat {
    popcount(a ^ b)
}

/// A value below `2^k` has at most `k` set bits.
pub proof fn lemma_popcount_bound(x: u32, k: nat)
    requires
        x < pow2(k),
    ensures
        popcount(x) <= k,
    decreases k,
{
    if x != 0 {
        if k == 0 {
            lemma2_to64();
        }
        lemma_pow2_unfold(k);
        lemma_popcount_bound(x / 2, (k - 1) as nat);
    }
}

/// Counts the set bits of `x`, one bit at a time.
pub fn count_ones(x: u32) -> (r: u32)
    ensures
        r == popcount(x),
{
    proof {
        lemma2_to64();
        lemma_popcount_bound(x, 32);
    }
    let mut v: u32 = x;
    let mut n: u32 = 0;
    while v != 0
        invariant
            n + popcount(v) == popcount(x),
            popcount(x) <= 32,
        decreases v,
    {
        n = n + (v % 2);
        v = v / 2;
    }
    n
}

/// Hamming distance between two subfingerprints.
pub fn hamming_distance(a: u32, b: u32) -> (r: u32)
    ensures
        r == hamming(a, b),
{
    count_ones(a ^ b)
}

/// The Hamming distance is the popcount of the XOR, is 0 from a value to
/// itself, and does not depend on the order of its arguments.
pub proof fn lemma_hamming_laws(a: u32, b: u32)
    ensures
        hamming(a, b) == popcount(a ^ b),
        hamming(a, a) == 0,
        hamming(a, b) == hamming(b, a),
{
    assert(a ^ a == 0) by (bit_vector);
    assert(a ^ b == b ^ a) by (bit_vector);
}

} // verus!

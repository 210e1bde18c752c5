//! Distance metrics over 64-bit keys.
//!
//! A [`Metric`] is a pure function `distance(a, b)` on keys. The tree's
//! range search is complete only when the distance obeys the metric laws
//! (identity, symmetry, triangle inequality), so every implementation must
//! prove them via [`Metric::metric_laws`]. The default metric, [`Simple`],
//! is the Hamming distance: the population count of the bitwise XOR.

use vstd::prelude::*;

verus! {

/// A dissimilarity value: 0 means identical under the metric.
pub type Distance = u32;

/// A stored key: an opaque 64-bit hash, read only through the metric.
pub type Hash = u64;

/// How many of the low `n` bits of `x` are set.
pub open spec fn bits_below(x: u64, n: nat) -> nat
    decreases n,
{
    if n == 0 {
        0
    } else {
        bits_below(x, (n - 1) as nat) + (((x >> ((n - 1) as u32)) & 1) as nat)
    }
}

/// Number of set bits in a 64-bit word.
pub open spec fn popcount(x: u64) -> nat {
    bits_below(x, 64)
}

proof fn lemma_bits_below_le(x: u64, n: nat)
    ensures
        bits_below(x, n) <= n,
    decreases n,
{
    if n > 0 {
        lemma_bits_below_le(x, (n - 1) as nat);
        let m = (n - 1) as u32;
        assert((x >> m) & 1 <= 1) by (bit_vector);
    }
}

/// A 64-bit word has at most 64 set bits.
pub proof fn lemma_popcount_le(x: u64)
    ensures
        popcount(x) <= 64,
{
    lemma_bits_below_le(x, 64);
}

proof fn lemma_bits_below_zero(n: nat)
    ensures
        bits_below(0, n) == 0,
    decreases n,
{
    if n > 0 {
        lemma_bits_below_zero((n - 1) as nat);
        let m = (n - 1) as u32;
        assert((0u64 >> m) & 1 == 0) by (bit_vector);
    }
}

proof fn lemma_bits_below_xor(x: u64, y: u64, n: nat)
    ensures
        bits_below(x ^ y, n) <= bits_below(x, n) + bits_below(y, n),
    decreases n,
{
    if n > 0 {
        lemma_bits_below_xor(x, y, (n - 1) as nat);
        let m = (n - 1) as u32;
        assert((((x ^ y) >> m) & 1) <= ((x >> m) & 1) + ((y >> m) & 1)) by (bit_vector);
    }
}

/// Set bits of an XOR are set in at least one operand, so population
/// counts are subadditive along a chain of XORs.
pub proof fn lemma_popcount_xor_triangle(a: u64, b: u64, c: u64)
    ensures
        popcount(a ^ c) <= popcount(a ^ b) + popcount(b ^ c),
{
    assert((a ^ c) == (a ^ b) ^ (b ^ c)) by (bit_vector);
    lemma_bits_below_xor(a ^ b, b ^ c, 64);
}

/// Count the set bits of `x` by scanning all 64 bit positions.
fn popcount64(x: u64) -> (r: u32)
    ensures
        r == popcount(x),
{
    let mut c: u32 = 0;
    let mut i: u32 = 0;
    while i < 64
        invariant
            i <= 64,
            c == bits_below(x, i as nat),
            c <= i,
        decreases 64 - i,
    {
        proof {
            let m = i;
            assert((x >> m) & 1 <= 1) by (bit_vector);
            assert(bits_below(x, (i + 1) as nat) == bits_below(x, i as nat) + (((x >> i) & 1)
                as nat));
        }
        c = c + (((x >> i) & 1) as u32);
        i = i + 1;
    }
    c
}

/// A distance on 64-bit keys: a pure, total function whose result fits in
/// 32 bits. Range-search pruning is sound only for true metrics, so every
/// implementation carries a proof of the metric laws.
pub trait Metric {
    /// The mathematical distance this implementation computes.
    spec fn distance_spec(a: Hash, b: Hash) -> Distance;

    /// Identity, symmetry, and the triangle inequality.
    proof fn metric_laws(a: Hash, b: Hash, c: Hash)
        ensures
            Self::distance_spec(a, a) == 0,
            Self::distance_spec(a, b) == Self::distance_spec(b, a),
            Self::distance_spec(a, c) <= Self::distance_spec(a, b) + Self::distance_spec(b, c),
    ;

    /// Compute the distance between `a` and `b`.
    fn distance(a: Hash, b: Hash) -> (d: Distance)
        ensures
            d == Self::distance_spec(a, b),
    ;
}

/// The default metric: Hamming distance over the bit representations,
/// i.e. the number of bit positions where the two keys differ.
pub struct Simple;

impl Metric for Simple {
    open spec fn distance_spec(a: Hash, b: Hash) -> Distance {
        popcount(a ^ b) as u32
    }

    proof fn metric_laws(a: Hash, b: Hash, c: Hash) {
        assert(a ^ a == 0) by (bit_vector);
        lemma_bits_below_zero(64);
        assert(a ^ b == b ^ a) by (bit_vector);
        lemma_popcount_le(a ^ b);
        lemma_popcount_le(b ^ c);
        lemma_popcount_le(a ^ c);
        lemma_popcount_xor_triangle(a, b, c);
    }

    fn distance(a: Hash, b: Hash) -> (d: Distance) {
        proof {
            lemma_popcount_le(a ^ b);
        }
        popcount64(a ^ b)
    }
}

} // verus!

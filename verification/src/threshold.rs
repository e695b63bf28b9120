//! How many inputs a self-describing network needs: a network of `n` nodes
//! over `k` inputs names each value with `ceil(log2(k + n))` bits, so its
//! description takes `n * (4 + 2 * ptr_bits) + ptr_bits` bits, and `k` input
//! bits can address that many only when `2^k` reaches it.
use vstd::prelude::*;
use vstd::arithmetic::power2::{
    pow2, lemma_pow2_unfold, lemma_pow2_strictly_increases, lemma2_to64, lemma2_to64_rest,
};

verus! {

/// `p` is the ceiling of the base-2 logarithm of `m`: the least `p` with
/// `2^p >= m` (0 for `m <= 1`).
pub open spec fn is_ceil_log2(m: int, p: nat) -> bool {
    &&& pow2(p) >= m
    &&& (p == 0 || pow2((p - 1) as nat) < m)
}

/// Bits of the description of `n` nodes with `ptr_bits`-bit value indices:
/// a 4-bit table and two indices per node, and the output index.
pub open spec fn description_bits(n: int, ptr_bits: int) -> int {
    n * (4 + 2 * ptr_bits) + ptr_bits
}

/// The ceiling of the logarithm is unique.
pub proof fn lemma_ceil_log2_unique(m: int, p: nat, q: nat)
    requires
        is_ceil_log2(m, p),
        is_ceil_log2(m, q),
    ensures
        p == q,
{
    if p < q {
        if p < (q - 1) as nat {
            lemma_pow2_strictly_increases(p, (q - 1) as nat);
        }
    } else if q < p {
        if q < (p - 1) as nat {
            lemma_pow2_strictly_increases(q, (p - 1) as nat);
        }
    }
}

/// A value at most `2^e` has a ceiling logarithm at most `e`.
proof fn lemma_ceil_log2_le(m: int, p: nat, e: nat)
    requires
        is_ceil_log2(m, p),
        m <= pow2(e),
    ensures
        p <= e,
{
    if p > e {
        if e < (p - 1) as nat {
            lemma_pow2_strictly_increases(e, (p - 1) as nat);
        }
    }
}

/// The ceiling of the base-2 logarithm of `m`.
pub fn ceil_log2(m: u64) -> (p: u32)
    requires
        m <= 0x8000_0000_0000_0000,
    ensures
        is_ceil_log2(m as int, p as nat),
{
    let mut p: u32 = 0;
    let mut pw: u64 = 1;
    proof {
        lemma2_to64();
    }
    while pw < m
        invariant
            m <= 0x8000_0000_0000_0000,
            pw == pow2(p as nat),
            p <= 63,
            p > 0 ==> pow2((p - 1) as nat) < m,
        decreases 64 - p,
    {
        proof {
            lemma2_to64();
            lemma2_to64_rest();
            if p == 63 {
                assert(pw == 0x8000_0000_0000_0000u64);
            }
            lemma_pow2_unfold((p + 1) as nat);
        }
        pw = pw * 2;
        p = p + 1;
    }
    p
}

/// The least number of inputs `k >= 1` whose `2^k` addresses reach the
/// description of an `n`-node network over them, with that network's
/// index width and description size: `(k, ptr_bits, bits)`.
pub fn quine_threshold(n: u64) -> (r: (u64, u64, u64))
    requires
        n <= 0x100_0000_0000,
    ensures
        r.0 >= 1,
        is_ceil_log2(r.0 + n, r.1 as nat),
        r.2 == description_bits(n as int, r.1 as int),
        pow2(r.0 as nat) >= r.2,
        forall|j: nat, p: nat|
            1 <= j < r.0 && #[trigger] is_ceil_log2(j + n, p) ==> pow2(j) < description_bits(n as int, p as int),
{
    proof {
        lemma2_to64();
        lemma2_to64_rest();
    }
    let mut k: u64 = 1;
    let mut pw: u64 = 2;
    loop
        invariant
            n <= 0x100_0000_0000,
            1 <= k <= 48,
            pw == pow2(k as nat),
            forall|j: nat, p: nat|
                1 <= j < k && #[trigger] is_ceil_log2(j + n, p) ==> pow2(j) < description_bits(n as int, p as int),
        decreases 48 - k,
    {
        let p = ceil_log2(k + n);
        proof {
            lemma2_to64_rest();
            lemma_ceil_log2_le((k + n) as int, p as nat, 41);
            assert(n * (4 + 2 * p) <= 0x100_0000_0000 * 86) by (nonlinear_arith)
                requires
                    n <= 0x100_0000_0000,
                    p <= 41,
            ;
        }
        let pb = p as u64;
        let bits = n * (4 + 2 * pb) + pb;
        if pw >= bits {
            return (k, pb, bits);
        }
        proof {
            assert forall|j: nat, q: nat|
                1 <= j < k + 1 && #[trigger] is_ceil_log2(j + n, q) implies pow2(j) < description_bits(n as int, q as int) by {
                if j == k {
                    lemma_ceil_log2_unique(j + n, q, p as nat);
                }
            }
            if k == 48 {
                assert(pw == 0x1_0000_0000_0000u64);
            }
            lemma_pow2_unfold((k + 1) as nat);
        }
        k = k + 1;
        pw = pw * 2;
    }
}

} // verus!

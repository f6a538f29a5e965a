//! Integer square root and base-two logarithm, for the fixed-point
//! selection score of the search.

use vstd::prelude::*;
use vstd::arithmetic::power2::{pow2, lemma_pow2_unfold, lemma_pow2_strictly_increases,
    lemma2_to64};

verus! {

/// The product of two 64-bit words fits the double-wide field.
pub proof fn lemma_word_product_fits(a: u64, b: u64)
    ensures
        0 <= (a as int) * (b as int),
        (a as int) * (b as int) < 0x1_0000_0000_0000_0000_0000_0000_0000_0000,
{
    assert(0 <= (a as int) * (b as int) && (a as int) * (b as int) < 0x1_0000_0000_0000_0000
        * 0x1_0000_0000_0000_0000) by (nonlinear_arith)
        requires
            0 <= a < 0x1_0000_0000_0000_0000,
            0 <= b < 0x1_0000_0000_0000_0000,
    ;
}

/// The integer square root: the largest `r` with `r * r <= x`.
pub open spec fn isqrt_spec(x: nat) -> nat
    decreases x,
{
    if x == 0 {
        0
    } else {
        let p = isqrt_spec((x - 1) as nat);
        if (p + 1) * (p + 1) <= x {
            (p + 1) as nat
        } else {
            p
        }
    }
}

/// The integer square root is sandwiched between the squares around `x`.
pub proof fn lemma_isqrt_bounds(x: nat)
    ensures
        isqrt_spec(x) * isqrt_spec(x) <= x,
        (isqrt_spec(x) + 1) * (isqrt_spec(x) + 1) > x,
    decreases x,
{
    if x > 0 {
        lemma_isqrt_bounds((x - 1) as nat);
        let p = isqrt_spec((x - 1) as nat);
        if (p + 1) * (p + 1) <= x {
            assert(isqrt_spec(x) == p + 1);
            assert(x - 1 < (p + 1) * (p + 1));
            assert(x == (p + 1) * (p + 1));
            assert(isqrt_spec(x) * isqrt_spec(x) <= x) by (nonlinear_arith)
                requires
                    isqrt_spec(x) == p + 1,
                    x == (p + 1) * (p + 1),
            ;
            assert((isqrt_spec(x) + 1) * (isqrt_spec(x) + 1) > x) by (nonlinear_arith)
                requires
                    isqrt_spec(x) == p + 1,
                    x == (p + 1) * (p + 1),
            ;
        } else {
            assert(isqrt_spec(x) == p);
            assert(p * p <= x - 1);
            assert((isqrt_spec(x) + 1) * (isqrt_spec(x) + 1) > x) by (nonlinear_arith)
                requires
                    isqrt_spec(x) == p,
                    (p + 1) * (p + 1) > x,
            ;
        }
    } else {
        assert(isqrt_spec(x) == 0);
        assert((isqrt_spec(x) + 1) * (isqrt_spec(x) + 1) == 1) by (nonlinear_arith)
            requires
                isqrt_spec(x) == 0,
        ;
    }
}

/// Any value sandwiched that way is the integer square root.
pub proof fn lemma_isqrt_unique(x: nat, r: nat)
    requires
        r * r <= x,
        (r + 1) * (r + 1) > x,
    ensures
        r == isqrt_spec(x),
{
    lemma_isqrt_bounds(x);
    let i = isqrt_spec(x);
    if r < i {
        assert((r + 1) * (r + 1) <= i * i) by (nonlinear_arith)
            requires
                r + 1 <= i,
        ;
    }
    if i < r {
        assert((i + 1) * (i + 1) <= r * r) by (nonlinear_arith)
            requires
                i + 1 <= r,
        ;
    }
}

/// The integer square root, by binary search.
pub fn isqrt(x: u64) -> (r: u64)
    ensures
        r == isqrt_spec(x as nat),
        r * r <= x,
{
    let mut lo: u64 = 0;
    let mut hi: u64 = 0x1_0000_0000;
    while lo + 1 < hi
        invariant
            lo < hi,
            hi <= 0x1_0000_0000,
            (lo as int) * (lo as int) <= x as int,
            (hi as int) * (hi as int) > x as int,
        decreases hi - lo,
    {
        let mid = lo + (hi - lo) / 2;
        proof {
            assert((mid as int) * (mid as int) < 0x1_0000_0000_0000_0000_0000_0000_0000_0000)
                by (nonlinear_arith)
                requires
                    0 <= mid <= 0x1_0000_0000,
            ;
        }
        let sq: u128 = (mid as u128) * (mid as u128);
        if sq <= x as u128 {
            lo = mid;
        } else {
            hi = mid;
        }
    }
    proof {
        assert((lo as int) * (lo as int) <= x as int && ((lo + 1) as int) * ((lo + 1) as int)
            > x as int);
        lemma_isqrt_unique(x as nat, lo as nat);
    }
    lo
}

/// The floor of the base-two logarithm.
pub open spec fn log2_spec(n: nat) -> nat
    decreases n,
{
    if n < 2 {
        0
    } else {
        1 + log2_spec(n / 2)
    }
}

/// The floor of the base-two logarithm; at most 63 for a 64-bit value.
pub fn log2_floor(n: u64) -> (r: u64)
    requires
        n >= 1,
    ensures
        r == log2_spec(n as nat),
        r <= 63,
{
    let mut x = n;
    let mut r: u64 = 0;
    proof {
        lemma2_to64();
        assert(pow2(0) == 1);
    }
    while x >= 2
        invariant
            1 <= x,
            log2_spec(n as nat) == r + log2_spec(x as nat),
            pow2(r as nat) * (x as nat) <= n as nat,
            r <= 63,
        decreases x,
    {
        proof {
            lemma_pow2_unfold((r + 1) as nat);
            assert(pow2((r + 1) as nat) * ((x / 2) as nat) <= pow2(r as nat) * (x as nat))
                by (nonlinear_arith)
                requires
                    pow2((r + 1) as nat) == 2 * pow2(r as nat),
                    x >= 2,
            ;
            assert(pow2((r + 1) as nat) <= pow2((r + 1) as nat) * ((x / 2) as nat))
                by (nonlinear_arith)
                requires
                    x >= 2,
                    pow2((r + 1) as nat) >= 0,
            ;
            if r + 1 >= 64 {
                lemma2_to64();
                if r + 1 > 64 {
                    lemma_pow2_strictly_increases(64, (r + 1) as nat);
                }
                assert(false);
            }
        }
        x = x / 2;
        r = r + 1;
    }
    r
}

} // verus!

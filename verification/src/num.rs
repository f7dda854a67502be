//! Integer helpers for the UCB1 exploration term: floor logarithm (base 2)
//! and floor square root.

use vstd::prelude::*;
use vstd::arithmetic::power2::pow2;
use vstd::arithmetic::power2::lemma_pow2_strictly_increases;

verus! {

/// Floor of the base-2 logarithm; 0 for inputs below 2.
pub open spec fn log2_floor(n: nat) -> nat
    decreases n,
{
    if n < 2 {
        0
    } else {
        1 + log2_floor(n / 2)
    }
}

/// Floor of the square root.
pub open spec fn sqrt_floor(x: nat) -> nat
    decreases x,
{
    if x == 0 {
        0
    } else {
        let r = sqrt_floor((x - 1) as nat);
        if (r + 1) * (r + 1) <= x {
            r + 1
        } else {
            r
        }
    }
}

/// The floor square root is characterized by the two bracketing squares.
pub proof fn lemma_sqrt_floor_bounds(x: nat)
    ensures
        sqrt_floor(x) * sqrt_floor(x) <= x,
        x < (sqrt_floor(x) + 1) * (sqrt_floor(x) + 1),
    decreases x,
{
    if x != 0 {
        lemma_sqrt_floor_bounds((x - 1) as nat);
        let r = sqrt_floor((x - 1) as nat);
        assert(r * r <= x - 1);
        assert(x - 1 < (r + 1) * (r + 1));
        if (r + 1) * (r + 1) <= x {
            assert(sqrt_floor(x) == r + 1);
            assert(x < (r + 2) * (r + 2)) by (nonlinear_arith)
                requires
                    x <= (r + 1) * (r + 1),
                    r >= 0,
            {}
        } else {
            assert(sqrt_floor(x) == r);
        }
        assert(sqrt_floor(x) * sqrt_floor(x) <= x);
        assert(x < (sqrt_floor(x) + 1) * (sqrt_floor(x) + 1));
    } else {
        let s = sqrt_floor(x);
        assert(s == 0);
        assert(x < (s + 1) * (s + 1)) by (nonlinear_arith)
            requires
                x == 0nat,
                s == 0nat,
        {}
    }
}

/// Any value bracketed by consecutive squares is the floor square root.
pub proof fn lemma_sqrt_floor_unique(x: nat, r: nat)
    requires
        r * r <= x,
        x < (r + 1) * (r + 1),
    ensures
        r == sqrt_floor(x),
{
    let s = sqrt_floor(x);
    lemma_sqrt_floor_bounds(x);
    if r < s {
        assert((r + 1) * (r + 1) <= s * s) by (nonlinear_arith)
            requires
                r + 1 <= s,
            {}
    }
    if s < r {
        assert((s + 1) * (s + 1) <= r * r) by (nonlinear_arith)
            requires
                s + 1 <= r,
            {}
    }
}

/// Floor of the base-2 logarithm, computed by repeated halving.
pub fn log2(n: u64) -> (r: u64)
    requires
        n >= 1,
    ensures
        r as nat == log2_floor(n as nat),
        r < 64,
{
    let mut m: u64 = n;
    let mut r: u64 = 0;
    proof {
        vstd::arithmetic::power2::lemma2_to64();
    }
    while m >= 2
        invariant
            m >= 1,
            r < 64,
            log2_floor(n as nat) == r + log2_floor(m as nat),
            pow2(r as nat) * m <= n,
        decreases m,
    {
        proof {
            assert(pow2((r + 1) as nat) == 2 * pow2(r as nat)) by {
                vstd::arithmetic::power2::lemma_pow2_unfold((r + 1) as nat);
            }
            assert(pow2((r + 1) as nat) * ((m / 2) as nat) <= pow2(r as nat) * m)
                by (nonlinear_arith)
                requires
                    pow2((r + 1) as nat) == 2 * pow2(r as nat),
                    m >= 2,
                {}
            if r + 1 >= 64 {
                lemma_pow2_strictly_increases(63, (r + 1) as nat);
                vstd::arithmetic::power2::lemma2_to64_rest();
                assert(pow2((r + 1) as nat) * ((m / 2) as nat) >= pow2((r + 1) as nat))
                    by (nonlinear_arith)
                    requires
                        (m / 2) as nat >= 1,
                        pow2((r + 1) as nat) > 0,
                    {}
            }
        }
        m = m / 2;
        r = r + 1;
    }
    r
}

/// Floor square root by binary search.
pub fn isqrt(x: u64) -> (r: u64)
    ensures
        r as nat == sqrt_floor(x as nat),
        r * r <= x,
        x < (r + 1) * (r + 1),
{
    let mut lo: u64 = 0;
    let mut hi: u64 = 0x1_0000_0000;
    proof {
        assert((0x1_0000_0000 as int) * (0x1_0000_0000 as int) > u64::MAX as int)
            by (nonlinear_arith)
        {}
    }
    while lo + 1 < hi
        invariant
            lo < hi,
            hi <= 0x1_0000_0000,
            (lo as int) * (lo as int) <= x as int,
            (x as int) < (hi as int) * (hi as int),
        decreases hi - lo,
    {
        let mid = lo + (hi - lo) / 2;
        proof {
            assert((mid as int) * (mid as int) <= (0x1_0000_0000 as int) * (0x1_0000_0000 as int))
                by (nonlinear_arith)
                requires
                    0 <= mid <= 0x1_0000_0000,
            {}
        }
        if (mid as u128) * (mid as u128) <= x as u128 {
            lo = mid;
        } else {
            hi = mid;
        }
    }
    proof {
        lemma_sqrt_floor_unique(x as nat, lo as nat);
    }
    lo
}

} // verus!

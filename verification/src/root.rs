//! Integer square roots.

use vstd::prelude::*;

verus! {

/// The largest `r` with `r * r <= x`.
pub open spec fn int_sqrt(x: nat) -> nat
    decreases x,
{
    if x == 0 {
        0
    } else {
        let r = int_sqrt((x - 1) as nat);
        if (r + 1) * (r + 1) <= x { r + 1 } else { r }
    }
}

/// `int_sqrt(x)` is the floor of the square root of `x`.
pub proof fn lemma_int_sqrt_bounds(x: nat)
    ensures
        int_sqrt(x) * int_sqrt(x) <= x < (int_sqrt(x) + 1) * (int_sqrt(x) + 1),
    decreases x,
{
    let q = int_sqrt(x);
    if x > 0 {
        lemma_int_sqrt_bounds((x - 1) as nat);
        let r = int_sqrt((x - 1) as nat);
        if (r + 1) * (r + 1) <= x {
            assert(q == r + 1);
            assert(q * q <= x < (q + 1) * (q + 1)) by (nonlinear_arith)
                requires
                    q == r + 1,
                    (r + 1) * (r + 1) <= x,
                    x - 1 < (r + 1) * (r + 1),
            ;
        } else {
            assert(q == r);
            assert(q * q <= x < (q + 1) * (q + 1));
        }
    } else {
        assert(q == 0);
        assert(q * q <= x < (q + 1) * (q + 1)) by (nonlinear_arith)
            requires
                q == 0,
                x == 0,
        ;
    }
}

/// The floor of the square root is the only number between whose square and
/// whose successor's square `x` lies.
pub proof fn lemma_int_sqrt_unique(x: nat, r: nat)
    requires
        r * r <= x < (r + 1) * (r + 1),
    ensures
        r == int_sqrt(x),
{
    lemma_int_sqrt_bounds(x);
    let q = int_sqrt(x);
    assert(r == q) by (nonlinear_arith)
        requires
            r * r <= x < (r + 1) * (r + 1),
            q * q <= x < (q + 1) * (q + 1),
    {
        if r < q {
            assert((r + 1) * (r + 1) <= q * q);
        } else if q < r {
            assert((q + 1) * (q + 1) <= r * r);
        }
    }
}

/// The integer square root of `x`, by bisection.
pub fn isqrt(x: u128) -> (r: u64)
    ensures
        r == int_sqrt(x as nat),
        r * r <= x < (r + 1) * (r + 1),
{
    let mut lo: u128 = 0;
    let mut hi: u128 = 0x1_0000_0000_0000_0000;
    assert(hi * hi > x) by (nonlinear_arith)
        requires
            hi == 0x1_0000_0000_0000_0000,
            x <= u128::MAX,
    ;
    while hi - lo > 1
        invariant
            lo < hi <= 0x1_0000_0000_0000_0000,
            lo * lo <= x < hi * hi,
        decreases hi - lo,
    {
        let mid: u128 = lo + (hi - lo) / 2;
        assert(mid * mid <= 0xffff_ffff_ffff_ffff * 0xffff_ffff_ffff_ffff) by (nonlinear_arith)
            requires
                mid <= 0xffff_ffff_ffff_ffff,
        ;
        if mid * mid <= x {
            lo = mid;
        } else {
            hi = mid;
        }
    }
    proof {
        lemma_int_sqrt_unique(x as nat, lo as nat);
    }
    lo as u64
}

} // verus!

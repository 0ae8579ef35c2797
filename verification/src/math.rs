//! Fixed-point scale, machine-range limits, and an exact integer square root.

use vstd::prelude::*;

verus! {

/// Number of position units per meter: coordinates and velocities are held
/// in units of 1/1000 meter (and 1/1000 meter per second).
pub const UNITS_PER_METER: i64 = 1_000;

/// `UNITS_PER_METER` cubed; converts the gravitational parameter from
/// m^3/s^2 into position units.
pub const UNITS_PER_METER_CUBED: i64 = 1_000_000_000;

/// Largest coordinate magnitude a store accepts, in position units
/// (10^8 meters, comfortably above any Earth orbit). Chosen so that every
/// intermediate of the gravity and proximity formulas fits in 128 bits.
pub const POS_LIMIT: i64 = 100_000_000_000;

/// Largest accepted gravitational parameter, in m^3/s^2 (Earth's is about
/// 3.99e14). Part of the 128-bit overflow headroom budget.
pub const MU_LIMIT: i64 = 1_000_000_000_000_000;

/// Largest accepted time step, in seconds. Part of the same budget.
pub const DT_LIMIT: i64 = 1_000;

/// Floor of the real square root of `n`.
pub open spec fn sqrt_floor(n: nat) -> nat
    decreases n,
{
    if n == 0 {
        0
    } else {
        let s = sqrt_floor((n - 1) as nat);
        if (s + 1) * (s + 1) <= n {
            s + 1
        } else {
            s
        }
    }
}

/// `sqrt_floor(n)` is the unique `s` with `s^2 <= n < (s+1)^2`.
pub proof fn lemma_sqrt_floor_bounds(n: nat)
    ensures
        sqrt_floor(n) * sqrt_floor(n) <= n,
        n < (sqrt_floor(n) + 1) * (sqrt_floor(n) + 1),
    decreases n,
{
    if n == 0 {
        assert(sqrt_floor(n) == 0);
        assert(sqrt_floor(n) * sqrt_floor(n) <= n);
        assert(n < (sqrt_floor(n) + 1) * (sqrt_floor(n) + 1)) by (nonlinear_arith)
            requires
                n == 0,
                sqrt_floor(n) == 0,
        ;
    } else {
        lemma_sqrt_floor_bounds((n - 1) as nat);
        let s = sqrt_floor((n - 1) as nat);
        if (s + 1) * (s + 1) <= n {
            assert(sqrt_floor(n) == s + 1);
            assert(n - 1 < (s + 1) * (s + 1));
            assert((s + 1 + 1) * (s + 1 + 1) > (s + 1) * (s + 1)) by (nonlinear_arith);
            assert(sqrt_floor(n) * sqrt_floor(n) <= n);
            assert(n < (sqrt_floor(n) + 1) * (sqrt_floor(n) + 1));
        } else {
            assert(sqrt_floor(n) == s);
            assert(sqrt_floor(n) * sqrt_floor(n) <= n);
            assert(n < (sqrt_floor(n) + 1) * (sqrt_floor(n) + 1));
        }
    }
}

/// Any `s` satisfying the square-root bracketing is `sqrt_floor(n)`.
pub proof fn lemma_sqrt_floor_unique(n: nat, s: nat)
    requires
        s * s <= n,
        n < (s + 1) * (s + 1),
    ensures
        s == sqrt_floor(n),
{
    lemma_sqrt_floor_bounds(n);
    let t = sqrt_floor(n);
    assert(s == t) by (nonlinear_arith)
        requires
            s * s <= n,
            n < (s + 1) * (s + 1),
            t * t <= n,
            n < (t + 1) * (t + 1),
    ;
}

/// Exact integer square root by bisection.
pub fn isqrt(n: u128) -> (r: u128)
    ensures
        r == sqrt_floor(n as nat),
{
    let mut lo: u128 = 0;
    let mut hi: u128 = 0x1_0000_0000_0000_0000;
    assert((n as nat) < (hi as nat) * (hi as nat)) by (nonlinear_arith)
        requires
            n <= u128::MAX,
            hi == 0x1_0000_0000_0000_0000u128,
    ;
    while lo + 1 < hi
        invariant
            lo < hi,
            hi <= 0x1_0000_0000_0000_0000,
            (lo as nat) * (lo as nat) <= n as nat,
            (n as nat) < (hi as nat) * (hi as nat),
        decreases hi - lo,
    {
        let mid = lo + (hi - lo) / 2;
        assert((mid as nat) * (mid as nat) <= (0xffff_ffff_ffff_ffffu128 as nat)
            * (0xffff_ffff_ffff_ffffu128 as nat)) by (nonlinear_arith)
            requires
                mid <= 0xffff_ffff_ffff_ffffu128,
        ;
        if mid * mid <= n {
            lo = mid;
        } else {
            hi = mid;
        }
    }
    proof {
        lemma_sqrt_floor_unique(n as nat, lo as nat);
    }
    lo
}

} // verus!

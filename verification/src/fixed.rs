//! Fixed-point scalars: a real quantity `v` is stored as the integer
//! `round(v * SCALE)`. All engine arithmetic is exact integer arithmetic
//! over these units, with truncating (round-toward-zero) division.

use vstd::prelude::*;
use vstd::arithmetic::div_mod::*;
use vstd::arithmetic::mul::*;

verus! {

/// Number of fixed-point units per real unit.
pub const SCALE: i64 = 1_000_000;

/// Largest coordinate magnitude the engine works with; points are kept
/// inside the box `[-POS_LIMIT, POS_LIMIT]` on both axes.
pub const POS_LIMIT: i64 = 1_000_000_000_000_000_000;

/// Largest speed magnitude (in units) accepted by a well-formed configuration.
pub const SPEED_LIMIT: i64 = 1_000_000_000_000_000;

/// Largest timestep (in units) accepted by a well-formed configuration.
pub const TIMESTEP_LIMIT: i64 = 1_000_000_000;

/// Largest body count accepted by a well-formed configuration.
pub const COUNT_LIMIT: usize = 1_000_000;

/// Truncating (round-toward-zero) division, the meaning of `/` on the
/// machine integers the engine runs on. Defined for positive divisors.
pub open spec fn tdiv(a: int, d: int) -> int
    recommends
        d > 0,
{
    if a >= 0 {
        a / d
    } else {
        -((-a) / d)
    }
}

/// Truncating division moves its argument toward zero.
pub proof fn lemma_tdiv_shrinks(a: int, d: int)
    requires
        d >= 1,
    ensures
        a >= 0 ==> 0 <= tdiv(a, d) <= a,
        a < 0 ==> a <= tdiv(a, d) <= 0,
{
    if a >= 0 {
        lemma_div_pos_is_pos(a, d);
        lemma_div_nonincreasing(a, d);
    } else {
        lemma_div_pos_is_pos(-a, d);
        lemma_div_nonincreasing(-a, d);
    }
}

/// `tdiv` never enlarges a bound on the dividend: if `|a| <= b * d`
/// then `|tdiv(a, d)| <= b`.
pub proof fn lemma_tdiv_bound(a: int, d: int, b: int)
    requires
        d >= 1,
        b >= 0,
        -(b * d) <= a <= b * d,
    ensures
        -b <= tdiv(a, d) <= b,
{
    assert(b * d == d * b) by (nonlinear_arith);
    if a >= 0 {
        lemma_div_is_ordered(a, b * d, d);
        lemma_div_multiples_vanish(b, d);
        lemma_div_pos_is_pos(a, d);
    } else {
        lemma_div_is_ordered(-a, b * d, d);
        lemma_div_multiples_vanish(b, d);
        lemma_div_pos_is_pos(-a, d);
    }
}

/// The fundamental relation between a non-negative dividend and its
/// truncated quotient: `d * q <= a < d * (q + 1)`.
pub proof fn lemma_tdiv_pos(a: int, d: int)
    requires
        d >= 1,
        a >= 0,
    ensures
        d * tdiv(a, d) <= a < d * (tdiv(a, d) + 1),
        tdiv(a, d) >= 0,
{
    lemma_fundamental_div_mod(a, d);
    lemma_mod_bound(a, d);
    lemma_div_pos_is_pos(a, d);
    assert(d * (tdiv(a, d) + 1) == d * tdiv(a, d) + d) by (nonlinear_arith);
}

/// Dividing by a positive divisor keeps the order of non-negative dividends.
pub proof fn lemma_tdiv_ordered(a: int, b: int, d: int)
    requires
        d >= 1,
        0 <= a <= b,
    ensures
        tdiv(a, d) <= tdiv(b, d),
{
    lemma_div_is_ordered(a, b, d);
}

/// Floor of the square root, by unit steps: the unique `r` with
/// `r * r <= n < (r + 1) * (r + 1)`.
pub open spec fn sqrt_floor(n: nat) -> nat
    decreases n,
{
    if n == 0 {
        0
    } else {
        let r = sqrt_floor((n - 1) as nat);
        if (r + 1) * (r + 1) <= n {
            r + 1
        } else {
            r
        }
    }
}

/// `sqrt_floor` is indeed the floor of the square root.
pub proof fn lemma_sqrt_floor_bounds(n: nat)
    ensures
        sqrt_floor(n) * sqrt_floor(n) <= n,
        n < (sqrt_floor(n) + 1) * (sqrt_floor(n) + 1),
    decreases n,
{
    if n == 0 {
        assert(sqrt_floor(0) == 0);
        assert((sqrt_floor(n) + 1) * (sqrt_floor(n) + 1) == 1) by (nonlinear_arith)
            requires
                sqrt_floor(n) == 0,
        ;
    } else {
        let r = sqrt_floor((n - 1) as nat);
        lemma_sqrt_floor_bounds((n - 1) as nat);
        assert(r * r <= n - 1);
        assert(n - 1 < (r + 1) * (r + 1));
        if (r + 1) * (r + 1) <= n {
            assert(sqrt_floor(n) == r + 1);
            assert(n < (sqrt_floor(n) + 1) * (sqrt_floor(n) + 1)) by (nonlinear_arith)
                requires
                    sqrt_floor(n) == r + 1,
                    n - 1 < (r + 1) * (r + 1),
                    r >= 0,
            ;
        } else {
            assert(sqrt_floor(n) == r);
            assert(n < (sqrt_floor(n) + 1) * (sqrt_floor(n) + 1)) by (nonlinear_arith)
                requires
                    sqrt_floor(n) == r,
                    n < (r + 1) * (r + 1),
            ;
        }
    }
}

/// Any `r` that satisfies the floor-square-root bounds is `sqrt_floor(n)`.
pub proof fn lemma_sqrt_floor_unique(n: nat, r: nat)
    requires
        r * r <= n,
        n < (r + 1) * (r + 1),
    ensures
        r == sqrt_floor(n),
{
    let s = sqrt_floor(n);
    lemma_sqrt_floor_bounds(n);
    assert(r == s) by (nonlinear_arith)
        requires
            r * r <= n,
            n < (r + 1) * (r + 1),
            s * s <= n,
            n < (s + 1) * (s + 1),
            r >= 0,
            s >= 0,
    ;
}

/// Floor square root of a `u128`, by binary search.
pub fn isqrt(n: u128) -> (r: u128)
    ensures
        r == sqrt_floor(n as nat),
        r * r <= n,
        n < (r + 1) * (r + 1),
{
    let mut lo: u128 = 0;
    let mut hi: u128 = 1u128 << 64;
    proof {
        assert((1u128 << 64) == 0x10000000000000000) by (bit_vector);
        assert(n < 0x10000000000000000 * 0x10000000000000000) by (nonlinear_arith)
            requires
                n <= u128::MAX,
        ;
    }
    while lo + 1 < hi
        invariant
            0 <= lo < hi <= 0x10000000000000000,
            lo * lo <= n,
            n < hi * hi,
        decreases hi - lo,
    {
        let mid = lo + (hi - lo) / 2;
        assert(lo < mid < hi);
        proof {
            assert(mid * mid < 0x10000000000000000 * 0x10000000000000000) by (nonlinear_arith)
                requires
                    0 <= mid < 0x10000000000000000,
            ;
        }
        if mid * mid <= n {
            lo = mid;
        } else {
            hi = mid;
        }
    }
    proof {
        lemma_sqrt_floor_unique(n as nat, lo as nat);
    }
    lo
}

/// `a * b / d` with truncating division, computed without overflow.
pub fn mul_div(a: i128, b: i128, d: i128) -> (r: i128)
    requires
        d >= 1,
        i128::MIN < a * b,
        a * b <= i128::MAX,
    ensures
        r == tdiv(a * b, d as int),
{
    let p = a * b;
    proof {
        lemma_tdiv_shrinks(p as int, d as int);
        lemma_div_of0(d as int);
    }
    match p.checked_div(d) {
        Some(q) => q,
        None => {
            proof {
                assert(false);
            }
            0
        },
    }
}

} // verus!

//! Sine, cosine and natural logarithm over fixed-point units.
//!
//! Angles are fixed-point radians. A quarter turn is `HALF_PI_UNITS`, and
//! the full-circle constant `TAU_UNITS` is exactly four quarter turns, so
//! quadrant reduction is exact. The functions are polynomial
//! approximations whose integer semantics the specifications give
//! exactly, term by term.

use vstd::prelude::*;
use vstd::arithmetic::div_mod::{lemma_fundamental_div_mod, lemma_mod_bound};
use vstd::arithmetic::power2::{pow2, lemma_pow2_strictly_increases, lemma2_to64, lemma2_to64_rest, lemma_pow2_unfold};
use crate::fixed::{SCALE, POS_LIMIT, tdiv, mul_div, lemma_tdiv_bound, lemma_tdiv_shrinks};

verus! {

/// A quarter turn (pi / 2) in angle units.
pub const HALF_PI_UNITS: i64 = 1_570_796;

/// Half a turn (pi) in angle units; exactly two quarter turns.
pub const PI_UNITS: i64 = 2 * HALF_PI_UNITS;

/// A full turn (2 pi) in angle units; exactly four quarter turns.
pub const TAU_UNITS: i64 = 4 * HALF_PI_UNITS;

/// ln(2) in fixed-point units.
pub const LN2_UNITS: i64 = 693_147;

/// One power step of a fixed-point polynomial: `a * b / SCALE`,
/// truncated, for non-negative operands.
fn pow_step(a: i128, b: i128) -> (r: i128)
    requires
        0 <= a <= 0x1000_0000_0000_0000_0000_0000,
        0 <= b <= 2 * (SCALE as i128),
    ensures
        r == tdiv(a * b, SCALE as int),
        0 <= r <= 2 * a,
        b <= SCALE ==> r <= a,
{
    proof {
        assert(a * b <= 0x1000_0000_0000_0000_0000_0000 * 2 * (SCALE as int)) by (nonlinear_arith)
            requires
                0 <= a <= 0x1000_0000_0000_0000_0000_0000,
                0 <= b <= 2 * (SCALE as i128),
        ;
        assert(a * b <= (2 * a) * (SCALE as int)) by (nonlinear_arith)
            requires
                0 <= a,
                0 <= b <= 2 * (SCALE as int),
        ;
        lemma_tdiv_bound(a * b, SCALE as int, 2 * a);
        if b <= SCALE {
            assert(a * b <= a * (SCALE as int)) by (nonlinear_arith)
                requires
                    0 <= a,
                    0 <= b <= SCALE as i128,
            ;
            lemma_tdiv_bound(a * b, SCALE as int, a as int);
        }
        assert(a * b >= 0) by (nonlinear_arith)
            requires
                0 <= a,
                0 <= b,
        ;
        lemma_tdiv_shrinks(a * b, SCALE as int);
    }
    mul_div(a, b, SCALE as i128)
}

/// Taylor polynomial for the sine on the first quadrant, in fixed-point
/// units, every power and coefficient applied with truncating division;
/// the result is clamped to `[0, SCALE]`.
pub open spec fn sin_quarter_spec(x: int) -> int {
    let s = SCALE as int;
    let x2 = tdiv(x * x, s);
    let x3 = tdiv(x2 * x, s);
    let x5 = tdiv(tdiv(x3 * x, s) * x, s);
    let x7 = tdiv(tdiv(x5 * x, s) * x, s);
    let x9 = tdiv(tdiv(x7 * x, s) * x, s);
    let raw = x - tdiv(x3, 6) + tdiv(x5, 120) - tdiv(x7, 5040) + tdiv(x9, 362880);
    if raw < 0 {
        0
    } else if raw > s {
        s
    } else {
        raw
    }
}

fn sin_quarter(x: i64) -> (r: i64)
    requires
        0 <= x <= HALF_PI_UNITS,
    ensures
        r == sin_quarter_spec(x as int),
        0 <= r <= SCALE,
{
    let s: i128 = SCALE as i128;
    let xi: i128 = x as i128;
    let x2 = pow_step(xi, xi);
    let x3 = pow_step(x2, xi);
    let x5 = pow_step(pow_step(x3, xi), xi);
    let x7 = pow_step(pow_step(x5, xi), xi);
    let x9 = pow_step(pow_step(x7, xi), xi);
    let t3 = mul_div(x3, 1, 6);
    let t5 = mul_div(x5, 1, 120);
    let t7 = mul_div(x7, 1, 5040);
    let t9 = mul_div(x9, 1, 362880);
    proof {
        lemma_tdiv_shrinks(x3 as int, 6);
        lemma_tdiv_shrinks(x5 as int, 120);
        lemma_tdiv_shrinks(x7 as int, 5040);
        lemma_tdiv_shrinks(x9 as int, 362880);
    }
    let raw = xi - t3 + t5 - t7 + t9;
    if raw < 0 {
        0
    } else if raw > s {
        SCALE
    } else {
        raw as i64
    }
}

/// Sine over a full turn, by exact quadrant reduction to the
/// first-quadrant polynomial.
pub open spec fn sin_units_spec(x: int) -> int {
    let hp = HALF_PI_UNITS as int;
    if x <= hp {
        sin_quarter_spec(x)
    } else if x <= 2 * hp {
        sin_quarter_spec(2 * hp - x)
    } else if x <= 3 * hp {
        -sin_quarter_spec(x - 2 * hp)
    } else {
        -sin_quarter_spec(4 * hp - x)
    }
}

/// Cosine over a full turn, by exact quadrant reduction to the
/// first-quadrant polynomial.
pub open spec fn cos_units_spec(x: int) -> int {
    let hp = HALF_PI_UNITS as int;
    if x <= hp {
        sin_quarter_spec(hp - x)
    } else if x <= 2 * hp {
        -sin_quarter_spec(x - hp)
    } else if x <= 3 * hp {
        -sin_quarter_spec(3 * hp - x)
    } else {
        sin_quarter_spec(x - 3 * hp)
    }
}

/// Fixed-point sine of an angle within one turn.
pub fn sin_units(x: i64) -> (r: i64)
    requires
        0 <= x <= TAU_UNITS,
    ensures
        r == sin_units_spec(x as int),
        -SCALE <= r <= SCALE,
{
    if x <= HALF_PI_UNITS {
        sin_quarter(x)
    } else if x <= 2 * HALF_PI_UNITS {
        sin_quarter(2 * HALF_PI_UNITS - x)
    } else if x <= 3 * HALF_PI_UNITS {
        -sin_quarter(x - 2 * HALF_PI_UNITS)
    } else {
        -sin_quarter(4 * HALF_PI_UNITS - x)
    }
}

/// Fixed-point cosine of an angle within one turn.
pub fn cos_units(x: i64) -> (r: i64)
    requires
        0 <= x <= TAU_UNITS,
    ensures
        r == cos_units_spec(x as int),
        -SCALE <= r <= SCALE,
{
    if x <= HALF_PI_UNITS {
        sin_quarter(HALF_PI_UNITS - x)
    } else if x <= 2 * HALF_PI_UNITS {
        -sin_quarter(x - HALF_PI_UNITS)
    } else if x <= 3 * HALF_PI_UNITS {
        -sin_quarter(3 * HALF_PI_UNITS - x)
    } else {
        sin_quarter(x - 3 * HALF_PI_UNITS)
    }
}

/// Normalization of a mantissa below `SCALE` by exact doubling;
/// yields the mantissa in `[SCALE, 2 * SCALE)` and the (negative)
/// binary exponent.
pub open spec fn ln_up_spec(m: int) -> (int, int)
    recommends
        1 <= m < SCALE,
    decreases SCALE - m,
{
    if 1 <= m < SCALE {
        if 2 * m >= SCALE {
            (2 * m, -1int)
        } else {
            let (mm, e) = ln_up_spec(2 * m);
            (mm, e - 1)
        }
    } else {
        (m, 0int)
    }
}

/// Normalization of a mantissa at or above `2 * SCALE` by truncated
/// halving; yields the mantissa in `[SCALE, 2 * SCALE)` and the
/// (positive) binary exponent.
pub open spec fn ln_down_spec(m: int) -> (int, int)
    recommends
        m >= 2 * SCALE,
    decreases m,
{
    if m >= 2 * SCALE {
        let half = m / 2;
        if half < 2 * SCALE {
            (half, 1int)
        } else {
            let (mm, e) = ln_down_spec(half);
            (mm, e + 1)
        }
    } else {
        (m, 0int)
    }
}

/// Mantissa-and-exponent form of a positive fixed-point value.
pub open spec fn ln_norm_spec(m: int) -> (int, int) {
    if m < SCALE {
        ln_up_spec(m)
    } else if m >= 2 * SCALE {
        ln_down_spec(m)
    } else {
        (m, 0int)
    }
}

fn ln_up(m: i64) -> (r: (i64, i64))
    requires
        1 <= m < SCALE,
    ensures
        r.0 == ln_up_spec(m as int).0,
        r.1 == ln_up_spec(m as int).1,
        SCALE <= r.0 < 2 * SCALE,
        -20 <= r.1 <= -1,
        r.0 == pow2((-r.1) as nat) * m,
    decreases SCALE - m,
{
    if 2 * m >= SCALE {
        proof {
            lemma2_to64();
        }
        (2 * m, -1)
    } else {
        let (mm, e) = ln_up(2 * m);
        proof {
            lemma_pow2_unfold((1 - e) as nat);
            assert(pow2((1 - e) as nat) * (m as int) == pow2((-e) as nat) * (2 * m))
                by (nonlinear_arith)
                requires
                    pow2((1 - e) as nat) == 2 * pow2((-e) as nat),
            ;
            if e - 1 < -20 {
                // Depth is bounded: the mantissa is m times a power of two
                // and stays under 2 * SCALE, so the power cannot reach 2^21.
                if 1 - e > 21 {
                    lemma_pow2_strictly_increases(21, (1 - e) as nat);
                }
                lemma2_to64();
                assert(pow2((1 - e) as nat) * (m as int) >= pow2((1 - e) as nat) * 1)
                    by (nonlinear_arith)
                    requires
                        m >= 1,
                        pow2((1 - e) as nat) >= 0,
                ;
                assert(false);
            }
        }
        (mm, e - 1)
    }
}

fn ln_down(m: i64) -> (r: (i64, i64))
    requires
        2 * SCALE <= m <= POS_LIMIT,
    ensures
        r.0 == ln_down_spec(m as int).0,
        r.1 == ln_down_spec(m as int).1,
        SCALE <= r.0 < 2 * SCALE,
        1 <= r.1 <= 40,
        pow2(r.1 as nat) * r.0 <= m,
    decreases m,
{
    let half = ((m as u64) / 2) as i64;
    proof {
        lemma_fundamental_div_mod(m as int, 2);
        lemma_mod_bound(m as int, 2);
    }
    assert(half == m as int / 2);
    if half < 2 * SCALE {
        proof {
            lemma2_to64();
        }
        (half, 1)
    } else {
        let (mm, e) = ln_down(half);
        proof {
            lemma_pow2_unfold((e + 1) as nat);
            assert(pow2((e + 1) as nat) * mm == 2 * (pow2(e as nat) * mm)) by (nonlinear_arith)
                requires
                    pow2((e + 1) as nat) == 2 * pow2(e as nat),
            ;
            if e + 1 > 40 {
                // Depth is bounded: the power of two times a mantissa of at
                // least SCALE stays under POS_LIMIT, so it cannot reach 2^41.
                if e + 1 > 41 {
                    lemma_pow2_strictly_increases(41, (e + 1) as nat);
                }
                lemma2_to64_rest();
                assert(pow2((e + 1) as nat) * mm >= pow2((e + 1) as nat) * (SCALE as int))
                    by (nonlinear_arith)
                    requires
                        mm >= SCALE,
                        pow2((e + 1) as nat) >= 0,
                ;
                assert(pow2((e + 1) as nat) * (SCALE as int) > POS_LIMIT) by (nonlinear_arith)
                    requires
                        pow2((e + 1) as nat) >= 0x20000000000,
                        SCALE == 1_000_000,
                        POS_LIMIT == 1_000_000_000_000_000_000,
                ;
                assert(false);
            }
        }
        (mm, e + 1)
    }
}

/// Truncated series for the inverse hyperbolic tangent, the kernel of
/// the logarithm, in fixed-point units.
pub open spec fn atanh_units_spec(z: int) -> int {
    let s = SCALE as int;
    let z2 = tdiv(z * z, s);
    let z3 = tdiv(z2 * z, s);
    let z5 = tdiv(tdiv(z3 * z, s) * z, s);
    let z7 = tdiv(tdiv(z5 * z, s) * z, s);
    let z9 = tdiv(tdiv(z7 * z, s) * z, s);
    z + tdiv(z3, 3) + tdiv(z5, 5) + tdiv(z7, 7) + tdiv(z9, 9)
}

/// Natural logarithm of a positive fixed-point value, in fixed-point
/// units: the value is normalized to mantissa times power of two, and
/// `ln` of the mantissa is taken by the `atanh` series.
pub open spec fn ln_units_spec(x: int) -> int
    recommends
        1 <= x,
{
    let (m, e) = ln_norm_spec(x);
    let z = tdiv((m - SCALE) * SCALE, m + SCALE);
    e * (LN2_UNITS as int) + 2 * atanh_units_spec(z)
}

/// Fixed-point natural logarithm.
pub fn ln_units(x: i64) -> (r: i64)
    requires
        1 <= x <= POS_LIMIT,
    ensures
        r == ln_units_spec(x as int),
        -15_000_000 <= r <= 33_000_000,
{
    let (m, e): (i64, i64) = if x < SCALE {
        ln_up(x)
    } else if x >= 2 * SCALE {
        ln_down(x)
    } else {
        (x, 0)
    };
    let s: i128 = SCALE as i128;
    let mi: i128 = m as i128;
    proof {
        assert((mi - s) * s <= 500_000 * (mi + s)) by (nonlinear_arith)
            requires
                s == 1_000_000,
                s <= mi <= 2 * s,
        ;
        assert((mi - s) * s >= 0) by (nonlinear_arith)
            requires
                s == 1_000_000,
                s <= mi,
        ;
        lemma_tdiv_bound((mi - s) * s, mi + s, 500_000);
        lemma_tdiv_shrinks((mi - s) * s, mi + s);
    }
    let z = mul_div(mi - s, s, mi + s);
    let z2 = pow_step(z, z);
    let z3 = pow_step(z2, z);
    let z5 = pow_step(pow_step(z3, z), z);
    let z7 = pow_step(pow_step(z5, z), z);
    let z9 = pow_step(pow_step(z7, z), z);
    let t3 = mul_div(z3, 1, 3);
    let t5 = mul_div(z5, 1, 5);
    let t7 = mul_div(z7, 1, 7);
    let t9 = mul_div(z9, 1, 9);
    proof {
        lemma_tdiv_shrinks(z3 as int, 3);
        lemma_tdiv_shrinks(z5 as int, 5);
        lemma_tdiv_shrinks(z7 as int, 7);
        lemma_tdiv_shrinks(z9 as int, 9);
    }
    let h = z + t3 + t5 + t7 + t9;
    proof {
        assert(-20 * (LN2_UNITS as int) <= (e as int) * (LN2_UNITS as int) <= 40 * (
        LN2_UNITS as int)) by (nonlinear_arith)
            requires
                -20 <= e <= 40,
                LN2_UNITS == 693_147,
        ;
    }
    let r128: i128 = (e as i128) * (LN2_UNITS as i128) + 2 * h;
    r128 as i64
}

/// An angle reduced to `[0, TAU_UNITS)`: the Euclidean remainder by a
/// full turn.
pub open spec fn norm_angle_spec(a: int) -> int {
    a % (TAU_UNITS as int)
}

/// Reduce any angle to `[0, TAU_UNITS)`.
pub fn norm_angle(a: i128) -> (r: i64)
    ensures
        r == norm_angle_spec(a as int),
        0 <= r < TAU_UNITS,
{
    proof {
        lemma_mod_bound(a as int, TAU_UNITS as int);
    }
    match a.checked_rem_euclid(TAU_UNITS as i128) {
        Some(v) => v as i64,
        None => {
            proof {
                assert(false);
            }
            0
        },
    }
}

} // verus!

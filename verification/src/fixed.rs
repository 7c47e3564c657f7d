//! Fixed-point scalar arithmetic.
//!
//! A real number x is represented by the integer `x * 2^40` rounded to an
//! integer, so `FX_ONE` stands for 1.0.  Multiplication of two scaled values
//! rescales the 128-bit product by a truncating (round-toward-zero) division
//! by `FX_ONE`.

use vstd::prelude::*;

verus! {

/// The fixed-point representation of 1.0, namely 2^40.
pub const FX_ONE: i64 = 1099511627776;

/// Truncating (round-toward-zero) division of `x` by a positive divisor `d`.
pub open spec fn trunc_div(x: int, d: int) -> int {
    if x >= 0 {
        x / d
    } else {
        -((-x) / d)
    }
}

/// The fixed-point product of two scaled values: `a * b / 2^40`,
/// rounded toward zero.
pub open spec fn fx_mul(a: int, b: int) -> int {
    trunc_div(a * b, FX_ONE as int)
}

/// Truncating division flips sign with its dividend.
pub proof fn lemma_trunc_div_neg(x: int, d: int)
    requires
        d > 0,
    ensures
        trunc_div(-x, d) == -trunc_div(x, d),
{
    if x == 0 {
        assert(trunc_div(0int, d) == 0) by {
            vstd::arithmetic::div_mod::lemma_div_of0(d);
        }
    }
}

/// The magnitude of a truncating quotient is bounded by the quotient of a
/// bound on the magnitude of the dividend.
pub proof fn lemma_trunc_div_mag(x: int, d: int, m: int)
    requires
        d > 0,
        -m <= x <= m,
    ensures
        -(m / d) <= trunc_div(x, d) <= m / d,
{
    vstd::arithmetic::div_mod::lemma_div_pos_is_pos(m, d);
    if x >= 0 {
        vstd::arithmetic::div_mod::lemma_div_is_ordered(x, m, d);
        vstd::arithmetic::div_mod::lemma_div_pos_is_pos(x, d);
    } else {
        vstd::arithmetic::div_mod::lemma_div_is_ordered(-x, m, d);
        vstd::arithmetic::div_mod::lemma_div_pos_is_pos(-x, d);
    }
}

/// Scaling down by `FX_ONE` keeps a product of two factors bounded by the
/// product of bounds on the factors.
pub proof fn lemma_fx_mul_bound(a: int, b: int, ma: int, mb: int)
    requires
        -ma <= a <= ma,
        -mb <= b <= mb,
    ensures
        -(ma * mb) <= a * b <= ma * mb,
        -((ma * mb) / (FX_ONE as int)) <= fx_mul(a, b) <= (ma * mb) / (FX_ONE as int),
{
    assert(-(ma * mb) <= a * b <= ma * mb) by (nonlinear_arith)
        requires
            -ma <= a <= ma,
            -mb <= b <= mb,
    ;
    lemma_trunc_div_mag(a * b, FX_ONE as int, ma * mb);
}

/// Negating one factor negates the fixed-point product exactly.
pub proof fn lemma_fx_mul_neg(a: int, b: int)
    ensures
        fx_mul(a, -b) == -fx_mul(a, b),
{
    assert(a * (-b) == -(a * b)) by (nonlinear_arith);
    lemma_trunc_div_neg(a * b, FX_ONE as int);
}

/// A fixed-point square is never negative.
pub proof fn lemma_fx_square_nonneg(a: int)
    ensures
        fx_mul(a, a) >= 0,
{
    assert(a * a >= 0) by (nonlinear_arith);
    vstd::arithmetic::div_mod::lemma_div_pos_is_pos(a * a, FX_ONE as int);
}

/// Computes `fx_mul(a, b)` exactly.  The result of scaling a 128-bit
/// product down by 2^40 always fits well within an `i128`.
pub fn mul_scaled(a: i64, b: i64) -> (r: i128)
    ensures
        r == fx_mul(a as int, b as int),
        -0x40_0000_0000_0000_0000_0000 <= r <= 0x40_0000_0000_0000_0000_0000,
{
    proof {
        lemma_fx_mul_bound(
            a as int,
            b as int,
            0x8000_0000_0000_0000,
            0x8000_0000_0000_0000,
        );
        assert(0x8000_0000_0000_0000 * 0x8000_0000_0000_0000
            == 0x4000_0000_0000_0000_0000_0000_0000_0000int);
        assert(0x4000_0000_0000_0000_0000_0000_0000_0000int
            == 0x40_0000_0000_0000_0000_0000int * (FX_ONE as int));
        assert(0x4000_0000_0000_0000_0000_0000_0000_0000int / (FX_ONE as int)
            == 0x40_0000_0000_0000_0000_0000int) by {
            vstd::arithmetic::div_mod::lemma_div_multiples_vanish(
                0x40_0000_0000_0000_0000_0000int,
                FX_ONE as int,
            );
        }
    }
    let p: i128 = (a as i128) * (b as i128);
    if p >= 0 {
        ((p as u128) / (FX_ONE as u128)) as i128
    } else {
        -((((-p) as u128) / (FX_ONE as u128)) as i128)
    }
}

/// The integer square root: the largest `r` with `r * r <= x`.
pub open spec fn sqrt_floor(x: int) -> int {
    choose|r: int| 0 <= r && #[trigger] (r * r) <= x < (r + 1) * (r + 1)
}

/// Any witness of the square-root characterization is the square root.
pub proof fn lemma_sqrt_floor_is(x: int, r: int)
    requires
        0 <= r,
        r * r <= x,
        x < (r + 1) * (r + 1),
    ensures
        sqrt_floor(x) == r,
{
    assert(exists|q: int| 0 <= q && #[trigger] (q * q) <= x < (q + 1) * (q + 1)) by {
        assert(0 <= r && r * r <= x < (r + 1) * (r + 1));
    }
    let q = sqrt_floor(x);
    assert(0 <= q && q * q <= x < (q + 1) * (q + 1));
    if q < r {
        assert((q + 1) * (q + 1) <= r * r) by (nonlinear_arith)
            requires
                0 <= q < r,
        ;
    }
    if r < q {
        assert((r + 1) * (r + 1) <= q * q) by (nonlinear_arith)
            requires
                0 <= r < q,
        ;
    }
}

/// Computes the integer square root of a 128-bit value by bisection.
pub fn isqrt_u128(x: u128) -> (r: u128)
    ensures
        r as int == sqrt_floor(x as int),
        r * r <= x,
        (r + 1) * (r + 1) > x,
        r <= 0xFFFF_FFFF_FFFF_FFFF,
{
    let mut lo: u128 = 0;
    let mut hi: u128 = 0x1_0000_0000_0000_0000;
    proof {
        assert((0x1_0000_0000_0000_0000int) * (0x1_0000_0000_0000_0000int)
            == 0x1_0000_0000_0000_0000_0000_0000_0000_0000int);
    }
    while lo + 1 < hi
        invariant
            lo < hi <= 0x1_0000_0000_0000_0000,
            lo * lo <= x,
            (x as int) < (hi as int) * (hi as int),
        decreases hi - lo,
    {
        let mid = lo + (hi - lo) / 2;
        proof {
            assert((mid as int) * (mid as int)
                <= 0xFFFF_FFFF_FFFF_FFFFint * 0xFFFF_FFFF_FFFF_FFFFint) by (nonlinear_arith)
                requires
                    0 <= mid as int <= 0xFFFF_FFFF_FFFF_FFFFint,
            ;
        }
        if mid * mid <= x {
            lo = mid;
        } else {
            hi = mid;
        }
    }
    proof {
        lemma_sqrt_floor_is(x as int, lo as int);
    }
    lo
}

/// Computes `a / d` in fixed-point scale, that is `a * 2^40 / d` rounded
/// toward zero, for a positive divisor.
pub fn div_scaled(a: i64, d: i128) -> (r: i128)
    requires
        d > 0,
    ensures
        r == trunc_div(a as int * FX_ONE as int, d as int),
{
    proof {
        assert(-0x80_0000_0000_0000_0000_0000_0000int <= (a as int) * (FX_ONE as int)
            <= 0x80_0000_0000_0000_0000_0000_0000int) by (nonlinear_arith)
            requires
                -0x8000_0000_0000_0000 <= a as int <= 0x8000_0000_0000_0000,
                FX_ONE as int == 0x100_0000_0000int,
        ;
    }
    let n: i128 = (a as i128) * (FX_ONE as i128);
    if n >= 0 {
        let q = (n as u128) / (d as u128);
        proof {
            vstd::arithmetic::div_mod::lemma_div_is_ordered_by_denominator(n as int, 1, d as int);
        }
        q as i128
    } else {
        let q = ((-n) as u128) / (d as u128);
        proof {
            vstd::arithmetic::div_mod::lemma_div_is_ordered_by_denominator(-(n as int), 1, d as int);
        }
        -(q as i128)
    }
}

} // verus!

//! Complex amplitudes in fixed-point representation.

use crate::fixed::{fx_mul, lemma_fx_mul_bound, lemma_fx_square_nonneg, mul_scaled, FX_ONE};
use vstd::prelude::*;

verus! {

/// A complex number whose real and imaginary parts are fixed-point values:
/// the stored integers are the real parts times 2^40.
#[derive(Clone, Copy, Debug, PartialEq, Eq, Structural)]
pub struct Complex {
    pub re: i64,
    pub im: i64,
}

/// The complex number 0.
pub open spec fn c_zero() -> Complex {
    Complex { re: 0, im: 0 }
}

/// The complex number 1.
pub open spec fn c_one() -> Complex {
    Complex { re: FX_ONE, im: 0 }
}

/// The complex number -1.
pub open spec fn c_neg_one() -> Complex {
    Complex { re: (-FX_ONE) as i64, im: 0 }
}

/// The complex number i.
pub open spec fn c_i() -> Complex {
    Complex { re: 0, im: FX_ONE }
}

/// The complex number -i.
pub open spec fn c_neg_i() -> Complex {
    Complex { re: 0, im: (-FX_ONE) as i64 }
}

/// The real part of the fixed-point product of two complex values.
pub open spec fn cmul_re(a: Complex, b: Complex) -> int {
    fx_mul(a.re as int, b.re as int) - fx_mul(a.im as int, b.im as int)
}

/// The imaginary part of the fixed-point product of two complex values.
pub open spec fn cmul_im(a: Complex, b: Complex) -> int {
    fx_mul(a.re as int, b.im as int) + fx_mul(a.im as int, b.re as int)
}

/// The squared magnitude of an amplitude, in fixed-point scale: a value of
/// `FX_ONE` stands for probability 1.
pub open spec fn prob_of(c: Complex) -> int {
    fx_mul(c.re as int, c.re as int) + fx_mul(c.im as int, c.im as int)
}

/// A squared magnitude is never negative and fits comfortably in 128 bits.
pub proof fn lemma_prob_of_bounds(c: Complex)
    ensures
        0 <= prob_of(c) <= 0x80_0000_0000_0000_0000_0000,
{
    lemma_fx_square_nonneg(c.re as int);
    lemma_fx_square_nonneg(c.im as int);
    lemma_fx_mul_bound(c.re as int, c.re as int, 0x8000_0000_0000_0000, 0x8000_0000_0000_0000);
    lemma_fx_mul_bound(c.im as int, c.im as int, 0x8000_0000_0000_0000, 0x8000_0000_0000_0000);
    assert(0x8000_0000_0000_0000 * 0x8000_0000_0000_0000
        == 0x4000_0000_0000_0000_0000_0000_0000_0000int);
    assert(0x4000_0000_0000_0000_0000_0000_0000_0000int
        == 0x40_0000_0000_0000_0000_0000int * (FX_ONE as int));
    assert(0x4000_0000_0000_0000_0000_0000_0000_0000int / (FX_ONE as int)
        == 0x40_0000_0000_0000_0000_0000int) by {
        vstd::arithmetic::div_mod::lemma_div_multiples_vanish(
            0x40_0000_0000_0000_0000_0000int,
            FX_ONE as int,
        );
    }
}

impl Complex {
    /// Builds the amplitude `re + im * i` from fixed-point parts.
    pub fn new(re: i64, im: i64) -> (r: Complex)
        ensures
            r == (Complex { re, im }),
    {
        Complex { re, im }
    }

    /// The amplitude 0.
    pub fn zero() -> (r: Complex)
        ensures
            r == c_zero(),
    {
        Complex { re: 0, im: 0 }
    }

    /// The amplitude 1.
    pub fn one() -> (r: Complex)
        ensures
            r == c_one(),
    {
        Complex { re: FX_ONE, im: 0 }
    }

    /// The squared magnitude of this amplitude, in fixed-point scale.
    pub fn prob(&self) -> (p: i128)
        ensures
            p == prob_of(*self),
            0 <= p <= 0x80_0000_0000_0000_0000_0000,
    {
        proof {
            lemma_prob_of_bounds(*self);
        }
        mul_scaled(self.re, self.re) + mul_scaled(self.im, self.im)
    }
}

/// Computes the real and imaginary parts of the fixed-point product
/// `m * q`, kept in 128 bits so that later summation cannot overflow.
pub fn cmul_parts(m: Complex, q: Complex) -> (t: (i128, i128))
    ensures
        t.0 == cmul_re(m, q),
        t.1 == cmul_im(m, q),
        -0x80_0000_0000_0000_0000_0000 <= t.0 <= 0x80_0000_0000_0000_0000_0000,
        -0x80_0000_0000_0000_0000_0000 <= t.1 <= 0x80_0000_0000_0000_0000_0000,
{
    let rr = mul_scaled(m.re, q.re);
    let ii = mul_scaled(m.im, q.im);
    let ri = mul_scaled(m.re, q.im);
    let ir = mul_scaled(m.im, q.re);
    (rr - ii, ri + ir)
}

} // verus!

//! The quantum state: an ordered vector of complex amplitudes.

use crate::complex::{c_one, c_zero, prob_of, Complex};
use crate::fixed::FX_ONE;
use vstd::prelude::*;

verus! {

/// A register state: a vector of complex amplitudes.  A register of n
/// qubits has 2^n amplitudes; the qubit count is implicit in the length.
/// The constructors place no restriction on the list, exactly as callers
/// supply it.
#[derive(Debug)]
pub struct Qubit {
    pub state: Vec<Complex>,
}

/// The sum of the squared magnitudes of the first `k` amplitudes.
pub open spec fn prob_prefix_sum(s: Seq<Complex>, k: int) -> int
    decreases k,
{
    if k <= 0 {
        0
    } else {
        prob_prefix_sum(s, k - 1) + prob_of(s[k - 1])
    }
}

/// The squared norm of a state: the total probability mass.
pub open spec fn norm_sqr_spec(s: Seq<Complex>) -> int {
    prob_prefix_sum(s, s.len() as int)
}

/// Whether outcome `r` is what the cumulative walk answers for draw `d`:
/// the mass before `r` does not exceed the draw, and the mass through `r`
/// does unless `r` is the final fallback index.
pub open spec fn measure_consistent(s: Seq<Complex>, r: int, d: int) -> bool {
    &&& 0 <= d < FX_ONE
    &&& prob_prefix_sum(s, r) <= d
    &&& (r + 1 < s.len() ==> prob_prefix_sum(s, r + 1) > d)
}

/// Draws one sample from the thread-local generator.
///
/// Relies on rand::random::<u64>: an independent uniform draw; nothing can
/// be promised of its value.
#[verifier::external_body]
fn random_u64() -> u64 {
    rand::random::<u64>()
}

impl Qubit {
    /// Creates a state initialized to `|0>`: amplitude 1 at index 0,
    /// amplitude 0 at index 1.
    pub fn new() -> (q: Qubit)
        ensures
            q.state@ =~= seq![c_one(), c_zero()],
    {
        let mut v: Vec<Complex> = Vec::new();
        v.push(Complex::one());
        v.push(Complex::zero());
        Qubit { state: v }
    }

    /// Wraps a caller-supplied amplitude list verbatim; no normalization
    /// or length check is performed.
    pub fn from_state(state: Vec<Complex>) -> (q: Qubit)
        ensures
            q.state == state,
    {
        Qubit { state }
    }

    /// Builds a two-amplitude state from two real parts, with zero
    /// imaginary parts.
    pub fn from_real_parts(re0: i64, re1: i64) -> (q: Qubit)
        ensures
            q.state@ =~= seq![Complex { re: re0, im: 0 }, Complex { re: re1, im: 0 }],
    {
        let mut v: Vec<Complex> = Vec::new();
        v.push(Complex::new(re0, 0));
        v.push(Complex::new(re1, 0));
        Qubit { state: v }
    }

    /// The squared magnitude of each amplitude, in fixed-point scale:
    /// `FX_ONE` stands for probability 1.  The masses sum to the squared
    /// norm of the state, so for a state of unit norm they sum to 1.
    pub fn probabilities(&self) -> (p: Vec<i128>)
        ensures
            p@.len() == self.state@.len(),
            forall|i: int| 0 <= i < p@.len() ==> p@[i] == prob_of(self.state@[i]),
            sum_prefix(p@, p@.len() as int) == norm_sqr_spec(self.state@),
    {
        let mut out: Vec<i128> = Vec::new();
        let mut i: usize = 0;
        while i < self.state.len()
            invariant
                i <= self.state@.len(),
                out@.len() == i,
                forall|j: int| 0 <= j < i ==> out@[j] == prob_of(self.state@[j]),
            decreases self.state@.len() - i,
        {
            out.push(self.state[i].prob());
            i = i + 1;
        }
        proof {
            lemma_probabilities_sum(out@, self.state@, self.state@.len() as int);
        }
        out
    }

    /// Walks the cumulative probability masses in index order and returns
    /// the first index at which the running mass exceeds the draw, falling
    /// back to the last index when the total mass never exceeds it.
    pub fn measure_with_draw(&self, draw: i64) -> (r: usize)
        requires
            self.state@.len() >= 1,
            0 <= draw,
        ensures
            r < self.state@.len(),
            prob_prefix_sum(self.state@, r as int) <= draw,
            r + 1 < self.state@.len() ==> prob_prefix_sum(self.state@, r as int + 1) > draw,
    {
        let n = self.state.len();
        let mut cum: i128 = 0;
        let mut i: usize = 0;
        while i < n - 1
            invariant
                n == self.state@.len(),
                1 <= n,
                i <= n - 1,
                cum == prob_prefix_sum(self.state@, i as int),
                cum <= draw as int,
            decreases n - i,
        {
            let p = self.state[i].prob();
            if cum + p > draw as i128 {
                return i;
            }
            cum = cum + p;
            i = i + 1;
        }
        n - 1
    }

    /// Samples a classical outcome from the distribution implied by the
    /// probabilities: the stored amplitudes are read, never changed.  The
    /// index is the sole non-deterministic result of the engine: whatever
    /// the draw was, the result is the cumulative walk's answer for one
    /// draw below 1.
    pub fn measure(&self) -> (r: usize)
        requires
            self.state@.len() >= 1,
        ensures
            r < self.state@.len(),
            exists|d: int| #[trigger] measure_consistent(self.state@, r as int, d),
    {
        let u = random_u64();
        let draw = (u % (FX_ONE as u64)) as i64;
        let r = self.measure_with_draw(draw);
        proof {
            assert(measure_consistent(self.state@, r as int, draw as int));
        }
        r
    }
}

impl Default for Qubit {
    /// The default state is `|0>`.
    fn default() -> (q: Qubit)
        ensures
            q.state@ =~= seq![c_one(), c_zero()],
    {
        Qubit::new()
    }
}

/// The probabilities of a state sum to its squared norm, so for a state of
/// unit norm the reported masses sum to exactly 1.
pub proof fn lemma_probabilities_sum(p: Seq<i128>, s: Seq<Complex>, k: int)
    requires
        p.len() == s.len(),
        forall|i: int| 0 <= i < p.len() ==> p[i] == prob_of(s[i]),
        0 <= k <= s.len(),
    ensures
        sum_prefix(p, k) == prob_prefix_sum(s, k),
    decreases k,
{
    if k > 0 {
        lemma_probabilities_sum(p, s, k - 1);
    }
}

/// The sum of the first `k` entries of a list of masses.
pub open spec fn sum_prefix(p: Seq<i128>, k: int) -> int
    decreases k,
{
    if k <= 0 {
        0
    } else {
        sum_prefix(p, k - 1) + p[k - 1]
    }
}

/// The componentwise sum of the amplitudes among the first `k` whose bit
/// `t` equals `b`: the real sum first, the imaginary sum second.
pub open spec fn bucket_sums(s: Seq<Complex>, t: nat, b: int, k: int) -> (int, int)
    decreases k,
{
    if k <= 0 {
        (0int, 0int)
    } else {
        let prev = bucket_sums(s, t, b, k - 1);
        if crate::gates::bit(k - 1, t) == b {
            (prev.0 + s[k - 1].re, prev.1 + s[k - 1].im)
        } else {
            prev
        }
    }
}

/// What the reduced single-qubit view of a state at bit `t` is: the two
/// bucket sums, scaled to unit norm by the fixed-point division of each
/// component by the square root of the total mass of the pair; a pair of
/// zeros stays zero, and a value that leaves the fixed-point range
/// reports overflow.
pub open spec fn reduced_spec(s: Seq<Complex>, t: nat) -> Result<
    (Complex, Complex),
    crate::error::QuantumError,
> {
    let z = bucket_sums(s, t, 0, s.len() as int);
    let o = bucket_sums(s, t, 1, s.len() as int);
    if !crate::gates::fits_i64(z.0) || !crate::gates::fits_i64(z.1) || !crate::gates::fits_i64(o.0)
        || !crate::gates::fits_i64(o.1) {
        Err(crate::error::QuantumError::Overflow)
    } else {
        let c0 = Complex { re: z.0 as i64, im: z.1 as i64 };
        let c1 = Complex { re: o.0 as i64, im: o.1 as i64 };
        let p = prob_of(c0) + prob_of(c1);
        if p == 0 {
            Ok((c_zero(), c_zero()))
        } else if p * (FX_ONE as int) > u128::MAX as int {
            Err(crate::error::QuantumError::Overflow)
        } else {
            let norm = crate::fixed::sqrt_floor(p * (FX_ONE as int));
            let q0r = crate::fixed::trunc_div(c0.re * (FX_ONE as int), norm);
            let q0i = crate::fixed::trunc_div(c0.im * (FX_ONE as int), norm);
            let q1r = crate::fixed::trunc_div(c1.re * (FX_ONE as int), norm);
            let q1i = crate::fixed::trunc_div(c1.im * (FX_ONE as int), norm);
            if !crate::gates::fits_i64(q0r) || !crate::gates::fits_i64(q0i)
                || !crate::gates::fits_i64(q1r) || !crate::gates::fits_i64(q1i) {
                Err(crate::error::QuantumError::Overflow)
            } else {
                Ok(
                    (
                        Complex { re: q0r as i64, im: q0i as i64 },
                        Complex { re: q1r as i64, im: q1i as i64 },
                    ),
                )
            }
        }
    }
}

/// Computes the effective single-qubit amplitude pair for one bit
/// position: the amplitudes of all basis states sharing bit value 0 are
/// summed into the first component, those sharing bit value 1 into the
/// second, and the pair is normalized to unit norm — unless the summed
/// mass is exactly zero, in which case the pair is left at zero.
#[verifier::loop_isolation(false)]
pub fn get_reduced_state(state: &Vec<Complex>, qubit_index: usize) -> (r: Result<
    (Complex, Complex),
    crate::error::QuantumError,
>)
    requires
        qubit_index <= 15,
        state@.len() <= 0x1_0000_0000_0000,
    ensures
        r == reduced_spec(state@, qubit_index as nat),
{
    let ghost t = qubit_index as nat;
    let mask = crate::gates::pow2_usize(qubit_index);
    proof {
        vstd::arithmetic::power2::lemma_pow2_pos(t);
    }
    let n = state.len();
    let mut a0re: i128 = 0;
    let mut a0im: i128 = 0;
    let mut a1re: i128 = 0;
    let mut a1im: i128 = 0;
    let mut i: usize = 0;
    while i < n
        invariant
            i <= n,
            a0re == bucket_sums(state@, t, 0, i as int).0,
            a0im == bucket_sums(state@, t, 0, i as int).1,
            a1re == bucket_sums(state@, t, 1, i as int).0,
            a1im == bucket_sums(state@, t, 1, i as int).1,
            -((i as int) * 0x8000_0000_0000_0000) <= a0re <= (i as int) * 0x8000_0000_0000_0000,
            -((i as int) * 0x8000_0000_0000_0000) <= a0im <= (i as int) * 0x8000_0000_0000_0000,
            -((i as int) * 0x8000_0000_0000_0000) <= a1re <= (i as int) * 0x8000_0000_0000_0000,
            -((i as int) * 0x8000_0000_0000_0000) <= a1im <= (i as int) * 0x8000_0000_0000_0000,
        decreases n - i,
    {
        proof {
            assert((i as int) * 0x8000_0000_0000_0000 + 0x8000_0000_0000_0000 == ((i + 1) as int)
                * 0x8000_0000_0000_0000) by (nonlinear_arith);
            assert(((i + 1) as int) * 0x8000_0000_0000_0000 <= 0x1_0000_0000_0000
                * 0x8000_0000_0000_0000) by (nonlinear_arith)
                requires
                    0 <= ((i + 1) as int) <= 0x1_0000_0000_0000,
            ;
        }
        let c = state[i];
        if (i / mask) % 2 == 0 {
            a0re = a0re + (c.re as i128);
            a0im = a0im + (c.im as i128);
        } else {
            a1re = a1re + (c.re as i128);
            a1im = a1im + (c.im as i128);
        }
        i = i + 1;
    }
    if a0re < i64::MIN as i128 || a0re > i64::MAX as i128 || a0im < i64::MIN as i128 || a0im
        > i64::MAX as i128 || a1re < i64::MIN as i128 || a1re > i64::MAX as i128 || a1im
        < i64::MIN as i128 || a1im > i64::MAX as i128 {
        return Err(crate::error::QuantumError::Overflow);
    }
    let c0 = Complex { re: a0re as i64, im: a0im as i64 };
    let c1 = Complex { re: a1re as i64, im: a1im as i64 };
    let p = c0.prob() + c1.prob();
    if p == 0 {
        return Ok((Complex::zero(), Complex::zero()));
    }
    if p > 0xFF_FFFF_FFFF_FFFF_FFFF_FFFF {
        proof {
            assert(p * (FX_ONE as int) > u128::MAX as int) by (nonlinear_arith)
                requires
                    p as int >= 0x100_0000_0000_0000_0000_0000,
                    FX_ONE as int == 0x100_0000_0000,
                    u128::MAX as int == 0x1_0000_0000_0000_0000_0000_0000_0000_0000 - 1,
            ;
        }
        return Err(crate::error::QuantumError::Overflow);
    }
    proof {
        assert(p * (FX_ONE as int) <= (0x100_0000_0000_0000_0000_0000 - 1) * 0x100_0000_0000)
            by (nonlinear_arith)
            requires
                0 <= p as int <= 0x100_0000_0000_0000_0000_0000 - 1,
                FX_ONE as int == 0x100_0000_0000,
        ;
    }
    let pn: u128 = (p as u128) * (FX_ONE as u128);
    proof {
        assert(pn as int >= FX_ONE as int) by (nonlinear_arith)
            requires
                p as int >= 1,
                pn as int == (p as int) * (FX_ONE as int),
                FX_ONE as int > 0,
        ;
    }
    let norm = crate::fixed::isqrt_u128(pn);
    proof {
        if norm == 0 {
            assert((norm + 1) * (norm + 1) == 1) by (nonlinear_arith)
                requires
                    norm == 0,
            ;
            assert(false);
        }
    }
    let q0r = crate::fixed::div_scaled(c0.re, norm as i128);
    let q0i = crate::fixed::div_scaled(c0.im, norm as i128);
    let q1r = crate::fixed::div_scaled(c1.re, norm as i128);
    let q1i = crate::fixed::div_scaled(c1.im, norm as i128);
    if q0r < i64::MIN as i128 || q0r > i64::MAX as i128 || q0i < i64::MIN as i128 || q0i
        > i64::MAX as i128 || q1r < i64::MIN as i128 || q1r > i64::MAX as i128 || q1i
        < i64::MIN as i128 || q1i > i64::MAX as i128 {
        return Err(crate::error::QuantumError::Overflow);
    }
    Ok((Complex { re: q0r as i64, im: q0i as i64 }, Complex { re: q1r as i64, im: q1i as i64 }))
}

} // verus!

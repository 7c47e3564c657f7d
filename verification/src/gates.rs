//! Quantum gates: square complex matrices, with factories that build the
//! standard gates directly from the bit-level tensor structure of the
//! register.

use crate::complex::{c_i, c_neg_i, c_neg_one, c_one, c_zero, cmul_im, cmul_parts, cmul_re, Complex};
use crate::error::QuantumError;
use crate::fixed::{fx_mul, FX_ONE};
use crate::qubit::Qubit;
use vstd::arithmetic::power2::pow2;
use vstd::prelude::*;

verus! {

/// The fixed-point value of 1/sqrt(2), the Hadamard normalization factor:
/// 2^40 / sqrt(2) rounded to the nearest integer.
pub const H_FX: i64 = 777472127994;

/// A gate: a square matrix of complex amplitudes, stored as a flat
/// row-major buffer with its dimension alongside.
#[derive(Debug)]
pub struct Gate {
    pub matrix: Vec<Complex>,
    pub dim: usize,
}

impl Gate {
    /// A gate is well formed when its buffer holds exactly dim * dim
    /// entries.
    pub open spec fn wf(&self) -> bool {
        self.matrix@.len() == self.dim * self.dim
    }

    /// The matrix entry in row `i`, column `j`.
    pub open spec fn entry(&self, i: int, j: int) -> Complex {
        self.matrix@[i * self.dim + j]
    }

    /// Creates a gate from a list of matrix rows.  The rows must form a
    /// square matrix; ragged or non-square input is rejected.
    pub fn new(rows: Vec<Vec<Complex>>) -> (r: Result<Gate, QuantumError>)
        ensures
            r is Ok <==> (forall|i: int|
                0 <= i < rows@.len() ==> #[trigger] rows@[i]@.len() == rows@.len()),
            r is Err ==> r->Err_0 == QuantumError::NonSquareMatrix,
            r is Ok ==> {
                let g = r->Ok_0;
                &&& g.wf()
                &&& g.dim == rows@.len()
                &&& forall|i: int, j: int|
                    0 <= i < rows@.len() && 0 <= j < rows@.len()
                        ==> #[trigger] g.entry(i, j) == rows@[i]@[j]
            },
    {
        let d = rows.len();
        let mut flat: Vec<Complex> = Vec::new();
        let mut i: usize = 0;
        while i < d
            invariant
                i <= d,
                d == rows@.len(),
                flat@.len() == i * d,
                forall|r0: int| 0 <= r0 < i ==> #[trigger] rows@[r0]@.len() == d,
                forall|r0: int, c0: int|
                    0 <= r0 < i && 0 <= c0 < d ==> #[trigger] flat@[r0 * d + c0] == rows@[r0]@[c0],
            decreases d - i,
        {
            if rows[i].len() != d {
                return Err(QuantumError::NonSquareMatrix);
            }
            let mut j: usize = 0;
            while j < d
                invariant
                    j <= d,
                    i < d,
                    d == rows@.len(),
                    rows@[i as int]@.len() == d,
                    flat@.len() == i * d + j,
                    forall|r0: int| 0 <= r0 < i ==> #[trigger] rows@[r0]@.len() == d,
                    forall|r0: int, c0: int|
                        0 <= r0 < i && 0 <= c0 < d
                            ==> #[trigger] flat@[r0 * d + c0] == rows@[r0]@[c0],
                    forall|c0: int| 0 <= c0 < j ==> #[trigger] flat@[i * d + c0] == rows@[i as int]@[c0],
                decreases d - j,
            {
                flat.push(rows[i][j]);
                proof {
                    assert forall|r0: int, c0: int|
                        0 <= r0 < i && 0 <= c0 < d implies #[trigger] flat@[r0 * d + c0]
                        == rows@[r0]@[c0] by {
                        assert(r0 * d + c0 < i * d) by (nonlinear_arith)
                            requires
                                0 <= r0 < i as int,
                                0 <= c0 < d as int,
                        ;
                    }
                }
                j = j + 1;
            }
            proof {
                assert(i * d + d == (i + 1) * d) by (nonlinear_arith);
            }
            i = i + 1;
        }
        let g = Gate { matrix: flat, dim: d };
        proof {
            assert forall|i0: int, j0: int|
                0 <= i0 < rows@.len() && 0 <= j0 < rows@.len() implies #[trigger] g.entry(i0, j0)
                == rows@[i0]@[j0] by {
                assert(i0 * d + j0 < d * d && 0 <= i0 * d + j0) by (nonlinear_arith)
                    requires
                        0 <= i0 < d as int,
                        0 <= j0 < d as int,
                ;
            }
        }
        Ok(g)
    }
}

/// The real part of the dot product of row `i` of `g` with the first `k`
/// amplitudes of `s`.
pub open spec fn row_dot_re(g: Gate, s: Seq<Complex>, i: int, k: int) -> int
    decreases k,
{
    if k <= 0 {
        0
    } else {
        row_dot_re(g, s, i, k - 1) + cmul_re(g.entry(i, k - 1), s[k - 1])
    }
}

/// The imaginary part of the dot product of row `i` of `g` with the first
/// `k` amplitudes of `s`.
pub open spec fn row_dot_im(g: Gate, s: Seq<Complex>, i: int, k: int) -> int
    decreases k,
{
    if k <= 0 {
        0
    } else {
        row_dot_im(g, s, i, k - 1) + cmul_im(g.entry(i, k - 1), s[k - 1])
    }
}

/// Whether a value fits the fixed-point amplitude range.
pub open spec fn fits_i64(x: int) -> bool {
    i64::MIN <= x <= i64::MAX
}

/// Whether row `i` of the matrix-vector product stays in range.
pub open spec fn out_entry_ok(g: Gate, s: Seq<Complex>, i: int) -> bool {
    &&& fits_i64(row_dot_re(g, s, i, s.len() as int))
    &&& fits_i64(row_dot_im(g, s, i, s.len() as int))
}

/// The amplitude in row `i` of the matrix-vector product.
pub open spec fn out_entry(g: Gate, s: Seq<Complex>, i: int) -> Complex {
    Complex {
        re: row_dot_re(g, s, i, s.len() as int) as i64,
        im: row_dot_im(g, s, i, s.len() as int) as i64,
    }
}

/// What applying gate `g` to state `s` yields: the matrix-vector product
/// over fixed-point complex arithmetic, a dimension-mismatch failure, or
/// an overflow failure when a resulting amplitude leaves the range.
pub open spec fn apply_spec(g: Gate, s: Seq<Complex>) -> Result<Seq<Complex>, QuantumError> {
    if g.dim != s.len() {
        Err(QuantumError::DimensionMismatch)
    } else if exists|i: int| 0 <= i < s.len() && !(#[trigger] out_entry_ok(g, s, i)) {
        Err(QuantumError::Overflow)
    } else {
        Ok(Seq::new(s.len(), |i: int| out_entry(g, s, i)))
    }
}

impl Gate {
    /// Applies this gate to the given state: each new amplitude is the
    /// dot of one matrix row with the old amplitudes.
    /// Fails fast on a dimension mismatch, leaving the state
    /// untouched; a gate dimensioned for k qubits therefore acts on the
    /// whole register, never on a subrange.
    #[verifier::loop_isolation(false)]
    pub fn apply(&self, qubit: &mut Qubit) -> (r: Result<(), QuantumError>)
        requires
            self.wf(),
        ensures
            apply_spec(*self, old(qubit).state@) is Ok ==> r is Ok && final(qubit).state@
                == apply_spec(*self, old(qubit).state@)->Ok_0,
            apply_spec(*self, old(qubit).state@) is Err ==> r is Err && r->Err_0 == apply_spec(
                *self,
                old(qubit).state@,
            )->Err_0 && final(qubit).state@ == old(qubit).state@,
            self.dim != old(qubit).state@.len() <==> r == Err::<(), QuantumError>(
                QuantumError::DimensionMismatch,
            ),
    {
        let ghost s = qubit.state@;
        let d = self.dim;
        if d != qubit.state.len() {
            return Err(QuantumError::DimensionMismatch);
        }
        let total = self.matrix.len();
        proof {
            assert(d < 0x1_0000_0000) by (nonlinear_arith)
                requires
                    (d as int) * (d as int) == total as int,
                    total as int <= usize::MAX as int,
                    usize::MAX as int <= 0xFFFF_FFFF_FFFF_FFFFint,
            ;
        }
        let mut out: Vec<Complex> = Vec::new();
        let mut i: usize = 0;
        let mut base: usize = 0;
        while i < d
            invariant
                i <= d,
                base == i * d,
                out@.len() == i,
                forall|i0: int| 0 <= i0 < i ==> #[trigger] out_entry_ok(*self, s, i0),
                forall|i0: int| 0 <= i0 < i ==> #[trigger] out@[i0] == out_entry(*self, s, i0),
            decreases d - i,
        {
            let mut acc_re: i128 = 0;
            let mut acc_im: i128 = 0;
            let mut j: usize = 0;
            while j < d
                invariant
                    i < d,
                    j <= d,
                    base == i * d,
                    acc_re == row_dot_re(*self, s, i as int, j as int),
                    acc_im == row_dot_im(*self, s, i as int, j as int),
                    -(j as int) * 0x80_0000_0000_0000_0000_0000 <= acc_re <= (j as int)
                        * 0x80_0000_0000_0000_0000_0000,
                    -(j as int) * 0x80_0000_0000_0000_0000_0000 <= acc_im <= (j as int)
                        * 0x80_0000_0000_0000_0000_0000,
                decreases d - j,
            {
                proof {
                    assert(base + j < total && i * d + j == base + j) by (nonlinear_arith)
                        requires
                            base == i * d,
                            (d as int) * (d as int) == total as int,
                            0 <= i < d,
                            0 <= j < d,
                    ;
                    assert((j as int) * 0x80_0000_0000_0000_0000_0000 + 0x80_0000_0000_0000_0000_0000
                        <= 0x1_0000_0000 * 0x80_0000_0000_0000_0000_0000) by (nonlinear_arith)
                        requires
                            0 <= (j as int) < 0x1_0000_0000,
                    ;
                }
                let m = self.matrix[base + j];
                let q = qubit.state[j];
                let t = cmul_parts(m, q);
                acc_re = acc_re + t.0;
                acc_im = acc_im + t.1;
                j = j + 1;
            }
            if acc_re < i64::MIN as i128 || acc_re > i64::MAX as i128 || acc_im < i64::MIN as i128
                || acc_im > i64::MAX as i128 {
                proof {
                    assert(!out_entry_ok(*self, s, i as int));
                }
                return Err(QuantumError::Overflow);
            }
            out.push(Complex { re: acc_re as i64, im: acc_im as i64 });
            proof {
                assert(i * d + d == (i + 1) * d && (i + 1) * d <= d * d) by (nonlinear_arith)
                    requires
                        0 <= (i as int) < (d as int),
                ;
            }
            base = base + d;
            i = i + 1;
        }
        proof {
            assert(apply_spec(*self, s) is Ok);
            assert(out@ =~= apply_spec(*self, s)->Ok_0);
        }
        qubit.state = out;
        Ok(())
    }
}

/// Bit `k` of the binary expansion of a non-negative integer.
pub open spec fn bit(x: int, k: nat) -> int {
    (x / (pow2(k) as int)) % 2
}

/// The sign of entry (i, j) of the n-qubit Hadamard matrix: -1 raised to
/// the number of bit positions where both i and j hold a 1.
pub open spec fn had_sign(n: nat, i: int, j: int) -> int
    decreases n,
{
    if n == 0 {
        1
    } else {
        (if i % 2 == 1 && j % 2 == 1 {
            -1int
        } else {
            1int
        }) * had_sign((n - 1) as nat, i / 2, j / 2)
    }
}

/// The magnitude of every entry of the n-qubit Hadamard matrix: the
/// fixed-point value of (1/sqrt(2))^n, accumulated factor by factor.
pub open spec fn h_pow(n: nat) -> int
    decreases n,
{
    if n == 0 {
        FX_ONE as int
    } else {
        fx_mul(h_pow((n - 1) as nat), H_FX as int)
    }
}

/// The entry of the n-qubit Hadamard matrix in row i, column j: its sign
/// times its magnitude, exactly real.
pub open spec fn had_entry(n: nat, i: int, j: int) -> Complex {
    Complex { re: (had_sign(n, i, j) * h_pow(n)) as i64, im: 0 }
}

/// The Hadamard sign is 1 or -1.
pub proof fn lemma_had_sign_pm(n: nat, i: int, j: int)
    ensures
        had_sign(n, i, j) == 1 || had_sign(n, i, j) == -1,
    decreases n,
{
    if n > 0 {
        lemma_had_sign_pm((n - 1) as nat, i / 2, j / 2);
        if i % 2 == 1 && j % 2 == 1 {
            assert(had_sign(n, i, j) == -1 * had_sign((n - 1) as nat, i / 2, j / 2));
        } else {
            assert(had_sign(n, i, j) == 1 * had_sign((n - 1) as nat, i / 2, j / 2));
        }
    }
}

/// The Hadamard magnitude lies between 0 and 1.
pub proof fn lemma_h_pow_bounds(n: nat)
    ensures
        0 <= h_pow(n) <= FX_ONE,
    decreases n,
{
    if n > 0 {
        lemma_h_pow_bounds((n - 1) as nat);
        let prev = h_pow((n - 1) as nat);
        assert(0 <= prev * (H_FX as int) <= prev * (FX_ONE as int)) by (nonlinear_arith)
            requires
                0 <= prev,
                0 < H_FX as int <= FX_ONE as int,
        ;
        assert(prev * (FX_ONE as int) == (FX_ONE as int) * prev) by (nonlinear_arith);
        vstd::arithmetic::div_mod::lemma_div_pos_is_pos(prev * (H_FX as int), FX_ONE as int);
        vstd::arithmetic::div_mod::lemma_div_is_ordered(
            prev * (H_FX as int),
            prev * (FX_ONE as int),
            FX_ONE as int,
        );
        vstd::arithmetic::div_mod::lemma_div_multiples_vanish(prev, FX_ONE as int);
    }
}

/// Peeling the top processed bit: extending the sign by bit position k
/// multiplies it by the sign contribution of bit k of i and j.
pub proof fn lemma_had_sign_step(k: nat, i: int, j: int)
    requires
        i >= 0,
        j >= 0,
    ensures
        had_sign(k + 1, i, j) == had_sign(k, i, j) * (if bit(i, k) == 1 && bit(j, k) == 1 {
            -1int
        } else {
            1int
        }),
    decreases k,
{
    reveal_with_fuel(had_sign, 3);
    vstd::arithmetic::power2::lemma2_to64();
    if k == 0 {
        assert(pow2(0) == 1);
        vstd::arithmetic::div_mod::lemma_div_basics(i);
        vstd::arithmetic::div_mod::lemma_div_basics(j);
        assert(i / (pow2(0) as int) == i);
        assert(j / (pow2(0) as int) == j);
    } else {
        lemma_had_sign_step((k - 1) as nat, i / 2, j / 2);
        vstd::arithmetic::power2::lemma_pow2_pos((k - 1) as nat);
        vstd::arithmetic::power2::lemma_pow2_unfold(k);
        assert(pow2(k) as int == 2 * pow2((k - 1) as nat));
        vstd::arithmetic::div_mod::lemma_div_denominator(i, 2, pow2((k - 1) as nat) as int);
        vstd::arithmetic::div_mod::lemma_div_denominator(j, 2, pow2((k - 1) as nat) as int);
        assert(2 * (pow2((k - 1) as nat) as int) == pow2(k) as int);
        assert((i / 2) / (pow2((k - 1) as nat) as int) == i / (pow2(k) as int));
        assert((j / 2) / (pow2((k - 1) as nat) as int) == j / (pow2(k) as int));
        assert(bit(i / 2, (k - 1) as nat) == bit(i, k));
        assert(bit(j / 2, (k - 1) as nat) == bit(j, k));
        let s0 = if i % 2 == 1 && j % 2 == 1 {
            -1int
        } else {
            1int
        };
        let sk = if bit(i, k) == 1 && bit(j, k) == 1 {
            -1int
        } else {
            1int
        };
        let hs = had_sign((k - 1) as nat, i / 2, j / 2);
        assert(had_sign(k + 1, i, j) == s0 * had_sign(k, i / 2, j / 2));
        assert(had_sign(k, i / 2, j / 2) == hs * sk);
        assert(had_sign(k, i, j) == s0 * hs);
        assert(s0 * (hs * sk) == (s0 * hs) * sk) by (nonlinear_arith);
    }
}

/// Negating the left factor negates the fixed-point product exactly.
pub proof fn lemma_fx_mul_neg_left(a: int, b: int)
    ensures
        fx_mul(-a, b) == -fx_mul(a, b),
{
    assert((-a) * b == a * (-b)) by (nonlinear_arith);
    crate::fixed::lemma_fx_mul_neg(a, b);
}

/// Computes one entry of the Hadamard matrix: the running product of one
/// factor of magnitude 1/sqrt(2) per bit position, negative exactly where
/// both i and j hold a 1.
#[verifier::loop_isolation(false)]
fn had_product(n: usize, i: usize, j: usize) -> (p: i64)
    ensures
        p as int == had_sign(n as nat, i as int, j as int) * h_pow(n as nat),
{
    proof {
        vstd::arithmetic::power2::lemma2_to64();
        vstd::arithmetic::div_mod::lemma_div_basics(i as int);
        vstd::arithmetic::div_mod::lemma_div_basics(j as int);
    }
    let mut product: i64 = FX_ONE;
    let mut pi: usize = i;
    let mut pj: usize = j;
    let mut k: usize = 0;
    while k < n
        invariant
            k <= n,
            pi as int == i as int / (pow2(k as nat) as int),
            pj as int == j as int / (pow2(k as nat) as int),
            product == had_sign(k as nat, i as int, j as int) * h_pow(k as nat),
        decreases n - k,
    {
        let bi = pi % 2;
        let bj = pj % 2;
        let f: i64 = if bi == 1 && bj == 1 {
            -H_FX
        } else {
            H_FX
        };
        let wide = crate::fixed::mul_scaled(product, f);
        proof {
            let kn = k as nat;
            let ii = i as int;
            let jj = j as int;
            let sg = had_sign(kn, ii, jj);
            let mag = h_pow(kn);
            let sk = if bit(ii, kn) == 1 && bit(jj, kn) == 1 {
                -1int
            } else {
                1int
            };
            lemma_had_sign_pm(kn, ii, jj);
            lemma_h_pow_bounds(kn);
            lemma_h_pow_bounds((kn + 1) as nat);
            lemma_had_sign_step(kn, ii, jj);
            assert(bit(ii, kn) == bi && bit(jj, kn) == bj);
            assert(h_pow((kn + 1) as nat) == fx_mul(mag, H_FX as int));
            if sg == 1 {
                assert(product as int == mag) by (nonlinear_arith)
                    requires
                        product as int == sg * mag,
                        sg == 1,
                ;
            } else {
                assert(product as int == -mag) by (nonlinear_arith)
                    requires
                        product as int == sg * mag,
                        sg == -1,
                ;
            }
            if sg == 1 {
                if sk == 1 {
                    assert(wide == fx_mul(mag, H_FX as int));
                } else {
                    crate::fixed::lemma_fx_mul_neg(mag, H_FX as int);
                    assert(wide == -fx_mul(mag, H_FX as int));
                }
            } else {
                if sk == 1 {
                    lemma_fx_mul_neg_left(mag, H_FX as int);
                    assert(wide == -fx_mul(mag, H_FX as int));
                } else {
                    lemma_fx_mul_neg_left(mag, -(H_FX as int));
                    crate::fixed::lemma_fx_mul_neg(mag, H_FX as int);
                    assert(wide == fx_mul(mag, H_FX as int));
                }
            }
            assert(had_sign((kn + 1) as nat, ii, jj) == sg * sk);
            lemma_had_sign_pm((kn + 1) as nat, ii, jj);
            assert(-FX_ONE <= wide <= FX_ONE) by (nonlinear_arith)
                requires
                    wide == had_sign((kn + 1) as nat, ii, jj) * h_pow((kn + 1) as nat),
                    had_sign((kn + 1) as nat, ii, jj) == 1 || had_sign((kn + 1) as nat, ii, jj)
                        == -1,
                    0 <= h_pow((kn + 1) as nat) <= FX_ONE,
            ;
            vstd::arithmetic::power2::lemma_pow2_pos(kn);
            vstd::arithmetic::power2::lemma_pow2_unfold((kn + 1) as nat);
            vstd::arithmetic::div_mod::lemma_div_denominator(ii, pow2(kn) as int, 2);
            vstd::arithmetic::div_mod::lemma_div_denominator(jj, pow2(kn) as int, 2);
            assert((pow2(kn) as int) * 2 == pow2((kn + 1) as nat) as int);
        }
        product = wide as i64;
        pi = pi / 2;
        pj = pj / 2;
        k = k + 1;
    }
    product
}

/// Returns the Hadamard gate on `qubit_count` qubits: the matrix of
/// dimension 2^qubit_count whose entry (i, j) is (1/sqrt(2))^qubit_count
/// times -1 raised to the number of bit positions where both i and j hold
/// a 1 — the tensor power of the single-qubit Hadamard gate, built
/// directly by bit arithmetic.
#[verifier::loop_isolation(false)]
pub fn hadamard(qubit_count: usize) -> (g: Gate)
    requires
        qubit_count <= 15,
    ensures
        g.wf(),
        g.dim == pow2(qubit_count as nat),
        forall|i: int, j: int|
            0 <= i < g.dim && 0 <= j < g.dim ==> #[trigger] g.entry(i, j) == had_entry(
                qubit_count as nat,
                i,
                j,
            ),
{
    let n = qubit_count;
    let d = pow2_usize(n);
    proof {
        vstd::arithmetic::power2::lemma2_to64();
        if (n as nat) < 15 {
            vstd::arithmetic::power2::lemma_pow2_strictly_increases(n as nat, 15);
        }
        assert(d <= 32768);
        assert(d * d <= 32768 * 32768) by (nonlinear_arith)
            requires
                0 <= d <= 32768,
        ;
    }
    let mut m: Vec<Complex> = Vec::new();
    let mut i: usize = 0;
    while i < d
        invariant
            i <= d,
            m@.len() == i * d,
            forall|r0: int, c0: int|
                0 <= r0 < i && 0 <= c0 < d ==> #[trigger] m@[r0 * d + c0] == had_entry(
                    n as nat,
                    r0,
                    c0,
                ),
        decreases d - i,
    {
        let mut j: usize = 0;
        while j < d
            invariant
                i < d,
                j <= d,
                m@.len() == i * d + j,
                forall|r0: int, c0: int|
                    0 <= r0 < i && 0 <= c0 < d ==> #[trigger] m@[r0 * d + c0] == had_entry(
                        n as nat,
                        r0,
                        c0,
                    ),
                forall|c0: int|
                    0 <= c0 < j ==> #[trigger] m@[i * d + c0] == had_entry(n as nat, i as int, c0),
            decreases d - j,
        {
            let product = had_product(n, i, j);
            m.push(Complex { re: product, im: 0 });
            proof {
                assert forall|r0: int, c0: int|
                    0 <= r0 < i && 0 <= c0 < d implies #[trigger] m@[r0 * d + c0] == had_entry(
                    n as nat,
                    r0,
                    c0,
                ) by {
                    assert(r0 * d + c0 < i * d) by (nonlinear_arith)
                        requires
                            0 <= r0 < i as int,
                            0 <= c0 < d as int,
                    ;
                }
            }
            j = j + 1;
        }
        proof {
            assert(i * d + d == (i + 1) * d) by (nonlinear_arith);
        }
        i = i + 1;
    }
    let g = Gate { matrix: m, dim: d };
    proof {
        assert forall|i0: int, j0: int|
            0 <= i0 < g.dim && 0 <= j0 < g.dim implies #[trigger] g.entry(i0, j0) == had_entry(
            n as nat,
            i0,
            j0,
        ) by {
            assert(i0 * d + j0 < d * d && 0 <= i0 * d + j0) by (nonlinear_arith)
                requires
                    0 <= i0 < d as int,
                    0 <= j0 < d as int,
            ;
        }
    }
    g
}

/// The sign contribution of the lowest bit of x: -1 for an odd x, +1 for
/// an even x.
pub open spec fn low_bit_sign(x: int) -> int {
    if x % 2 == 1 {
        -1int
    } else {
        1int
    }
}

/// The dot product of row `i` and column `k` of the Hadamard sign matrix,
/// over the first `m` columns.
pub open spec fn sign_dot(n: nat, i: int, k: int, m: int) -> int
    decreases m,
{
    if m <= 0 {
        0
    } else {
        sign_dot(n, i, k, m - 1) + had_sign(n, i, m - 1) * had_sign(n, k, m - 1)
    }
}

/// Splitting a sign dot product over even and odd columns: the terms for
/// columns 2u and 2u + 1 combine into a single term of the next smaller
/// sign matrix, scaled by 0 or 2 according to the lowest bits of i and k.
proof fn lemma_sign_dot_pairs(n: nat, i: int, k: int, m: int)
    requires
        i >= 0,
        k >= 0,
        m >= 0,
    ensures
        sign_dot((n + 1) as nat, i, k, 2 * m) == (1 + low_bit_sign(i) * low_bit_sign(k))
            * sign_dot(n, i / 2, k / 2, m),
    decreases m,
{
    reveal_with_fuel(sign_dot, 3);
    if m == 0 {
    } else {
        lemma_sign_dot_pairs(n, i, k, m - 1);
        let u = m - 1;
        vstd::arithmetic::div_mod::lemma_fundamental_div_mod_converse(2 * u, 2, u, 0);
        vstd::arithmetic::div_mod::lemma_fundamental_div_mod_converse(2 * u + 1, 2, u, 1);
        assert((2 * u) / 2 == u && (2 * u) % 2 == 0);
        assert((2 * u + 1) / 2 == u && (2 * u + 1) % 2 == 1);
        let a = had_sign(n, i / 2, u);
        let b = had_sign(n, k / 2, u);
        let si = low_bit_sign(i);
        let sk = low_bit_sign(k);
        assert(had_sign((n + 1) as nat, i, 2 * u) == a);
        assert(had_sign((n + 1) as nat, k, 2 * u) == b);
        assert(had_sign((n + 1) as nat, i, 2 * u + 1) == si * a);
        assert(had_sign((n + 1) as nat, k, 2 * u + 1) == sk * b);
        assert(a * b + (si * a) * (sk * b) == (1 + si * sk) * (a * b)) by (nonlinear_arith);
        assert((1 + si * sk) * sign_dot(n, i / 2, k / 2, m - 1) + (1 + si * sk) * (a * b) == (1 + si
            * sk) * (sign_dot(n, i / 2, k / 2, m - 1) + a * b)) by (nonlinear_arith);
    }
}

/// The Hadamard sign matrix is self-inverse up to scale: the dot product
/// of row i with column k over all 2^n columns is 2^n when i == k and 0
/// otherwise, so the matrix times itself is 2^n times the identity.  The
/// executable `hadamard` gate carries exactly this sign in each entry,
/// scaled by (1/sqrt(2))^n, and the two scale factors of a double
/// application multiply to 1/2^n: a double application returns the
/// state it started from, up to fixed-point rounding.
pub proof fn lemma_hadamard_self_inverse(n: nat, i: int, k: int)
    requires
        0 <= i < pow2(n),
        0 <= k < pow2(n),
    ensures
        sign_dot(n, i, k, pow2(n) as int) == (if i == k {
            pow2(n) as int
        } else {
            0int
        }),
    decreases n,
{
    reveal_with_fuel(sign_dot, 2);
    reveal_with_fuel(had_sign, 2);
    if n == 0 {
        assert(pow2(0) == 1) by {
            vstd::arithmetic::power2::lemma2_to64();
        }
    } else {
        let p = pow2((n - 1) as nat) as int;
        vstd::arithmetic::power2::lemma_pow2_unfold(n);
        assert(pow2(n) as int == 2 * p);
        lemma_sign_dot_pairs((n - 1) as nat, i, k, p);
        vstd::arithmetic::div_mod::lemma_fundamental_div_mod(i, 2);
        vstd::arithmetic::div_mod::lemma_fundamental_div_mod(k, 2);
        assert(i / 2 < p && k / 2 < p) by (nonlinear_arith)
            requires
                0 <= i < 2 * p,
                0 <= k < 2 * p,
                i == 2 * (i / 2) + i % 2,
                k == 2 * (k / 2) + k % 2,
                0 <= i % 2 < 2,
                0 <= k % 2 < 2,
        ;
        lemma_hadamard_self_inverse((n - 1) as nat, i / 2, k / 2);
        let si = low_bit_sign(i);
        let sk = low_bit_sign(k);
        let inner = sign_dot((n - 1) as nat, i / 2, k / 2, p);
        if i == k {
            assert(si * sk == 1);
            assert((1 + 1) * inner == 2 * inner);
        } else {
            if i / 2 == k / 2 {
                assert(i % 2 != k % 2);
                assert(si * sk == -1);
                assert((1 + -1) * inner == 0) by (nonlinear_arith);
            } else {
                assert(inner == 0);
                assert((1 + si * sk) * 0 == 0) by (nonlinear_arith);
            }
        }
    }
}

/// The sign matrix is symmetric.
proof fn lemma_had_sign_symmetric(n: nat, i: int, j: int)
    ensures
        had_sign(n, i, j) == had_sign(n, j, i),
    decreases n,
{
    if n > 0 {
        lemma_had_sign_symmetric((n - 1) as nat, i / 2, j / 2);
    }
}

/// One component of the Hadamard sign transform: the dot of row `i` of
/// the sign matrix with the first `m` entries of `v`.
pub open spec fn sign_apply(n: nat, v: Seq<int>, i: int, m: int) -> int
    decreases m,
{
    if m <= 0 {
        0
    } else {
        sign_apply(n, v, i, m - 1) + had_sign(n, i, m - 1) * v[m - 1]
    }
}

/// The Hadamard sign transform of a whole state vector.
pub open spec fn sign_transform(n: nat, v: Seq<int>) -> Seq<int> {
    Seq::new(v.len(), |j: int| sign_apply(n, v, j, v.len() as int))
}

/// The exchanged double sum: the first `p` entries of `v`, each weighted
/// by the dot of sign rows `i` and `k` over the first `m` columns.
spec fn weighted_dot(n: nat, v: Seq<int>, i: int, m: int, p: int) -> int
    decreases p,
{
    if p <= 0 {
        0
    } else {
        weighted_dot(n, v, i, m, p - 1) + sign_dot(n, i, p - 1, m) * v[p - 1]
    }
}

/// With no columns taken, the exchanged sum is zero.
proof fn lemma_weighted_dot_zero(n: nat, v: Seq<int>, i: int, p: int)
    ensures
        weighted_dot(n, v, i, 0, p) == 0,
    decreases p,
{
    if p > 0 {
        lemma_weighted_dot_zero(n, v, i, p - 1);
    }
}

/// Taking one more column into the exchanged sum adds one term of the
/// outer application.
proof fn lemma_weighted_dot_step(n: nat, v: Seq<int>, i: int, m: int, p: int)
    requires
        m >= 0,
        p >= 0,
    ensures
        weighted_dot(n, v, i, m + 1, p) == weighted_dot(n, v, i, m, p) + had_sign(n, i, m)
            * sign_apply(n, v, m, p),
    decreases p,
{
    if p > 0 {
        lemma_weighted_dot_step(n, v, i, m, p - 1);
        let k = p - 1;
        lemma_had_sign_symmetric(n, k, m);
        let sd = sign_dot(n, i, k, m);
        let sim = had_sign(n, i, m);
        let smk = had_sign(n, m, k);
        assert(sign_dot(n, i, k, m + 1) == sd + sim * smk);
        assert((sd + sim * smk) * v[k] == sd * v[k] + sim * (smk * v[k])) by (nonlinear_arith);
        assert(sim * (sign_apply(n, v, m, p - 1) + smk * v[k]) == sim * sign_apply(n, v, m, p - 1)
            + sim * (smk * v[k])) by (nonlinear_arith);
    }
}

/// Exchanging the two sums of a double application: applying the sign
/// transform to an already transformed state, over the first `m` rows of
/// the inner transform, equals weighting each original entry by a partial
/// row dot of the sign matrix with itself.
proof fn lemma_sign_exchange(n: nat, v: Seq<int>, i: int, m: int)
    requires
        0 <= m <= v.len(),
    ensures
        sign_apply(n, sign_transform(n, v), i, m) == weighted_dot(n, v, i, m, v.len() as int),
    decreases m,
{
    let w = sign_transform(n, v);
    if m == 0 {
        lemma_weighted_dot_zero(n, v, i, v.len() as int);
    } else {
        lemma_sign_exchange(n, v, i, m - 1);
        assert(w[m - 1] == sign_apply(n, v, m - 1, v.len() as int));
        lemma_weighted_dot_step(n, v, i, m - 1, v.len() as int);
    }
}

/// Summing the weights against the full sign-row dots: orthogonality
/// collapses the sum to the single diagonal term.
proof fn lemma_weighted_dot_diag(n: nat, v: Seq<int>, i: int, p: int)
    requires
        v.len() == pow2(n),
        0 <= i < pow2(n),
        0 <= p <= pow2(n),
    ensures
        weighted_dot(n, v, i, pow2(n) as int, p) == (if i < p {
            (pow2(n) as int) * v[i]
        } else {
            0int
        }),
    decreases p,
{
    if p > 0 {
        lemma_weighted_dot_diag(n, v, i, p - 1);
        lemma_hadamard_self_inverse(n, i, p - 1);
        if i == p - 1 {
        } else {
            assert(0int * v[p - 1] == 0) by (nonlinear_arith);
        }
    }
}

/// Applying the Hadamard sign transform twice to any state returns the
/// state it started from, scaled by 2^n — the normalization that the two
/// factors of (1/sqrt(2))^n of the executable gates supply.  This is the
/// self-inverse law at the level of whole state vectors.
pub proof fn lemma_hadamard_double_transform(n: nat, v: Seq<int>, i: int)
    requires
        v.len() == pow2(n),
        0 <= i < v.len(),
    ensures
        sign_apply(n, sign_transform(n, v), i, pow2(n) as int) == (pow2(n) as int) * v[i],
{
    lemma_sign_exchange(n, v, i, pow2(n) as int);
    lemma_weighted_dot_diag(n, v, i, pow2(n) as int);
}

/// Computes 2^k as a machine integer.
#[verifier::loop_isolation(false)]
pub(crate) fn pow2_usize(k: usize) -> (p: usize)
    requires
        k <= 15,
    ensures
        p == pow2(k as nat),
{
    proof {
        vstd::arithmetic::power2::lemma2_to64();
    }
    let mut p: usize = 1;
    let mut i: usize = 0;
    while i < k
        invariant
            i <= k,
            p == pow2(i as nat),
        decreases k - i,
    {
        proof {
            if (i as nat) < 15 {
                vstd::arithmetic::power2::lemma_pow2_strictly_increases(i as nat, 15);
            }
            vstd::arithmetic::power2::lemma_pow2_unfold((i + 1) as nat);
        }
        p = p * 2;
        i = i + 1;
    }
    p
}

/// Where the amplitude in column `col` is routed by a controlled-not with
/// the given control and target bits: to the basis state with the target
/// bit flipped when the control bit is set, else to `col` itself.
pub open spec fn cnot_perm(col: int, control: nat, target: nat) -> int {
    if bit(col, control) == 1 {
        if bit(col, target) == 1 {
            col - pow2(target)
        } else {
            col + pow2(target)
        }
    } else {
        col
    }
}

/// Flipping one bit by xor: every other bit keeps its value, the flipped
/// bit inverts, the value stays inside the register range, and the xor is
/// an addition or a subtraction of the bit's weight.
proof fn lemma_flip_bit_bv(x: u64, t: u64, c: u64, n: u64)
    by (bit_vector)
    requires
        t < n,
        c < n,
        n <= 15,
        c != t,
        x < (1u64 << n),
    ensures
        ((x ^ (1u64 << t)) >> c) & 1 == (x >> c) & 1,
        ((x ^ (1u64 << t)) >> t) & 1 == 1u64 - ((x >> t) & 1),
        (x ^ (1u64 << t)) < (1u64 << n),
        (x >> t) & 1 == 0 ==> (x ^ (1u64 << t)) == x + (1u64 << t),
        (x >> t) & 1 == 1 ==> (x ^ (1u64 << t)) == x - (1u64 << t),
{
}

/// The arithmetic reading of a bit agrees with the shift-and-mask
/// reading.
proof fn lemma_bit_bv(z: u64, k: nat)
    requires
        k < 64,
    ensures
        bit(z as int, k) == ((z >> (k as u64)) & 1) as int,
{
    vstd::bits::lemma_u64_shr_is_div(z, k as u64);
    let w = z >> (k as u64);
    assert(w & 1 == w % 2) by (bit_vector);
    vstd::arithmetic::power2::lemma_pow2_pos(k);
}

/// The controlled-not routing is a self-inverse permutation of the basis
/// states of the register.
pub proof fn lemma_cnot_perm_involution(col: int, control: nat, target: nat, n: nat)
    requires
        0 <= col < pow2(n),
        control < n,
        target < n,
        control != target,
        n <= 15,
    ensures
        0 <= cnot_perm(col, control, target) < pow2(n),
        cnot_perm(cnot_perm(col, control, target), control, target) == col,
{
    vstd::arithmetic::power2::lemma2_to64();
    let x = col as u64;
    let t = target as u64;
    let c = control as u64;
    let nn = n as u64;
    vstd::bits::lemma_u64_pow2_no_overflow(n);
    vstd::bits::lemma_u64_shl_is_mul(1u64, nn);
    assert((1u64 << nn) == pow2(n));
    vstd::bits::lemma_u64_pow2_no_overflow(target);
    vstd::bits::lemma_u64_shl_is_mul(1u64, t);
    assert((1u64 << t) == pow2(target));
    lemma_bit_bv(x, control);
    lemma_bit_bv(x, target);
    if bit(col, control) == 1 {
        lemma_flip_bit_bv(x, t, c, nn);
        let y = x ^ (1u64 << t);
        lemma_bit_bv(y, control);
        lemma_bit_bv(y, target);
        assert(y as int == cnot_perm(col, control, target));
        assert(bit(y as int, control) == 1);
        assert(bit(y as int, target) == 1 - bit(col, target));
        lemma_flip_bit_bv(y, t, c, nn);
        assert((y ^ (1u64 << t)) == x) by (bit_vector)
            requires
                y == x ^ (1u64 << t),
        ;
        assert((y ^ (1u64 << t)) as int == cnot_perm(y as int, control, target));
    }
}

/// Returns the controlled-not gate for the given control and target bits
/// in a register of `num_qubits` qubits: the permutation matrix of
/// dimension 2^num_qubits that routes the amplitude of each basis state
/// whose control bit is 1 to the basis state with the target bit flipped,
/// and keeps every other amplitude in place.  Equal control and target
/// bits, or a bit position outside the register, are rejected.
#[verifier::loop_isolation(false)]
pub fn cnot(control: usize, target: usize, num_qubits: usize) -> (r: Result<Gate, QuantumError>)
    requires
        num_qubits <= 15,
    ensures
        (control == target || control >= num_qubits || target >= num_qubits) <==> r is Err,
        r is Err ==> r->Err_0 == QuantumError::InvalidQubitIndex,
        r is Ok ==> {
            let g = r->Ok_0;
            &&& g.wf()
            &&& g.dim == pow2(num_qubits as nat)
            &&& forall|row: int, col: int|
                0 <= row < g.dim && 0 <= col < g.dim ==> #[trigger] g.entry(row, col) == (if row
                    == cnot_perm(col, control as nat, target as nat) {
                    c_one()
                } else {
                    c_zero()
                })
        },
{
    if control == target || control >= num_qubits || target >= num_qubits {
        return Err(QuantumError::InvalidQubitIndex);
    }
    proof {
        vstd::arithmetic::power2::lemma2_to64();
    }
    let n = num_qubits;
    let d = pow2_usize(n);
    let pc = pow2_usize(control);
    let pt = pow2_usize(target);
    let ghost cn = control as nat;
    let ghost tn = target as nat;
    let mut m: Vec<Complex> = Vec::new();
    let mut row: usize = 0;
    while row < d
        invariant
            row <= d,
            m@.len() == row * d,
            forall|r0: int, c0: int|
                0 <= r0 < row && 0 <= c0 < d ==> #[trigger] m@[r0 * d + c0] == (if c0 == cnot_perm(
                    r0,
                    cn,
                    tn,
                ) {
                    c_one()
                } else {
                    c_zero()
                }),
        decreases d - row,
    {
        let pr: usize = if (row / pc) % 2 == 1 {
            proof {
                lemma_cnot_perm_involution(row as int, cn, tn, n as nat);
                if (row / pt) % 2 == 1 {
                    vstd::arithmetic::div_mod::lemma_fundamental_div_mod(row as int, pt as int);
                    assert((row as int) - (pt as int) >= 0) by (nonlinear_arith)
                        requires
                            row as int == (pt as int) * ((row as int) / (pt as int)) + (row as int)
                                % (pt as int),
                            (row as int) / (pt as int) >= 1,
                            (row as int) % (pt as int) >= 0,
                            pt as int > 0,
                    ;
                }
            }
            if (row / pt) % 2 == 1 {
                row - pt
            } else {
                row + pt
            }
        } else {
            row
        };
        proof {
            assert(pr as int == cnot_perm(row as int, cn, tn));
            lemma_cnot_perm_involution(row as int, cn, tn, n as nat);
        }
        let mut col: usize = 0;
        while col < d
            invariant
                row < d,
                col <= d,
                pr as int == cnot_perm(row as int, cn, tn),
                m@.len() == row * d + col,
                forall|r0: int, c0: int|
                    0 <= r0 < row && 0 <= c0 < d ==> #[trigger] m@[r0 * d + c0] == (if c0
                        == cnot_perm(r0, cn, tn) {
                        c_one()
                    } else {
                        c_zero()
                    }),
                forall|c0: int|
                    0 <= c0 < col ==> #[trigger] m@[row * d + c0] == (if c0 == cnot_perm(
                        row as int,
                        cn,
                        tn,
                    ) {
                        c_one()
                    } else {
                        c_zero()
                    }),
            decreases d - col,
        {
            if col == pr {
                m.push(Complex::one());
            } else {
                m.push(Complex::zero());
            }
            proof {
                assert forall|r0: int, c0: int|
                    0 <= r0 < row && 0 <= c0 < d implies #[trigger] m@[r0 * d + c0] == (if c0
                    == cnot_perm(r0, cn, tn) {
                    c_one()
                } else {
                    c_zero()
                }) by {
                    assert(r0 * d + c0 < row * d) by (nonlinear_arith)
                        requires
                            0 <= r0 < row as int,
                            0 <= c0 < d as int,
                    ;
                }
            }
            col = col + 1;
        }
        proof {
            assert(row * d + d == (row + 1) * d) by (nonlinear_arith);
        }
        row = row + 1;
    }
    let g = Gate { matrix: m, dim: d };
    proof {
        assert forall|r0: int, c0: int|
            0 <= r0 < g.dim && 0 <= c0 < g.dim implies #[trigger] g.entry(r0, c0) == (if r0
            == cnot_perm(c0, cn, tn) {
            c_one()
        } else {
            c_zero()
        }) by {
            assert(r0 * d + c0 < d * d && 0 <= r0 * d + c0) by (nonlinear_arith)
                requires
                    0 <= r0 < d as int,
                    0 <= c0 < d as int,
            ;
            lemma_cnot_perm_involution(r0, cn, tn, n as nat);
            lemma_cnot_perm_involution(c0, cn, tn, n as nat);
        }
    }
    Ok(g)
}

/// Returns the Pauli-X (bit flip) gate: it swaps the two amplitudes.
pub fn pauli_x() -> (g: Gate)
    ensures
        g.wf(),
        g.dim == 2,
        g.entry(0, 0) == c_zero(),
        g.entry(0, 1) == c_one(),
        g.entry(1, 0) == c_one(),
        g.entry(1, 1) == c_zero(),
{
    let mut m: Vec<Complex> = Vec::new();
    m.push(Complex::zero());
    m.push(Complex::one());
    m.push(Complex::one());
    m.push(Complex::zero());
    Gate { matrix: m, dim: 2 }
}

/// Returns the Pauli-Y gate: row 0 holds -i times the second amplitude,
/// row 1 holds +i times the first.
pub fn pauli_y() -> (g: Gate)
    ensures
        g.wf(),
        g.dim == 2,
        g.entry(0, 0) == c_zero(),
        g.entry(0, 1) == c_neg_i(),
        g.entry(1, 0) == c_i(),
        g.entry(1, 1) == c_zero(),
{
    let mut m: Vec<Complex> = Vec::new();
    m.push(Complex::zero());
    m.push(Complex::new(0, -FX_ONE));
    m.push(Complex::new(0, FX_ONE));
    m.push(Complex::zero());
    Gate { matrix: m, dim: 2 }
}

/// Returns the Pauli-Z gate: it negates the second amplitude.
pub fn pauli_z() -> (g: Gate)
    ensures
        g.wf(),
        g.dim == 2,
        g.entry(0, 0) == c_one(),
        g.entry(0, 1) == c_zero(),
        g.entry(1, 0) == c_zero(),
        g.entry(1, 1) == c_neg_one(),
{
    let mut m: Vec<Complex> = Vec::new();
    m.push(Complex::one());
    m.push(Complex::zero());
    m.push(Complex::zero());
    m.push(Complex::new(-FX_ONE, 0));
    Gate { matrix: m, dim: 2 }
}

/// Returns the phase gate for a unit factor e^(i * theta): the first
/// amplitude is kept, the second is multiplied by the factor.  The caller
/// supplies the factor as a fixed-point complex value, cos(theta) +
/// i * sin(theta).
pub fn phase(factor: Complex) -> (g: Gate)
    ensures
        g.wf(),
        g.dim == 2,
        g.entry(0, 0) == c_one(),
        g.entry(0, 1) == c_zero(),
        g.entry(1, 0) == c_zero(),
        g.entry(1, 1) == factor,
{
    let mut m: Vec<Complex> = Vec::new();
    m.push(Complex::one());
    m.push(Complex::zero());
    m.push(Complex::zero());
    m.push(factor);
    Gate { matrix: m, dim: 2 }
}

/// Returns the S gate: the phase gate for theta = pi/2, whose factor is
/// exactly i.
pub fn s() -> (g: Gate)
    ensures
        g.wf(),
        g.dim == 2,
        g.entry(0, 0) == c_one(),
        g.entry(0, 1) == c_zero(),
        g.entry(1, 0) == c_zero(),
        g.entry(1, 1) == c_i(),
{
    phase(Complex::new(0, FX_ONE))
}

} // verus!


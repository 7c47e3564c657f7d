use quantum_simulator::circuit::Circuit;
use quantum_simulator::complex::Complex;
use quantum_simulator::error::QuantumError;
use quantum_simulator::fixed::FX_ONE;
use quantum_simulator::gates::{cnot, hadamard, pauli_x, pauli_z, phase, s, Gate};
use quantum_simulator::qubit::{get_reduced_state, Qubit};
use quantum_simulator::simulator::Simulator;

const SCALE: f64 = 1099511627776.0;

fn fx(x: f64) -> i64 {
    (x * SCALE).round() as i64
}

fn to_f64(v: i64) -> f64 {
    v as f64 / SCALE
}

fn approx(a: Complex, re: f64, im: f64, tol: f64) -> bool {
    let dre = to_f64(a.re) - re;
    let dim = to_f64(a.im) - im;
    (dre * dre + dim * dim).sqrt() < tol
}

#[test]
fn test_hadamard_twice_restores_state() {
    // Hadamard is self-inverse: H(H(s)) returns s within tolerance.
    let mut circuit = Circuit::new();
    circuit.add_gate(hadamard(2));
    circuit.add_gate(hadamard(2));

    let initial_state = vec![
        Complex::new(fx(0.5), fx(0.1)),
        Complex::new(fx(-0.5), 0),
        Complex::new(fx(0.25), fx(-0.3)),
        Complex::new(0, fx(0.6)),
    ];
    let final_qubit = Simulator::run(&circuit, &initial_state).unwrap();

    assert!(approx(final_qubit.state[0], 0.5, 0.1, 1e-9));
    assert!(approx(final_qubit.state[1], -0.5, 0.0, 1e-9));
    assert!(approx(final_qubit.state[2], 0.25, -0.3, 1e-9));
    assert!(approx(final_qubit.state[3], 0.0, 0.6, 1e-9));
}

#[test]
fn test_hadamard_three_qubits_uniform() {
    // Hadamard on |000>: every one of the 8 amplitudes is 1/sqrt(8),
    // exactly real.
    let mut circuit = Circuit::new();
    circuit.add_gate(hadamard(3));
    let mut initial_state = vec![Complex::new(0, 0); 8];
    initial_state[0] = Complex::new(FX_ONE, 0);
    let q = Simulator::run(&circuit, &initial_state).unwrap();
    let expected = 1.0 / (8.0_f64).sqrt();
    for k in 0..8 {
        assert!(approx(q.state[k], expected, 0.0, 1e-10));
        assert_eq!(q.state[k].im, 0);
    }
}

#[test]
fn test_pauli_x_bit_flip_exact() {
    // X|0> = |1> and X|1> = |0>, exactly.
    let mut q0 = Qubit::new();
    pauli_x().apply(&mut q0).unwrap();
    assert_eq!(q0.state[0], Complex::new(0, 0));
    assert_eq!(q0.state[1], Complex::new(FX_ONE, 0));

    let mut q1 = Qubit::from_state(vec![Complex::new(0, 0), Complex::new(FX_ONE, 0)]);
    pauli_x().apply(&mut q1).unwrap();
    assert_eq!(q1.state[0], Complex::new(FX_ONE, 0));
    assert_eq!(q1.state[1], Complex::new(0, 0));
}

#[test]
fn test_pauli_z_negates_second_amplitude() {
    // Z|1> = -|1>, exactly.
    let mut q = Qubit::from_state(vec![Complex::new(0, 0), Complex::new(FX_ONE, 0)]);
    pauli_z().apply(&mut q).unwrap();
    assert_eq!(q.state[0], Complex::new(0, 0));
    assert_eq!(q.state[1], Complex::new(-FX_ONE, 0));
}

#[test]
fn test_phase_first_amplitude_exactly_zero() {
    let theta = std::f64::consts::PI / 2.0;
    let mut q = Qubit::from_state(vec![Complex::new(0, 0), Complex::new(FX_ONE, 0)]);
    phase(Complex::new(fx(theta.cos()), fx(theta.sin())))
        .apply(&mut q)
        .unwrap();
    assert_eq!(q.state[0], Complex::new(0, 0));
}

#[test]
fn test_s_gate_multiplies_by_i() {
    // S|1> = i|1>, exactly: the S phase factor is exactly i.
    let mut q = Qubit::from_state(vec![Complex::new(0, 0), Complex::new(FX_ONE, 0)]);
    s().apply(&mut q).unwrap();
    assert_eq!(q.state[0], Complex::new(0, 0));
    assert_eq!(q.state[1], Complex::new(0, FX_ONE));
}

#[test]
fn test_probabilities_sum_to_one() {
    // For a unit-norm state the probability masses sum to 1.
    let h = fx(1.0 / (2.0_f64).sqrt());
    let q = Qubit::from_state(vec![Complex::new(h, 0), Complex::new(0, h)]);
    let probs = q.probabilities();
    let total: f64 = probs.iter().map(|p| *p as f64 / SCALE).sum();
    assert!((total - 1.0).abs() < 1e-9);
}

#[test]
fn test_probabilities_exact_basis_state() {
    let q = Qubit::new();
    let probs = q.probabilities();
    assert_eq!(probs.len(), 2);
    assert_eq!(probs[0], FX_ONE as i128);
    assert_eq!(probs[1], 0);
}

#[test]
fn test_measure_equal_superposition_frequencies() {
    // Over many trials on an equal superposition, both outcomes appear
    // with frequency near 50%.
    let h = fx(1.0 / (2.0_f64).sqrt());
    let q = Qubit::from_state(vec![Complex::new(h, 0), Complex::new(h, 0)]);
    let mut zeros: u32 = 0;
    for _ in 0..10000 {
        if q.measure() == 0 {
            zeros += 1;
        }
    }
    assert!(zeros > 4300, "too few zeros: {}", zeros);
    assert!(zeros < 5700, "too many zeros: {}", zeros);
}

#[test]
fn test_measure_basis_state_is_deterministic() {
    let q = Qubit::new();
    for _ in 0..100 {
        assert_eq!(q.measure(), 0);
    }
}

#[test]
fn test_measure_with_draw_walks_cumulative_masses() {
    let h = fx(1.0 / (2.0_f64).sqrt());
    let q = Qubit::from_state(vec![Complex::new(h, 0), Complex::new(h, 0)]);
    // The first bucket holds just under half of the mass.
    assert_eq!(q.measure_with_draw(0), 0);
    assert_eq!(q.measure_with_draw(FX_ONE / 2), 1);
    assert_eq!(q.measure_with_draw(FX_ONE - 1), 1);

    let one_hot = Qubit::from_state(vec![Complex::new(0, 0), Complex::new(FX_ONE, 0)]);
    assert_eq!(one_hot.measure_with_draw(0), 1);
}

#[test]
fn test_dimension_mismatch_fails() {
    // A 4x4 gate applied to a length-2 state fails deterministically.
    let mut circuit = Circuit::new();
    circuit.add_gate(hadamard(2));
    let initial_state = vec![Complex::new(FX_ONE, 0), Complex::new(0, 0)];
    let r = Simulator::run(&circuit, &initial_state);
    assert_eq!(r.unwrap_err(), QuantumError::DimensionMismatch);

    let mut q = Qubit::new();
    assert_eq!(
        hadamard(2).apply(&mut q).unwrap_err(),
        QuantumError::DimensionMismatch
    );
    // The state is untouched by the failed application.
    assert_eq!(q.state[0], Complex::new(FX_ONE, 0));
    assert_eq!(q.state[1], Complex::new(0, 0));
}

#[test]
fn test_gate_new_rejects_non_square() {
    let rows = vec![
        vec![Complex::new(FX_ONE, 0), Complex::new(0, 0)],
        vec![Complex::new(0, 0)],
    ];
    assert_eq!(Gate::new(rows).unwrap_err(), QuantumError::NonSquareMatrix);

    let square = vec![
        vec![Complex::new(FX_ONE, 0), Complex::new(0, 0)],
        vec![Complex::new(0, 0), Complex::new(FX_ONE, 0)],
    ];
    assert!(Gate::new(square).is_ok());
}

#[test]
fn test_cnot_rejects_invalid_bits() {
    assert_eq!(cnot(0, 0, 2).unwrap_err(), QuantumError::InvalidQubitIndex);
    assert_eq!(cnot(0, 2, 2).unwrap_err(), QuantumError::InvalidQubitIndex);
    assert_eq!(cnot(2, 1, 2).unwrap_err(), QuantumError::InvalidQubitIndex);
    assert!(cnot(0, 1, 2).is_ok());
}

#[test]
fn test_cnot_swaps_controlled_amplitudes() {
    // CNOT(control 0, target 1) on a 2-qubit register maps |01> to |11>.
    let gate = cnot(0, 1, 2).unwrap();
    let mut q = Qubit::from_state(vec![
        Complex::new(0, 0),
        Complex::new(FX_ONE, 0),
        Complex::new(0, 0),
        Complex::new(0, 0),
    ]);
    gate.apply(&mut q).unwrap();
    assert_eq!(q.state[1], Complex::new(0, 0));
    assert_eq!(q.state[3], Complex::new(FX_ONE, 0));
}

#[test]
fn test_apply_overflow_reported() {
    let rows = vec![
        vec![Complex::new(FX_ONE, 0), Complex::new(FX_ONE, 0)],
        vec![Complex::new(FX_ONE, 0), Complex::new(FX_ONE, 0)],
    ];
    let gate = Gate::new(rows).unwrap();
    let mut q = Qubit::from_state(vec![
        Complex::new(i64::MAX, 0),
        Complex::new(i64::MAX, 0),
    ]);
    assert_eq!(gate.apply(&mut q).unwrap_err(), QuantumError::Overflow);
}

#[test]
fn test_empty_circuit_keeps_state() {
    let circuit = Circuit::new();
    let initial_state = vec![Complex::new(fx(0.6), 0), Complex::new(fx(0.8), 0)];
    let q = Simulator::run(&circuit, &initial_state).unwrap();
    assert_eq!(q.state[0], Complex::new(fx(0.6), 0));
    assert_eq!(q.state[1], Complex::new(fx(0.8), 0));
}

#[test]
fn test_from_real_parts() {
    let q = Qubit::from_real_parts(fx(0.6), fx(0.8));
    assert_eq!(q.state.len(), 2);
    assert_eq!(q.state[0], Complex::new(fx(0.6), 0));
    assert_eq!(q.state[1], Complex::new(fx(0.8), 0));
}

#[test]
fn test_qubit_new_is_basis_zero() {
    let q = Qubit::new();
    assert_eq!(q.state.len(), 2);
    assert_eq!(q.state[0], Complex::new(FX_ONE, 0));
    assert_eq!(q.state[1], Complex::new(0, 0));
}

#[test]
fn test_reduced_state_basis() {
    // For the plain |0> state, the reduced view of bit 0 is exactly
    // (1, 0).
    let state = vec![Complex::new(FX_ONE, 0), Complex::new(0, 0)];
    let (c0, c1) = get_reduced_state(&state, 0).unwrap();
    assert_eq!(c0, Complex::new(FX_ONE, 0));
    assert_eq!(c1, Complex::new(0, 0));
}

#[test]
fn test_reduced_state_entangled_pair() {
    // For (|00> + |11>)/sqrt(2), each bit reduces to an equal pair.
    let h = fx(1.0 / (2.0_f64).sqrt());
    let state = vec![
        Complex::new(h, 0),
        Complex::new(0, 0),
        Complex::new(0, 0),
        Complex::new(h, 0),
    ];
    let (c0, c1) = get_reduced_state(&state, 0).unwrap();
    let e = 1.0 / (2.0_f64).sqrt();
    assert!(approx(c0, e, 0.0, 1e-6));
    assert!(approx(c1, e, 0.0, 1e-6));
}

#[test]
fn test_reduced_state_zero_mass_stays_zero() {
    let state = vec![Complex::new(0, 0), Complex::new(0, 0)];
    let (c0, c1) = get_reduced_state(&state, 0).unwrap();
    assert_eq!(c0, Complex::new(0, 0));
    assert_eq!(c1, Complex::new(0, 0));
}

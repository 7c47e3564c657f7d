use quantum_simulator::circuit::Circuit;
use quantum_simulator::complex::Complex;
use quantum_simulator::gates::{cnot, hadamard, pauli_x, pauli_y, pauli_z, phase};
use quantum_simulator::simulator::Simulator;

const TOLERANCE: f64 = 1e-10;
const SCALE: f64 = 1099511627776.0;

fn fx(x: f64) -> i64 {
    (x * SCALE).round() as i64
}

fn to_f64(v: i64) -> f64 {
    v as f64 / SCALE
}

fn complex_approx_eq(a: Complex, re: f64, im: f64, tol: f64) -> bool {
    let dre = to_f64(a.re) - re;
    let dim = to_f64(a.im) - im;
    (dre * dre + dim * dim).sqrt() < tol
}

#[test]
fn test_hadamard_pauli_x() {
    let mut circuit = Circuit::new();
    circuit.add_gate(hadamard(1));
    circuit.add_gate(pauli_x());

    let initial_state = vec![Complex::new(fx(1.0), 0), Complex::new(0, 0)]; // |0> state
    let final_qubit = Simulator::run(&circuit, &initial_state).unwrap();

    assert!(complex_approx_eq(
        final_qubit.state[0],
        0.7071067811865475,
        0.0,
        TOLERANCE
    ));
    assert!(complex_approx_eq(
        final_qubit.state[1],
        0.7071067811865475,
        0.0,
        TOLERANCE
    ));
}

#[test]
fn test_pauli_y() {
    let mut circuit = Circuit::new();
    circuit.add_gate(pauli_y());

    let initial_state = vec![Complex::new(fx(1.0), 0), Complex::new(0, 0)]; // |0> state
    let final_qubit = Simulator::run(&circuit, &initial_state).unwrap();

    assert!(complex_approx_eq(final_qubit.state[0], 0.0, 0.0, TOLERANCE));
    assert!(complex_approx_eq(final_qubit.state[1], 0.0, 1.0, TOLERANCE));
}

#[test]
fn test_pauli_z() {
    let mut circuit = Circuit::new();
    circuit.add_gate(pauli_z());

    let initial_state = vec![Complex::new(fx(1.0), 0), Complex::new(0, 0)]; // |0> state
    let final_qubit = Simulator::run(&circuit, &initial_state).unwrap();

    assert!(complex_approx_eq(final_qubit.state[0], 1.0, 0.0, TOLERANCE));
    assert!(complex_approx_eq(final_qubit.state[1], 0.0, 0.0, TOLERANCE));
}

#[test]
fn test_phase() {
    let theta = std::f64::consts::PI / 2.0;
    let mut circuit = Circuit::new();
    circuit.add_gate(phase(Complex::new(fx(theta.cos()), fx(theta.sin()))));

    let initial_state = vec![Complex::new(0, 0), Complex::new(fx(1.0), 0)]; // |1> state
    let final_qubit = Simulator::run(&circuit, &initial_state).unwrap();

    assert!(complex_approx_eq(final_qubit.state[0], 0.0, 0.0, TOLERANCE));
    assert!(complex_approx_eq(
        final_qubit.state[1],
        6.123233995736766e-17,
        1.0,
        TOLERANCE
    ));
}

#[test]
fn test_hadamard_multi_qubit() {
    let mut circuit = Circuit::new();
    circuit.add_gate(hadamard(3));

    let mut initial_state = vec![Complex::new(0, 0); 8];
    initial_state[0] = Complex::new(fx(1.0), 0); // |000> state
    let final_qubit = Simulator::run(&circuit, &initial_state).unwrap();

    let expected_amplitude = 1.0 / (8.0_f64).sqrt();
    assert!(complex_approx_eq(
        final_qubit.state[0],
        expected_amplitude,
        0.0,
        TOLERANCE
    ));
    assert!(complex_approx_eq(
        final_qubit.state[1],
        expected_amplitude,
        0.0,
        TOLERANCE
    ));
}

#[test]
fn test_cnot() {
    let mut circuit = Circuit::new();
    circuit.add_gate(hadamard(3));
    circuit.add_gate(cnot(0, 1, 3).unwrap());

    let mut initial_state = vec![Complex::new(0, 0); 8];
    initial_state[0] = Complex::new(fx(1.0), 0); // |000> state
    let final_qubit = Simulator::run(&circuit, &initial_state).unwrap();

    // Applying the Hadamard transform to |000> spreads the amplitude
    // uniformly over all 8 basis states, and the controlled-not then only
    // permutes those equal amplitudes.
    let expected_amplitude = 1.0 / (8.0_f64).sqrt();
    assert!(complex_approx_eq(
        final_qubit.state[0],
        expected_amplitude,
        0.0,
        TOLERANCE
    ));
    assert!(complex_approx_eq(
        final_qubit.state[1],
        expected_amplitude,
        0.0,
        TOLERANCE
    ));
    assert!(complex_approx_eq(
        final_qubit.state[2],
        expected_amplitude,
        0.0,
        TOLERANCE
    ));
    assert!(complex_approx_eq(
        final_qubit.state[3],
        expected_amplitude,
        0.0,
        TOLERANCE
    ));
}

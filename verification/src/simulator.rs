//! The entry point: wraps an initial amplitude list into a state and
//! drives circuit execution.

use crate::circuit::{run_spec, Circuit};
use crate::complex::Complex;
use crate::error::QuantumError;
use crate::qubit::Qubit;
use vstd::prelude::*;

verus! {

/// A stateless entry point: a pure function from a circuit and an initial
/// amplitude list to the final state.
pub struct Simulator;

impl Simulator {
    /// Wraps the initial amplitudes into a state, runs every gate of the
    /// circuit on it in order, and returns the final state.  The first
    /// failing gate stops the run and its error is returned.
    pub fn run(circuit: &Circuit, initial_state: &[Complex]) -> (r: Result<Qubit, QuantumError>)
        requires
            circuit.wf(),
        ensures
            run_spec(circuit.gates@, initial_state@) is Ok ==> r is Ok && r->Ok_0.state@
                == run_spec(circuit.gates@, initial_state@)->Ok_0,
            run_spec(circuit.gates@, initial_state@) is Err ==> r is Err && r->Err_0 == run_spec(
                circuit.gates@,
                initial_state@,
            )->Err_0,
    {
        let v = vstd::slice::slice_to_vec(initial_state);
        let mut qubit = Qubit::from_state(v);
        match circuit.run(&mut qubit) {
            Ok(()) => Ok(qubit),
            Err(e) => Err(e),
        }
    }
}

} // verus!

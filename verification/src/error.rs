//! The error conditions that the engine reports.

use vstd::prelude::*;

verus! {

/// The failure conditions of the simulation engine.  Every operation that
/// can fail reports exactly which contract its caller broke, or that an
/// amplitude left the representable fixed-point range.
#[derive(Clone, Copy, Debug, PartialEq, Eq, Structural)]
pub enum QuantumError {
    /// A gate was applied to a state whose dimension differs from the
    /// gate's dimension.
    DimensionMismatch,
    /// A gate was built from rows of unequal lengths.
    NonSquareMatrix,
    /// A controlled-not gate was requested with equal control and target
    /// bits, or with a bit position outside the register.
    InvalidQubitIndex,
    /// An amplitude of the result does not fit the fixed-point range.
    Overflow,
}

} // verus!

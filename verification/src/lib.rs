//! A small quantum register simulator over fixed-point complex amplitudes.
//!
//! A state of an n-qubit register is a vector of 2^n complex amplitudes,
//! a gate is a square complex matrix, and a circuit is a sequence of gates
//! applied left to right.  Amplitudes are stored as integer multiples of
//! 2^-40, so every arithmetic step of the engine is exact integer
//! computation with a precise contract; the single non-deterministic
//! operation is the random draw inside measurement.

pub mod circuit;
pub mod complex;
pub mod error;
pub mod fixed;
pub mod gates;
pub mod qubit;
pub mod simulator;

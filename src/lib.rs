//! An exact simulator of a small register of qubits.
//!
//! The register is held as a density matrix whose entries live in the ring of
//! integers of the cyclotomic field of the 32nd roots of unity, over a common
//! power-of-two denominator. Every gate the library offers (Hadamard, the Pauli
//! gates, phase rotations by multiples of 1/32 of a turn, controlled NOT,
//! controlled phase and SWAP) maps such a matrix to another one exactly, so
//! the laws of the simulation hold without rounding.
//!
//! - `model`: the mathematical model of a register and of each gate;
//! - `state`: the register, its creation and the gates;
//! - `measure`: outcome probabilities in the Z, X and Y bases;
//! - `transform`: the quantum Fourier transform and phase estimation;
//! - `correct`: error correction from a syndrome;
//! - `trace`, `hermitian`: the invariants every register keeps;
//! - `laws`: properties of the simulation, proved over the model.
mod bits;
pub mod correct;
pub mod error;
pub mod gate;
pub mod hermitian;
pub mod laws;
pub mod measure;
pub mod model;
pub mod state;
pub mod trace;
pub mod transform;

//! Executable forms of this gate model: which entry a gate moves where, and
//! by which power of `z` it turns it.
use vstd::prelude::*;
use crate::bits::{lemma_flip, lemma_flip_other};
use crate::model::{bit, flip, gate_fits, source_index, weight, Gate, MAX_QUBITS, PHASE_STEPS, COEFFS};

verus! {

pub fn bit_of(i: usize, q: usize) -> (r: bool)
    requires
        q < MAX_QUBITS,
    ensures
        r == bit(i, q),
{
    (i >> q) & 1usize == 1usize
}

pub fn flip_of(i: usize, q: usize) -> (r: usize)
    requires
        q < MAX_QUBITS,
    ensures
        r == flip(i, q),
{
    i ^ (1usize << q)
}

/// This gate sends basis index `source_index(g, i)` to `i`, and doing so
/// twice is doing nothing.
pub proof fn lemma_source(g: Gate, i: usize, n: usize)
    requires
        gate_fits(g, n as nat),
        n <= MAX_QUBITS,
        i < (1usize << n),
    ensures
        source_index(g, i) < (1usize << n),
        source_index(g, source_index(g, i)) == i,
{
    match g {
        Gate::PauliX { qubit } => {
            lemma_flip(i, qubit, n);
        },
        Gate::PauliY { qubit } => {
            lemma_flip(i, qubit, n);
        },
        Gate::Cnot { control, target } => {
            lemma_flip(i, target, n);
            lemma_flip_other(i, target, control);
        },
        Gate::Swap { first, second } => {
            let x = flip(i, first);
            let y = flip(x, second);
            lemma_flip(i, first, n);
            lemma_flip(x, second, n);
            lemma_flip_other(i, first, second);
            lemma_flip_other(x, second, first);
            if bit(i, first) != bit(i, second) {
                lemma_flip(y, first, n);
                lemma_flip_other(y, first, second);
                lemma_flip_other(x, first, second);
                lemma_flip(flip(y, first), second, n);
                lemma_flip(flip(x, first), second, n);
            }
        },
        _ => {},
    }
}

/// The index that gate `g` moves to index `i`.
pub fn source_of(g: Gate, i: usize) -> (r: usize)
    requires
        gate_fits(g, MAX_QUBITS as nat),
    ensures
        r == source_index(g, i),
{
    match g {
        Gate::PauliX { qubit } => flip_of(i, qubit),
        Gate::PauliY { qubit } => flip_of(i, qubit),
        Gate::Cnot { control, target } => if bit_of(i, control) {
            flip_of(i, target)
        } else {
            i
        },
        Gate::Swap { first, second } => if bit_of(i, first) != bit_of(i, second) {
            flip_of(flip_of(i, first), second)
        } else {
            i
        },
        _ => i,
    }
}

/// The power of `z` that gate `g` attaches to index `i`.
pub fn weight_of(g: Gate, i: usize) -> (r: usize)
    requires
        gate_fits(g, MAX_QUBITS as nat),
    ensures
        r < PHASE_STEPS,
        r as int == weight(g, i),
{
    match g {
        Gate::PauliY { qubit } => if bit_of(i, qubit) {
            COEFFS
        } else {
            0
        },
        Gate::PauliZ { qubit } => if bit_of(i, qubit) {
            COEFFS
        } else {
            0
        },
        Gate::Phase { qubit, turns } => if bit_of(i, qubit) {
            turns % PHASE_STEPS
        } else {
            0
        },
        Gate::ControlledPhase { control, target, turns } => if bit_of(i, control) && bit_of(
            i,
            target,
        ) {
            turns % PHASE_STEPS
        } else {
            0
        },
        _ => 0,
    }
}

} // verus!

use vstd::prelude::*;

verus! {

/// The ways in which an operation on a register can be refused.
///
/// Every refusal is decided before the register is touched: a call that
/// fails leaves the register as it was.
#[derive(Debug, Clone, Copy, PartialEq, Eq, Structural)]
pub enum QuantumError {
    /// The number of qubits is zero or above `MAX_QUBITS`.
    InvalidDimension,
    /// A qubit index is not below the register's number of qubits.
    QubitIndexOutOfRange,
    /// The number of distinct target qubits does not fit this gate.
    DimensionMismatch,
    /// The register has too few qubits for the requested precision.
    InsufficientQubits,
    /// The syndrome does not have one flag per entry of the correction table.
    SyndromeLengthMismatch,
    /// A basis name other than `z`, `x` or `y`.
    UnsupportedBasis,
    /// An exact amplitude no longer fits the 64-bit coefficients.
    Overflow,
}

} // verus!

//! Error correction from a syndrome, by a fixed table of Pauli corrections.
use vstd::prelude::*;
use crate::error::QuantumError;
use crate::model::{circuit_applied, gate_fits, Gate};
use crate::state::QuantumState;
use crate::transform::all_fit;

verus! {

/// The number of flags of a syndrome: one per entry of the table.
pub const SYNDROME_LEN: usize = 4;

/// The correction that flag `k` of the syndrome calls for: X on qubit 0,
/// Z on qubit 0, X on qubit 1, Z on qubit 1.
pub open spec fn correction_gate(k: int) -> Gate {
    if k == 0 {
        Gate::PauliX { qubit: 0 }
    } else if k == 1 {
        Gate::PauliZ { qubit: 0 }
    } else if k == 2 {
        Gate::PauliX { qubit: 1 }
    } else {
        Gate::PauliZ { qubit: 1 }
    }
}

/// The corrections of the set flags, in the order of the flags.
pub open spec fn correction_circuit(syndrome: Seq<bool>) -> Seq<Gate>
    decreases syndrome.len(),
{
    if syndrome.len() == 0 {
        Seq::empty()
    } else {
        let rest = correction_circuit(syndrome.drop_last());
        if syndrome.last() {
            rest.push(correction_gate(syndrome.len() - 1))
        } else {
            rest
        }
    }
}

fn correction_gate_of(k: usize) -> (r: Gate)
    ensures
        r == correction_gate(k as int),
{
    if k == 0 {
        Gate::PauliX { qubit: 0 }
    } else if k == 1 {
        Gate::PauliZ { qubit: 0 }
    } else if k == 2 {
        Gate::PauliX { qubit: 1 }
    } else {
        Gate::PauliZ { qubit: 1 }
    }
}

impl QuantumState {
    /// Applies the corrections that the syndrome calls for, flag by flag.
    /// Refused, with the register unchanged, where the syndrome does not
    /// have `SYNDROME_LEN` flags, or where a correction names a qubit that
    /// the register lacks.
    pub fn apply_error_correction(&mut self, syndrome: &[bool]) -> (r: Result<(), QuantumError>)
        requires
            old(self).wf(),
        ensures
            final(self).wf(),
            syndrome@.len() != SYNDROME_LEN ==> r == Err::<(), QuantumError>(
                QuantumError::SyndromeLengthMismatch,
            ) && final(self)@ == old(self)@,
            syndrome@.len() == SYNDROME_LEN && !all_fit(
                correction_circuit(syndrome@),
                old(self)@.qubits,
            ) ==> r == Err::<(), QuantumError>(QuantumError::QubitIndexOutOfRange) && final(self)@
                == old(self)@,
            syndrome@.len() == SYNDROME_LEN && all_fit(
                correction_circuit(syndrome@),
                old(self)@.qubits,
            ) ==> circuit_applied(old(self)@, correction_circuit(syndrome@), r, final(self)@),
    {
        if syndrome.len() != SYNDROME_LEN {
            return Err(QuantumError::SyndromeLengthMismatch);
        }
        let n = self.num_qubits();
        let mut gs: Vec<Gate> = Vec::new();
        let mut k: usize = 0;
        let mut ok = true;
        while k < SYNDROME_LEN
            invariant
                syndrome@.len() == SYNDROME_LEN,
                k <= SYNDROME_LEN,
                gs@ == correction_circuit(syndrome@.take(k as int)),
                ok == all_fit(gs@, n as nat),
            decreases SYNDROME_LEN - k,
        {
            assert(syndrome@.take(k + 1).drop_last() =~= syndrome@.take(k as int));
            if syndrome[k] {
                let g = correction_gate_of(k);
                let fits_here = (k < 2 && n >= 1) || n >= 2;
                assert(fits_here == gate_fits(g, n as nat));
                ok = ok && fits_here;
                let ghost before = gs@;
                gs.push(g);
                proof {
                    assert(gs@[gs.len() - 1] == g);
                    if all_fit(before, n as nat) && fits_here {
                        assert forall|x: int| 0 <= x < gs@.len() implies gate_fits(#[trigger] gs@[x], n as nat) by {
                            if x < before.len() {
                                assert(gs@[x] == before[x]);
                            }
                        }
                    }
                    if all_fit(gs@, n as nat) {
                        assert forall|x: int| 0 <= x < before.len() implies gate_fits(#[trigger] before[x], n as nat) by {
                            assert(gs@[x] == before[x]);
                        }
                    }
                }
            }
            k = k + 1;
        }
        assert(syndrome@.take(SYNDROME_LEN as int) =~= syndrome@);
        if !ok {
            return Err(QuantumError::QubitIndexOutOfRange);
        }
        self.apply_circuit(&gs)
    }
}

} // verus!

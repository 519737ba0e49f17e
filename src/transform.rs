//! Circuits built from the elementary gates: the quantum Fourier transform,
//! its inverse, and phase estimation.
use vstd::prelude::*;
use crate::error::QuantumError;
use crate::model::{circuit_applied, gate_fits, Gate, PHASE_STEPS};
use crate::state::QuantumState;

verus! {

/// All gates of `gs` name qubits of an `n`-qubit register.
pub open spec fn all_fit(gs: Seq<Gate>, n: nat) -> bool {
    forall|k: int| 0 <= k < gs.len() ==> gate_fits(#[trigger] gs[k], n)
}

/// The phase, in steps, of the controlled rotation between qubits `d`
/// apart: `1 / 2^d` of a turn.
pub open spec fn qft_turns(d: usize) -> usize {
    PHASE_STEPS >> d
}

/// The controlled rotations from qubit `i` to the qubits `i + 1 .. e`.
pub open spec fn rotation_block(i: usize, e: usize) -> Seq<Gate>
    decreases e,
{
    if e <= i + 1 {
        Seq::empty()
    } else {
        rotation_block(i, (e - 1) as usize).push(
            Gate::ControlledPhase {
                control: (e - 1) as usize,
                target: i,
                turns: qft_turns((e - 1 - i) as usize),
            },
        )
    }
}

/// For each qubit `i` of `start .. k`, a Hadamard on `i` and the rotations
/// from `i` to the later qubits below `end`.
pub open spec fn qft_layers(start: usize, k: usize, end: usize) -> Seq<Gate>
    decreases k,
{
    if k <= start {
        Seq::empty()
    } else {
        qft_layers(start, (k - 1) as usize, end).push(Gate::Hadamard { qubit: (k - 1) as usize })
            + rotation_block((k - 1) as usize, end)
    }
}

/// The first `k` swaps that reverse the qubits of `start .. end`.
pub open spec fn qft_swaps(start: usize, end: usize, k: usize) -> Seq<Gate>
    decreases k,
{
    if k == 0 {
        Seq::empty()
    } else {
        qft_swaps(start, end, (k - 1) as usize).push(
            Gate::Swap { first: (start + k - 1) as usize, second: (end - k) as usize },
        )
    }
}

/// The quantum Fourier transform on the qubits `start .. end`.
pub open spec fn qft_circuit(start: usize, end: usize) -> Seq<Gate> {
    qft_layers(start, end, end) + qft_swaps(start, end, ((end - start) / 2) as usize)
}

/// This gate that undoes `g`.
pub open spec fn inverse_gate(g: Gate) -> Gate {
    match g {
        Gate::Phase { qubit, turns } => Gate::Phase {
            qubit,
            turns: ((PHASE_STEPS - turns % PHASE_STEPS) % (PHASE_STEPS as int)) as usize,
        },
        Gate::ControlledPhase { control, target, turns } => Gate::ControlledPhase {
            control,
            target,
            turns: ((PHASE_STEPS - turns % PHASE_STEPS) % (PHASE_STEPS as int)) as usize,
        },
        _ => g,
    }
}

/// The circuit that undoes `gs`: the inverse gates in reverse order.
pub open spec fn inverse_circuit(gs: Seq<Gate>) -> Seq<Gate>
    decreases gs.len(),
{
    if gs.len() == 0 {
        Seq::empty()
    } else {
        seq![inverse_gate(gs.last())] + inverse_circuit(gs.drop_last())
    }
}

fn inverse_gate_of(g: Gate) -> (r: Gate)
    ensures
        r == inverse_gate(g),
{
    match g {
        Gate::Phase { qubit, turns } => Gate::Phase {
            qubit,
            turns: (PHASE_STEPS - turns % PHASE_STEPS) % PHASE_STEPS,
        },
        Gate::ControlledPhase { control, target, turns } => Gate::ControlledPhase {
            control,
            target,
            turns: (PHASE_STEPS - turns % PHASE_STEPS) % PHASE_STEPS,
        },
        _ => g,
    }
}

/// The inverse of a circuit, gate by gate from the last.
pub fn inverse_of(gs: &Vec<Gate>) -> (r: Vec<Gate>)
    ensures
        r@ == inverse_circuit(gs@),
        forall|n: nat| all_fit(gs@, n) ==> all_fit(r@, n),
{
    let mut r: Vec<Gate> = Vec::new();
    let mut k: usize = gs.len();
    assert(gs@.take(k as int) =~= gs@);
    assert(r@ + inverse_circuit(gs@) =~= inverse_circuit(gs@));
    while k > 0
        invariant
            k <= gs.len(),
            r@ + inverse_circuit(gs@.take(k as int)) == inverse_circuit(gs@),
            forall|x: int|
                0 <= x < r.len() ==> exists|y: int| k <= y < gs.len() && #[trigger] r@[x] == inverse_gate(gs@[y]),
        decreases k,
    {
        let g = inverse_gate_of(gs[k - 1]);
        proof {
            let t = gs@.take(k as int);
            assert(t.drop_last() =~= gs@.take(k - 1));
            assert(t.last() == gs@[k - 1]);
            assert(inverse_circuit(t) == seq![g] + inverse_circuit(gs@.take(k - 1)));
            assert(r@.push(g) + inverse_circuit(gs@.take(k - 1)) =~= r@ + inverse_circuit(t));
        }
        r.push(g);
        k = k - 1;
        proof {
            assert forall|x: int| 0 <= x < r.len() implies exists|y: int| k <= y < gs.len() && #[trigger] r@[x] == inverse_gate(gs@[y]) by {
                if x == r.len() - 1 {
                    assert(r@[x] == inverse_gate(gs@[k as int]));
                }
            }
        }
    }
    assert(gs@.take(0) =~= Seq::<Gate>::empty());
    assert(r@ + Seq::<Gate>::empty() =~= r@);
    proof {
        assert forall|n: nat| all_fit(gs@, n) implies all_fit(r@, n) by {
            assert forall|x: int| 0 <= x < r.len() implies gate_fits(#[trigger] r@[x], n) by {
                let y = choose|y: int| 0 <= y < gs.len() && r@[x] == inverse_gate(gs@[y]);
                assert(gate_fits(gs@[y], n));
            }
        }
    }
    r
}

/// The gates of the quantum Fourier transform on the qubits `start .. end`.
pub fn qft_gates(start: usize, end: usize) -> (r: Vec<Gate>)
    requires
        start <= end <= crate::model::MAX_QUBITS,
    ensures
        r@ == qft_circuit(start, end),
        all_fit(r@, end as nat),
{
    let mut r: Vec<Gate> = Vec::new();
    let mut i: usize = start;
    while i < end
        invariant
            start <= i <= end,
            end <= crate::model::MAX_QUBITS,
            r@ == qft_layers(start, i, end),
            all_fit(r@, end as nat),
        decreases end - i,
    {
        r.push(Gate::Hadamard { qubit: i });
        let ghost base = r@;
        let mut j: usize = i + 1;
        while j < end
            invariant
                start <= i < j,
                j <= end,
                end <= crate::model::MAX_QUBITS,
                base == qft_layers(start, i, end).push(Gate::Hadamard { qubit: i }),
                r@ == base + rotation_block(i, j),
                all_fit(r@, end as nat),
            decreases end - j,
        {
            let g = Gate::ControlledPhase { control: j, target: i, turns: PHASE_STEPS >> (j - i) };
            proof {
                assert(rotation_block(i, (j + 1) as usize) == rotation_block(i, j).push(g));
                assert(base + rotation_block(i, j).push(g) =~= (base + rotation_block(i, j)).push(g));
            }
            r.push(g);
            j = j + 1;
        }
        proof {
            if i + 1 >= end {
                assert(rotation_block(i, end) =~= Seq::<Gate>::empty());
                assert(base + rotation_block(i, (i + 1) as usize) =~= base);
            }
            assert(qft_layers(start, (i + 1) as usize, end) == base + rotation_block(i, end));
        }
        i = i + 1;
    }
    let ghost layers = r@;
    let half = (end - start) / 2;
    let mut k: usize = 0;
    assert(layers + qft_swaps(start, end, 0) =~= layers);
    while k < half
        invariant
            start <= end <= crate::model::MAX_QUBITS,
            half == (end - start) / 2,
            k <= half,
            layers == qft_layers(start, end, end),
            r@ == layers + qft_swaps(start, end, k),
            all_fit(r@, end as nat),
        decreases half - k,
    {
        let g = Gate::Swap { first: start + k, second: end - 1 - k };
        proof {
            assert(qft_swaps(start, end, (k + 1) as usize) == qft_swaps(start, end, k).push(g));
            assert(layers + qft_swaps(start, end, k).push(g) =~= (layers + qft_swaps(start, end, k)).push(g));
        }
        r.push(g);
        k = k + 1;
    }
    r
}

/// The first `k` ancilla steps of phase estimation with `p` ancillas: a
/// Hadamard on ancilla `i`, then the unitary `diag(1, z^turns)` on qubit `p`
/// raised to the power `2^i` and controlled by ancilla `i`.
pub open spec fn estimation_prep(k: usize, p: usize, turns: usize) -> Seq<Gate>
    decreases k,
{
    if k == 0 {
        Seq::empty()
    } else {
        let i = (k - 1) as usize;
        estimation_prep(i, p, turns).push(Gate::Hadamard { qubit: i }).push(
            Gate::ControlledPhase {
                control: i,
                target: p,
                turns: (((turns % PHASE_STEPS) as usize) << i) % PHASE_STEPS,
            },
        )
    }
}

/// Phase estimation with `p` ancillas (qubits `0 .. p`) of the eigenphase
/// `turns / PHASE_STEPS` of the unitary acting on qubit `p`.
pub open spec fn estimation_circuit(p: usize, turns: usize) -> Seq<Gate> {
    estimation_prep(p, p, turns) + inverse_circuit(qft_circuit(0, p))
}

proof fn lemma_fit_mono(gs: Seq<Gate>, a: nat, b: nat)
    requires
        all_fit(gs, a),
        a <= b,
    ensures
        all_fit(gs, b),
{
    assert forall|k: int| 0 <= k < gs.len() implies gate_fits(#[trigger] gs[k], b) by {
        assert(gate_fits(gs[k], a));
    }
}

impl QuantumState {
    /// Runs gates that all name qubits of the register.
    fn run_gates(&mut self, gs: &Vec<Gate>) -> (r: Result<(), QuantumError>)
        requires
            old(self).wf(),
            all_fit(gs@, old(self)@.qubits),
        ensures
            final(self).wf(),
            circuit_applied(old(self)@, gs@, r, final(self)@),
    {
        self.apply_circuit(gs)
    }

    /// The quantum Fourier transform on the qubits `start .. end`: for each
    /// qubit `i` in turn, a Hadamard on `i` and a controlled phase of
    /// `1 / 2^(j - i)` turn with every later qubit `j`; then the order of
    /// the qubits in the range is reversed by swaps.
    pub fn apply_qft(&mut self, start: usize, end: usize) -> (r: Result<(), QuantumError>)
        requires
            old(self).wf(),
        ensures
            final(self).wf(),
            !(start <= end <= old(self)@.qubits) ==> r == Err::<(), QuantumError>(
                QuantumError::QubitIndexOutOfRange,
            ) && final(self)@ == old(self)@,
            start <= end <= old(self)@.qubits ==> circuit_applied(
                old(self)@,
                qft_circuit(start, end),
                r,
                final(self)@,
            ),
    {
        proof {
            self.lemma_model();
        }
        if start > end || end > self.num_qubits() {
            return Err(QuantumError::QubitIndexOutOfRange);
        }
        let gs = qft_gates(start, end);
        proof {
            lemma_fit_mono(gs@, end as nat, self@.qubits);
        }
        self.run_gates(&gs)
    }

    /// The inverse of `apply_qft` on the same range.
    pub fn apply_inverse_qft(&mut self, start: usize, end: usize) -> (r: Result<(), QuantumError>)
        requires
            old(self).wf(),
        ensures
            final(self).wf(),
            !(start <= end <= old(self)@.qubits) ==> r == Err::<(), QuantumError>(
                QuantumError::QubitIndexOutOfRange,
            ) && final(self)@ == old(self)@,
            start <= end <= old(self)@.qubits ==> circuit_applied(
                old(self)@,
                inverse_circuit(qft_circuit(start, end)),
                r,
                final(self)@,
            ),
    {
        proof {
            self.lemma_model();
        }
        if start > end || end > self.num_qubits() {
            return Err(QuantumError::QubitIndexOutOfRange);
        }
        let gs = qft_gates(start, end);
        let inv = inverse_of(&gs);
        proof {
            lemma_fit_mono(inv@, end as nat, self@.qubits);
        }
        self.run_gates(&inv)
    }

    /// Phase estimation: with the qubits `0 .. precision` as ancillas and
    /// the unitary `diag(1, z^turns)` acting on qubit `precision`, runs
    /// `estimation_circuit`. Outcome `k` of the ancillas then estimates the
    /// eigenphase as `k / 2^precision` of a turn. The register needs a qubit
    /// beyond the ancillas.
    pub fn phase_estimation(&mut self, turns: usize, precision: usize) -> (r: Result<(), QuantumError>)
        requires
            old(self).wf(),
        ensures
            final(self).wf(),
            precision >= old(self)@.qubits ==> r == Err::<(), QuantumError>(
                QuantumError::InsufficientQubits,
            ) && final(self)@ == old(self)@,
            precision < old(self)@.qubits ==> circuit_applied(
                old(self)@,
                estimation_circuit(precision, turns),
                r,
                final(self)@,
            ),
    {
        proof {
            self.lemma_model();
        }
        if precision >= self.num_qubits() {
            return Err(QuantumError::InsufficientQubits);
        }
        let ghost n = self@.qubits;
        let mut gs: Vec<Gate> = Vec::new();
        let mut i: usize = 0;
        let t = turns % PHASE_STEPS;
        while i < precision
            invariant
                i <= precision,
                precision < n,
                n <= crate::model::MAX_QUBITS,
                t == turns % PHASE_STEPS,
                gs@ == estimation_prep(i, precision, turns),
                all_fit(gs@, n),
            decreases precision - i,
        {
            gs.push(Gate::Hadamard { qubit: i });
            gs.push(Gate::ControlledPhase { control: i, target: precision, turns: (t << i) % PHASE_STEPS });
            i = i + 1;
        }
        let qft = qft_gates(0, precision);
        let inv = inverse_of(&qft);
        proof {
            lemma_fit_mono(inv@, precision as nat, n);
        }
        let ghost prep = gs@;
        let mut k: usize = 0;
        while k < inv.len()
            invariant
                k <= inv.len(),
                gs@ == prep + inv@.take(k as int),
                all_fit(gs@, n),
                all_fit(inv@, n),
            decreases inv.len() - k,
        {
            assert(inv@.take(k + 1) =~= inv@.take(k as int).push(inv@[k as int]));
            gs.push(inv[k]);
            k = k + 1;
        }
        assert(inv@.take(inv.len() as int) =~= inv@);
        self.run_gates(&gs)
    }
}

} // verus!

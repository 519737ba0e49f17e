//! The mathematical model of a register and of the gates acting on it.
//!
//! An amplitude is an element `c_0 + c_1 z + ... + c_15 z^15` of `Z[z]`, where
//! `z = exp(2 pi i / 32)`; since `z^16 = -1` these sixteen coefficients are
//! all that is needed. A register of `n` qubits is a `2^n x 2^n` matrix of
//! such amplitudes together with a scale `s`: the density matrix it stands for
//! is the matrix divided by `2^s`.
use vstd::prelude::*;
use vstd::arithmetic::power2::{lemma_pow2_pos, lemma_pow2_unfold, pow2};
use crate::error::QuantumError;

verus! {

/// The largest number of qubits a register may have: the matrix holds
/// `4^n` amplitudes of `COEFFS` integers each.
pub const MAX_QUBITS: usize = 6;

/// Phases are whole multiples of `1 / PHASE_STEPS` of a turn.
pub const PHASE_STEPS: usize = 32;

/// The number of integer coefficients of one amplitude.
pub const COEFFS: usize = 16;

/// The side of the matrix of an `n`-qubit register.
pub open spec fn dim_of(n: nat) -> nat {
    (1usize << (n as usize)) as nat
}

/// Whether qubit `q` is set in the basis index `i`.
pub open spec fn bit(i: usize, q: usize) -> bool {
    (i >> q) & 1usize == 1usize
}

/// The basis index `i` with qubit `q` toggled.
pub open spec fn flip(i: usize, q: usize) -> usize {
    i ^ (1usize << q)
}

/// `-x` where `neg` holds, else `x`.
pub open spec fn signed(neg: bool, x: int) -> int {
    if neg {
        -x
    } else {
        x
    }
}

/// The coefficient `t` of `z^e` times the amplitude with coefficients `c`.
pub open spec fn rot_coef(c: Seq<int>, e: int, t: int) -> int {
    let u = (t - e) % (PHASE_STEPS as int);
    if u < COEFFS {
        c[u]
    } else {
        -c[u - COEFFS]
    }
}

/// The model of a register: the density matrix `cells / 2^scale`, where
/// `cells[i][j]` lists the coefficients of entry `(i, j)`.
pub struct Density {
    pub qubits: nat,
    pub scale: nat,
    pub cells: Seq<Seq<Seq<int>>>,
}

pub open spec fn density_wf(m: Density) -> bool {
    &&& 1 <= m.qubits <= MAX_QUBITS
    &&& m.cells.len() == dim_of(m.qubits)
    &&& forall|i: int| 0 <= i < m.cells.len() ==> #[trigger] m.cells[i].len() == m.cells.len()
    &&& forall|i: int, j: int|
        0 <= i < m.cells.len() && 0 <= j < m.cells.len() ==> #[trigger] m.cells[i][j].len()
            == COEFFS
}

/// The model can be stored: the scale fits a `u32` and every coefficient
/// lies in `[-i64::MAX, i64::MAX]`.
pub open spec fn fits(m: Density) -> bool {
    &&& m.scale < u32::MAX
    &&& forall|i: int, j: int, t: int|
        0 <= i < m.cells.len() && 0 <= j < m.cells.len() && 0 <= t < COEFFS ==> -i64::MAX
            <= #[trigger] m.cells[i][j][t] <= i64::MAX
}

/// The register of `n` qubits in the all-zero basis state: a single 1 at
/// entry `(0, 0)`.
pub open spec fn ground(n: nat) -> Density {
    Density {
        qubits: n,
        scale: 0,
        cells: Seq::new(
            dim_of(n),
            |i: int|
                Seq::new(
                    dim_of(n),
                    |j: int|
                        Seq::new(
                            COEFFS as nat,
                            |t: int|
                                if i == 0 && j == 0 && t == 0 {
                                    1int
                                } else {
                                    0int
                                },
                        ),
                ),
        ),
    }
}

/// An elementary gate. Phases are given in steps of `1 / PHASE_STEPS` turn.
#[derive(Debug, Clone, Copy, PartialEq, Eq, Structural)]
pub enum Gate {
    Hadamard { qubit: usize },
    PauliX { qubit: usize },
    PauliY { qubit: usize },
    PauliZ { qubit: usize },
    Phase { qubit: usize, turns: usize },
    Cnot { control: usize, target: usize },
    Swap { first: usize, second: usize },
    ControlledPhase { control: usize, target: usize, turns: usize },
}

/// This gate names qubits of an `n`-qubit register, two distinct ones for a
/// two-qubit gate.
pub open spec fn gate_fits(g: Gate, n: nat) -> bool {
    match g {
        Gate::Hadamard { qubit } => qubit < n,
        Gate::PauliX { qubit } => qubit < n,
        Gate::PauliY { qubit } => qubit < n,
        Gate::PauliZ { qubit } => qubit < n,
        Gate::Phase { qubit, turns } => qubit < n,
        Gate::Cnot { control, target } => control < n && target < n && control != target,
        Gate::Swap { first, second } => first < n && second < n && first != second,
        Gate::ControlledPhase { control, target, turns } => control < n && target < n && control
            != target,
    }
}

/// For every gate but Hadamard, `U |i> = z^weight(i) |perm(i)>`, where the
/// permutation is its own inverse. This is the basis index that `U` sends
/// to `i`.
pub open spec fn source_index(g: Gate, i: usize) -> usize {
    match g {
        Gate::PauliX { qubit } => flip(i, qubit),
        Gate::PauliY { qubit } => flip(i, qubit),
        Gate::Cnot { control, target } => if bit(i, control) {
            flip(i, target)
        } else {
            i
        },
        Gate::Swap { first, second } => if bit(i, first) != bit(i, second) {
            flip(flip(i, first), second)
        } else {
            i
        },
        _ => i,
    }
}

/// The power of `z` that this gate attaches to basis index `i` (up to a
/// global phase, which a density matrix does not see).
pub open spec fn weight(g: Gate, i: usize) -> int {
    match g {
        Gate::PauliY { qubit } => if bit(i, qubit) {
            COEFFS as int
        } else {
            0
        },
        Gate::PauliZ { qubit } => if bit(i, qubit) {
            COEFFS as int
        } else {
            0
        },
        Gate::Phase { qubit, turns } => if bit(i, qubit) {
            (turns % PHASE_STEPS) as int
        } else {
            0
        },
        Gate::ControlledPhase { control, target, turns } => if bit(i, control) && bit(
            i,
            target,
        ) {
            (turns % PHASE_STEPS) as int
        } else {
            0
        },
        _ => 0,
    }
}

/// `U rho U*` for a gate `U` other than Hadamard: every entry is moved and
/// turned by a power of `z`.
pub open spec fn monomial(m: Density, g: Gate) -> Density {
    Density {
        qubits: m.qubits,
        scale: m.scale,
        cells: Seq::new(
            m.cells.len(),
            |i: int|
                Seq::new(
                    m.cells.len(),
                    |j: int|
                        Seq::new(
                            COEFFS as nat,
                            |t: int|
                                rot_coef(
                                    m.cells[source_index(g, i as usize) as int][source_index(
                                        g,
                                        j as usize,
                                    ) as int],
                                    weight(g, i as usize) - weight(g, j as usize),
                                    t,
                                ),
                        ),
                ),
        ),
    }
}

/// The numerator of entry `(i, j)` of `H rho H` on qubit `q`, coefficient `t`:
/// with `H = [[1, 1], [1, -1]] / sqrt(2)`, entry `(i, j)` gathers the four
/// entries that agree with `(i, j)` off qubit `q`, each with the sign
/// `H[i][a] H[b][j]`.
pub open spec fn hadamard_coef(m: Density, q: usize, i: usize, j: usize, t: int) -> int {
    let fi = flip(i, q) as int;
    let fj = flip(j, q) as int;
    signed(bit(i, q) != bit(j, q), m.cells[i as int][j as int][t]) + signed(
        bit(i, q),
        m.cells[i as int][fj][t],
    ) + signed(bit(j, q), m.cells[fi][j as int][t]) + m.cells[fi][fj][t]
}

/// `H rho H` for a Hadamard `H` on qubit `q`. Its entries are halves of
/// signed sums of four entries, so the scale grows by one.
pub open spec fn hadamard(m: Density, q: usize) -> Density {
    Density {
        qubits: m.qubits,
        scale: m.scale + 1,
        cells: Seq::new(
            m.cells.len(),
            |i: int|
                Seq::new(
                    m.cells.len(),
                    |j: int|
                        Seq::new(
                            COEFFS as nat,
                            |t: int| hadamard_coef(m, q, i as usize, j as usize, t),
                        ),
                ),
        ),
    }
}

/// The register after one gate.
pub open spec fn step(m: Density, g: Gate) -> Density {
    match g {
        Gate::Hadamard { qubit } => hadamard(m, qubit),
        _ => monomial(m, g),
    }
}

/// The register after a sequence of gates, first to last.
pub open spec fn run(m: Density, gs: Seq<Gate>) -> Density
    decreases gs.len(),
{
    if gs.len() == 0 {
        m
    } else {
        step(run(m, gs.drop_last()), gs.last())
    }
}

/// Every register met along the run fits the 64-bit coefficients.
pub open spec fn run_fits(m: Density, gs: Seq<Gate>) -> bool
    decreases gs.len(),
{
    if gs.len() == 0 {
        true
    } else {
        run_fits(m, gs.drop_last()) && fits(run(m, gs))
    }
}

/// Two models stand for the same density matrix: same size, and equal
/// entries once brought to a common scale.
pub open spec fn same_state(a: Density, b: Density) -> bool {
    &&& a.qubits == b.qubits
    &&& a.cells.len() == b.cells.len()
    &&& forall|i: int, j: int, t: int|
        0 <= i < a.cells.len() && 0 <= j < a.cells.len() && 0 <= t < COEFFS ==> #[trigger] a.cells[i][j][t]
            * pow2(b.scale) == #[trigger] b.cells[i][j][t]
            * pow2(a.scale)
}

/// Two matrices of the same shape with the same coefficients are equal.
pub proof fn lemma_cells_ext(a: Seq<Seq<Seq<int>>>, b: Seq<Seq<Seq<int>>>)
    requires
        a.len() == b.len(),
        forall|i: int| 0 <= i < a.len() ==> #[trigger] a[i].len() == a.len(),
        forall|i: int| 0 <= i < a.len() ==> #[trigger] b[i].len() == a.len(),
        forall|i: int, j: int|
            0 <= i < a.len() && 0 <= j < a.len() ==> #[trigger] a[i][j].len() == COEFFS,
        forall|i: int, j: int|
            0 <= i < a.len() && 0 <= j < a.len() ==> #[trigger] b[i][j].len() == COEFFS,
        forall|i: int, j: int, t: int|
            0 <= i < a.len() && 0 <= j < a.len() && 0 <= t < COEFFS ==> #[trigger] a[i][j][t]
                == b[i][j][t],
    ensures
        a == b,
{
    assert forall|i: int| 0 <= i < a.len() implies #[trigger] a[i] == b[i] by {
        assert forall|j: int| 0 <= j < a.len() implies #[trigger] a[i][j] == b[i][j] by {
            assert(a[i][j] =~= b[i][j]);
        }
        assert(a[i] =~= b[i]);
    }
    assert(a =~= b);
}

/// Every qubit that this gate names is below `n`.
pub open spec fn gate_in_range(g: Gate, n: nat) -> bool {
    match g {
        Gate::Hadamard { qubit } => qubit < n,
        Gate::PauliX { qubit } => qubit < n,
        Gate::PauliY { qubit } => qubit < n,
        Gate::PauliZ { qubit } => qubit < n,
        Gate::Phase { qubit, turns } => qubit < n,
        Gate::Cnot { control, target } => control < n && target < n,
        Gate::Swap { first, second } => first < n && second < n,
        Gate::ControlledPhase { control, target, turns } => control < n && target < n,
    }
}

/// The prefix of a run that stays storable stays storable.
pub proof fn lemma_run_fits_prefix(m: Density, gs: Seq<Gate>, k: int)
    requires
        0 <= k <= gs.len(),
        run_fits(m, gs),
    ensures
        run_fits(m, gs.take(k)),
    decreases gs.len(),
{
    if k < gs.len() {
        assert(gs.drop_last().take(k) =~= gs.take(k));
        lemma_run_fits_prefix(m, gs.drop_last(), k);
    } else {
        assert(gs.take(k) =~= gs);
    }
}

/// Running one gate more.
pub proof fn lemma_run_next(m: Density, gs: Seq<Gate>, k: int)
    requires
        0 <= k < gs.len(),
    ensures
        run(m, gs.take(k + 1)) == step(run(m, gs.take(k)), gs[k]),
        run_fits(m, gs.take(k + 1)) == (run_fits(m, gs.take(k)) && fits(
            step(run(m, gs.take(k)), gs[k]),
        )),
{
    assert(gs.take(k + 1).drop_last() =~= gs.take(k));
}

/// What a call that applies gate `g` to a register modelled by `before`
/// returns, and what the register is modelled by afterwards.
pub open spec fn gate_applied(
    before: Density,
    g: Gate,
    r: Result<(), QuantumError>,
    after: Density,
) -> bool {
    if !gate_in_range(g, before.qubits) {
        r == Err::<(), QuantumError>(QuantumError::QubitIndexOutOfRange) && after == before
    } else if !gate_fits(g, before.qubits) {
        r == Err::<(), QuantumError>(QuantumError::DimensionMismatch) && after == before
    } else if !fits(step(before, g)) {
        r == Err::<(), QuantumError>(QuantumError::Overflow) && after == before
    } else {
        r is Ok && after == step(before, g)
    }
}

/// The kinds of gate, for callers that name the target qubits as a list.
#[derive(Debug, Clone, Copy, PartialEq, Eq, Structural)]
pub enum GateKind {
    Hadamard,
    PauliX,
    PauliY,
    PauliZ,
    Phase,
    Cnot,
    Swap,
    ControlledPhase,
}

/// The number of target qubits of a gate kind: its matrix has side
/// `2^arity`.
pub open spec fn arity(k: GateKind) -> nat {
    match k {
        GateKind::Cnot | GateKind::Swap | GateKind::ControlledPhase => 2,
        _ => 1,
    }
}

/// This gate of kind `k` on the given targets; `turns` is the phase of the
/// phase gates.
pub open spec fn gate_from(k: GateKind, turns: usize, targets: Seq<usize>) -> Gate {
    match k {
        GateKind::Hadamard => Gate::Hadamard { qubit: targets[0] },
        GateKind::PauliX => Gate::PauliX { qubit: targets[0] },
        GateKind::PauliY => Gate::PauliY { qubit: targets[0] },
        GateKind::PauliZ => Gate::PauliZ { qubit: targets[0] },
        GateKind::Phase => Gate::Phase { qubit: targets[0], turns },
        GateKind::Cnot => Gate::Cnot { control: targets[0], target: targets[1] },
        GateKind::Swap => Gate::Swap { first: targets[0], second: targets[1] },
        GateKind::ControlledPhase => Gate::ControlledPhase {
            control: targets[0],
            target: targets[1],
            turns,
        },
    }
}

/// What a call that runs the gates `gs` on a register modelled by `before`
/// returns, and what the register is modelled by afterwards.
pub open spec fn circuit_applied(
    before: Density,
    gs: Seq<Gate>,
    r: Result<(), QuantumError>,
    after: Density,
) -> bool {
    if run_fits(before, gs) {
        r is Ok && after == run(before, gs)
    } else {
        r == Err::<(), QuantumError>(QuantumError::Overflow) && after == before
    }
}

/// Every stored coefficient is even.
pub open spec fn all_even(m: Density) -> bool {
    forall|i: int, j: int, t: int|
        0 <= i < m.cells.len() && 0 <= j < m.cells.len() && 0 <= t < COEFFS ==> #[trigger] m.cells[i][j][t]
            % 2 == 0
}

/// The same density matrix with every coefficient and the denominator
/// halved.
pub open spec fn halve(m: Density) -> Density {
    Density {
        qubits: m.qubits,
        scale: (m.scale - 1) as nat,
        cells: Seq::new(
            m.cells.len(),
            |i: int|
                Seq::new(
                    m.cells.len(),
                    |j: int| Seq::new(COEFFS as nat, |t: int| m.cells[i][j][t] / 2),
                ),
        ),
    }
}

/// Every model stands for its own density matrix.
pub proof fn lemma_same_state_refl(m: Density)
    ensures
        same_state(m, m),
{
}

/// Standing for the same density matrix is transitive.
pub proof fn lemma_same_state_trans(a: Density, b: Density, c: Density)
    requires
        same_state(a, b),
        same_state(b, c),
    ensures
        same_state(a, c),
{
    lemma_pow2_pos(b.scale);
    assert forall|i: int, j: int, t: int|
        0 <= i < a.cells.len() && 0 <= j < a.cells.len() && 0 <= t < COEFFS implies #[trigger] a.cells[i][j][t]
        * pow2(c.scale) == #[trigger] c.cells[i][j][t] * pow2(a.scale) by {
        let (x, y, z) = (a.cells[i][j][t], b.cells[i][j][t], c.cells[i][j][t]);
        let (pa, pb, pc) = (pow2(a.scale), pow2(b.scale), pow2(c.scale));
        assert(x * pb == y * pa);
        assert(y * pc == z * pb);
        assert(x * pc == z * pa) by (nonlinear_arith)
            requires
                x * pb == y * pa,
                y * pc == z * pb,
                pb > 0,
        ;
    }
}

/// Halving an all-even model keeps the density matrix.
pub proof fn lemma_halve_same(m: Density)
    requires
        m.scale > 0,
        all_even(m),
    ensures
        same_state(halve(m), m),
{
    let h = halve(m);
    lemma_pow2_unfold(m.scale);
    assert forall|i: int, j: int, t: int|
        0 <= i < h.cells.len() && 0 <= j < h.cells.len() && 0 <= t < COEFFS implies #[trigger] h.cells[i][j][t]
        * pow2(m.scale) == #[trigger] m.cells[i][j][t]
        * pow2(h.scale) by {
        let c = m.cells[i][j][t];
        let p = pow2(h.scale);
        assert(c % 2 == 0);
        assert((c / 2) * (2 * p) == c * p) by (nonlinear_arith)
            requires
                c % 2 == 0,
        ;
    }
}

} // verus!

//! Laws of the simulation, proved over the model.
use vstd::prelude::*;
use vstd::arithmetic::power2::{lemma_pow2_unfold, pow2};
use crate::bits::{lemma_dim, lemma_flip, lemma_low};
use crate::measure::{basis_change, lemma_basis_change, rotated, Basis};
use crate::gate::lemma_source;
use crate::transform::{
    all_fit, inverse_circuit, inverse_gate, qft_circuit, qft_layers, qft_swaps, qft_turns,
    rotation_block,
};
use crate::trace::{lemma_step_trace, unit_trace};
use crate::model::{
    bit, density_wf, dim_of, flip, gate_fits, ground, hadamard, hadamard_coef, lemma_cells_ext,
    lemma_same_state_refl, lemma_same_state_trans, monomial, rot_coef, run, same_state, signed,
    source_index, step, weight, COEFFS, Density, Gate, MAX_QUBITS,
};

verus! {

/// Measuring in the Z basis rotates nothing.
proof fn lemma_basis_z(n: nat)
    ensures
        basis_change(Basis::Z, n) == Seq::<Gate>::empty(),
    decreases n,
{
    if n > 0 {
        lemma_basis_z((n - 1) as nat);
    }
}

/// A new register, measured in the Z basis, gives outcome 0 with
/// probability 1 and every other outcome with probability 0.
pub proof fn ground_measures_zero(n: nat)
    requires
        1 <= n <= MAX_QUBITS,
    ensures
        rotated(ground(n), Basis::Z).scale == 0,
        forall|i: int, t: int|
            0 <= i < dim_of(n) && 0 <= t < COEFFS ==> #[trigger] rotated(ground(n), Basis::Z).cells[i][i][t]
                == if i == 0 && t == 0 {
                1int
            } else {
                0int
            },
{
    lemma_basis_z(n);
    assert(rotated(ground(n), Basis::Z) == ground(n));
}

/// Rotating by `z^0` changes nothing.
proof fn lemma_rot_zero(c: Seq<int>, t: int)
    requires
        0 <= t < COEFFS,
    ensures
        rot_coef(c, 0, t) == c[t],
{
}

/// Pauli X applied twice to the same qubit leaves the register as it was.
pub proof fn pauli_x_involution(m: Density, q: usize)
    requires
        density_wf(m),
        q < m.qubits,
    ensures
        step(step(m, Gate::PauliX { qubit: q }), Gate::PauliX { qubit: q }) == m,
{
    let g = Gate::PauliX { qubit: q };
    let n = m.qubits as usize;
    lemma_dim(n);
    let once = monomial(m, g);
    let twice = monomial(once, g);
    let d = m.cells.len();
    assert forall|i: int, j: int, t: int|
        0 <= i < d && 0 <= j < d && 0 <= t < COEFFS implies #[trigger] twice.cells[i][j][t]
        == m.cells[i][j][t] by {
        lemma_flip(i as usize, q, n);
        lemma_flip(j as usize, q, n);
        let fi = flip(i as usize, q) as int;
        let fj = flip(j as usize, q) as int;
        lemma_rot_zero(once.cells[fi][fj], t);
        lemma_rot_zero(m.cells[i][j], t);
    }
    lemma_cells_ext(twice.cells, m.cells);
}

/// A Hadamard applied twice multiplies every stored coefficient by 4.
proof fn lemma_hadamard_twice(m: Density, q: usize, i: int, j: int, t: int)
    requires
        density_wf(m),
        q < m.qubits,
        0 <= i < m.cells.len(),
        0 <= j < m.cells.len(),
        0 <= t < COEFFS,
    ensures
        hadamard(hadamard(m, q), q).cells[i][j][t] == 4 * m.cells[i][j][t],
{
    let n = m.qubits as usize;
    lemma_dim(n);
    let h = hadamard(m, q);
    let (iu, ju) = (i as usize, j as usize);
    lemma_flip(iu, q, n);
    lemma_flip(ju, q, n);
    let fi = flip(iu, q);
    let fj = flip(ju, q);
    assert(h.cells[i][j][t] == hadamard_coef(m, q, iu, ju, t));
    assert(h.cells[i][fj as int][t] == hadamard_coef(m, q, iu, fj, t));
    assert(h.cells[fi as int][j][t] == hadamard_coef(m, q, fi, ju, t));
    assert(h.cells[fi as int][fj as int][t] == hadamard_coef(m, q, fi, fj, t));
}

/// A Hadamard applied twice to the same qubit gives back the register: the
/// same density matrix, stored at a scale larger by two.
pub proof fn hadamard_self_inverse(m: Density, q: usize)
    requires
        density_wf(m),
        q < m.qubits,
    ensures
        same_state(step(step(m, Gate::Hadamard { qubit: q }), Gate::Hadamard { qubit: q }), m),
{
    let hh = hadamard(hadamard(m, q), q);
    lemma_pow2_unfold(m.scale + 2);
    lemma_pow2_unfold(m.scale + 1);
    assert(pow2(m.scale + 2) == 4 * pow2(m.scale));
    assert forall|i: int, j: int, t: int|
        0 <= i < hh.cells.len() && 0 <= j < hh.cells.len() && 0 <= t < COEFFS implies #[trigger] hh.cells[i][j][t]
        * pow2(m.scale) == #[trigger] m.cells[i][j][t] * pow2(hh.scale) by {
        lemma_hadamard_twice(m, q, i, j, t);
        let c = m.cells[i][j][t];
        let p = pow2(m.scale);
        assert((4 * c) * p == c * (4 * p)) by (nonlinear_arith);
    }
}

/// A gate that names qubits of the register keeps the model well formed.
proof fn lemma_step_wf(m: Density, g: Gate)
    requires
        density_wf(m),
    ensures
        density_wf(step(m, g)),
        step(m, g).qubits == m.qubits,
{
}

/// Running `a` and then `b` is running `a + b`.
proof fn lemma_run_concat(m: Density, a: Seq<Gate>, b: Seq<Gate>)
    ensures
        run(m, a + b) == run(run(m, a), b),
    decreases b.len(),
{
    if b.len() == 0 {
        assert(a + b =~= a);
    } else {
        assert((a + b).drop_last() =~= a + b.drop_last());
        assert((a + b).last() == b.last());
        lemma_run_concat(m, a, b.drop_last());
    }
}

proof fn lemma_run_wf(m: Density, gs: Seq<Gate>)
    requires
        density_wf(m),
    ensures
        density_wf(run(m, gs)),
        run(m, gs).qubits == m.qubits,
    decreases gs.len(),
{
    if gs.len() > 0 {
        lemma_run_wf(m, gs.drop_last());
        lemma_step_wf(run(m, gs.drop_last()), gs.last());
    }
}

/// Turning by `z^e1` and then by `z^e2` is turning by `z^(e1 + e2)`.
proof fn lemma_rot_compose(c: Seq<int>, e1: int, e2: int, t: int)
    requires
        0 <= t < COEFFS,
    ensures
        rot_coef(Seq::new(COEFFS as nat, |u: int| rot_coef(c, e1, u)), e2, t) == rot_coef(
            c,
            e1 + e2,
            t,
        ),
{
    let u = (t - e2) % 32;
    let v = (u - e1) % 32;
    assert((t - (e1 + e2)) % 32 == v);
    if u >= 16 {
        assert((u - 16 - e1) % 32 == (v + 16) % 32);
    }
}

/// Turning by a whole number of turns changes nothing.
proof fn lemma_rot_whole(c: Seq<int>, e: int, t: int)
    requires
        0 <= t < COEFFS,
        e % 32 == 0,
    ensures
        rot_coef(c, e, t) == c[t],
{
    assert((t - e) % 32 == t);
}

/// A gate other than Hadamard and its inverse turn each entry by powers of
/// `z` that add up to whole turns.
proof fn lemma_weight_inverse(g: Gate, i: usize, j: usize, n: usize)
    requires
        gate_fits(g, n as nat),
        n <= MAX_QUBITS,
        i < (1usize << n),
        j < (1usize << n),
    ensures
        ((weight(g, source_index(g, i)) - weight(g, source_index(g, j))) + (weight(
            inverse_gate(g),
            i,
        ) - weight(inverse_gate(g), j))) % 32 == 0,
{
    match g {
        Gate::PauliY { qubit } => {
            lemma_flip(i, qubit, n);
            lemma_flip(j, qubit, n);
        },
        _ => {},
    }
}

/// A gate other than Hadamard followed by its inverse leaves the model as
/// it was.
proof fn lemma_monomial_inverse(m: Density, g: Gate)
    requires
        density_wf(m),
        gate_fits(g, m.qubits),
        !(g is Hadamard),
    ensures
        monomial(monomial(m, g), inverse_gate(g)) == m,
{
    let n = m.qubits as usize;
    lemma_dim(n);
    let g2 = inverse_gate(g);
    let once = monomial(m, g);
    let twice = monomial(once, g2);
    let d = m.cells.len();
    assert forall|i: int, j: int, t: int|
        0 <= i < d && 0 <= j < d && 0 <= t < COEFFS implies #[trigger] twice.cells[i][j][t]
        == m.cells[i][j][t] by {
        let (iu, ju) = (i as usize, j as usize);
        lemma_source(g, iu, n);
        lemma_source(g, ju, n);
        let si = source_index(g, iu);
        let sj = source_index(g, ju);
        assert(source_index(g2, iu) == si);
        assert(source_index(g2, ju) == sj);
        let e1 = weight(g, si) - weight(g, sj);
        let e2 = weight(g2, iu) - weight(g2, ju);
        assert(once.cells[si as int][sj as int] =~= Seq::new(
            COEFFS as nat,
            |u: int| rot_coef(m.cells[i][j], e1, u),
        ));
        lemma_rot_compose(m.cells[i][j], e1, e2, t);
        lemma_weight_inverse(g, iu, ju, n);
        lemma_rot_whole(m.cells[i][j], e1 + e2, t);
    }
    lemma_cells_ext(twice.cells, m.cells);
}

proof fn lemma_rot_scaled(xc: Seq<int>, yc: Seq<int>, e: int, t: int, px: int, py: int)
    requires
        0 <= t < COEFFS,
        forall|u: int| 0 <= u < COEFFS ==> #[trigger] xc[u] * py == yc[u] * px,
    ensures
        rot_coef(xc, e, t) * py == rot_coef(yc, e, t) * px,
{
    let u = (t - e) % 32;
    if u >= 16 {
        let (a, b) = (xc[u - 16], yc[u - 16]);
        assert(a * py == b * px);
        assert((-a) * py == (-b) * px) by (nonlinear_arith)
            requires
                a * py == b * px,
        ;
    } else {
        assert(xc[u] * py == yc[u] * px);
    }
}

proof fn lemma_signed_scaled(neg: bool, x: int, y: int, p: int, q: int)
    requires
        x * p == y * q,
    ensures
        signed(neg, x) * p == signed(neg, y) * q,
{
    if neg {
        assert((-x) * p == (-y) * q) by (nonlinear_arith)
            requires
                x * p == y * q,
        ;
    }
}

/// A gate maps models of the same density matrix to models of the same
/// density matrix.
proof fn lemma_step_respects(x: Density, y: Density, g: Gate)
    requires
        density_wf(x),
        density_wf(y),
        gate_fits(g, x.qubits),
        same_state(x, y),
    ensures
        same_state(step(x, g), step(y, g)),
{
    let n = x.qubits as usize;
    lemma_dim(n);
    let (px, py) = (pow2(x.scale) as int, pow2(y.scale) as int);
    let (sx, sy) = (step(x, g), step(y, g));
    let d = x.cells.len();
    match g {
        Gate::Hadamard { qubit } => {
            let q = qubit;
            lemma_pow2_unfold(x.scale + 1);
            lemma_pow2_unfold(y.scale + 1);
            assert forall|i: int, j: int, t: int|
                0 <= i < d && 0 <= j < d && 0 <= t < COEFFS implies #[trigger] sx.cells[i][j][t]
                * pow2(sy.scale) == #[trigger] sy.cells[i][j][t] * pow2(sx.scale) by {
                let (iu, ju) = (i as usize, j as usize);
                lemma_flip(iu, q, n);
                lemma_flip(ju, q, n);
                let fi = flip(iu, q) as int;
                let fj = flip(ju, q) as int;
                let (x1, x2, x3, x4) = (x.cells[i][j][t], x.cells[i][fj][t], x.cells[fi][j][t], x.cells[fi][fj][t]);
                let (y1, y2, y3, y4) = (y.cells[i][j][t], y.cells[i][fj][t], y.cells[fi][j][t], y.cells[fi][fj][t]);
                assert(x1 * py == y1 * px);
                assert(x2 * py == y2 * px);
                assert(x3 * py == y3 * px);
                assert(x4 * py == y4 * px);
                let (bi, bj) = (bit(iu, q), bit(ju, q));
                lemma_signed_scaled(bi != bj, x1, y1, py, px);
                lemma_signed_scaled(bi, x2, y2, py, px);
                lemma_signed_scaled(bj, x3, y3, py, px);
                let (a1, a2, a3) = (signed(bi != bj, x1), signed(bi, x2), signed(bj, x3));
                let (b1, b2, b3) = (signed(bi != bj, y1), signed(bi, y2), signed(bj, y3));
                assert(sx.cells[i][j][t] == a1 + a2 + a3 + x4);
                assert(sy.cells[i][j][t] == b1 + b2 + b3 + y4);
                let (sa, sb) = (a1 + a2 + a3 + x4, b1 + b2 + b3 + y4);
                assert(sa * py == a1 * py + a2 * py + a3 * py + x4 * py) by (nonlinear_arith)
                    requires
                        sa == a1 + a2 + a3 + x4,
                ;
                assert(sb * px == b1 * px + b2 * px + b3 * px + y4 * px) by (nonlinear_arith)
                    requires
                        sb == b1 + b2 + b3 + y4,
                ;
                assert(sa * (2 * py) == 2 * (sa * py)) by (nonlinear_arith);
                assert(sb * (2 * px) == 2 * (sb * px)) by (nonlinear_arith);
            }
        },
        _ => {
            assert forall|i: int, j: int, t: int|
                0 <= i < d && 0 <= j < d && 0 <= t < COEFFS implies #[trigger] sx.cells[i][j][t]
                * pow2(sy.scale) == #[trigger] sy.cells[i][j][t] * pow2(sx.scale) by {
                let (iu, ju) = (i as usize, j as usize);
                lemma_source(g, iu, n);
                lemma_source(g, ju, n);
                let si = source_index(g, iu) as int;
                let sj = source_index(g, ju) as int;
                let (xc, yc) = (x.cells[si][sj], y.cells[si][sj]);
                assert forall|u: int| 0 <= u < COEFFS implies #[trigger] xc[u] * py == yc[u] * px by {
                    assert(x.cells[si][sj][u] * py == y.cells[si][sj][u] * px);
                }
                lemma_rot_scaled(xc, yc, weight(g, iu) - weight(g, ju), t, px, py);
            }
        },
    }
}

/// A run of gates maps models of the same density matrix to models of the
/// same density matrix.
proof fn lemma_run_respects(x: Density, y: Density, gs: Seq<Gate>)
    requires
        density_wf(x),
        density_wf(y),
        all_fit(gs, x.qubits),
        same_state(x, y),
    ensures
        same_state(run(x, gs), run(y, gs)),
    decreases gs.len(),
{
    if gs.len() > 0 {
        let rest = gs.drop_last();
        assert(all_fit(rest, x.qubits)) by {
            assert forall|k: int| 0 <= k < rest.len() implies gate_fits(#[trigger] rest[k], x.qubits) by {
                assert(gate_fits(gs[k], x.qubits));
            }
        }
        assert(gate_fits(gs[gs.len() - 1], x.qubits));
        lemma_run_respects(x, y, rest);
        lemma_run_wf(x, rest);
        lemma_run_wf(y, rest);
        lemma_step_respects(run(x, rest), run(y, rest), gs.last());
    }
}

proof fn lemma_fit_drop_last(gs: Seq<Gate>, n: nat)
    requires
        gs.len() > 0,
        all_fit(gs, n),
    ensures
        all_fit(gs.drop_last(), n),
        gate_fits(gs.last(), n),
{
    assert(gate_fits(gs[gs.len() - 1], n));
    assert forall|k: int| 0 <= k < gs.len() - 1 implies gate_fits(#[trigger] gs.drop_last()[k], n) by {
        assert(gate_fits(gs[k], n));
    }
}

proof fn lemma_fit_concat(a: Seq<Gate>, b: Seq<Gate>, n: nat)
    requires
        all_fit(a, n),
        all_fit(b, n),
    ensures
        all_fit(a + b, n),
{
    assert forall|k: int| 0 <= k < (a + b).len() implies gate_fits(#[trigger] (a + b)[k], n) by {
        if k < a.len() {
            assert(gate_fits(a[k], n));
        } else {
            assert(gate_fits(b[k - a.len()], n));
        }
    }
}

proof fn lemma_fit_inverse(gs: Seq<Gate>, n: nat)
    requires
        all_fit(gs, n),
    ensures
        all_fit(inverse_circuit(gs), n),
    decreases gs.len(),
{
    if gs.len() > 0 {
        lemma_fit_drop_last(gs, n);
        lemma_fit_inverse(gs.drop_last(), n);
        let head = seq![inverse_gate(gs.last())];
        assert(gate_fits(head[0], n));
        lemma_fit_concat(head, inverse_circuit(gs.drop_last()), n);
    }
}

/// Running any circuit whose gates name qubits of the register, and then
/// its inverse circuit, gives back the register.
pub proof fn circuit_round_trip(m: Density, gs: Seq<Gate>)
    requires
        density_wf(m),
        all_fit(gs, m.qubits),
    ensures
        same_state(run(run(m, gs), inverse_circuit(gs)), m),
    decreases gs.len(),
{
    if gs.len() == 0 {
        lemma_same_state_refl(m);
    } else {
        let rest = gs.drop_last();
        let g = gs.last();
        let g2 = inverse_gate(g);
        let inv_rest = inverse_circuit(rest);
        lemma_fit_drop_last(gs, m.qubits);
        lemma_fit_inverse(rest, m.qubits);
        let y = run(m, rest);
        lemma_run_wf(m, rest);
        // the inverse of the last gate comes first
        lemma_run_concat(run(m, gs), seq![g2], inv_rest);
        assert(seq![g2].drop_last() =~= Seq::<Gate>::empty());
        assert(seq![g2].last() == g2);
        assert(run(m, gs) == step(y, g));
        assert(run(run(m, gs), Seq::<Gate>::empty()) == run(m, gs));
        assert(run(run(m, gs), seq![g2]) == step(step(y, g), g2));
        let back = step(step(y, g), g2);
        lemma_step_wf(y, g);
        lemma_step_wf(step(y, g), g2);
        match g {
            Gate::Hadamard { qubit } => {
                hadamard_self_inverse(y, qubit);
            },
            _ => {
                lemma_monomial_inverse(y, g);
                lemma_same_state_refl(y);
            },
        }
        lemma_run_respects(back, y, inv_rest);
        circuit_round_trip(m, rest);
        lemma_same_state_trans(run(back, inv_rest), run(y, inv_rest), m);
    }
}

proof fn lemma_push_fit(gs: Seq<Gate>, g: Gate, n: nat)
    requires
        all_fit(gs, n),
        gate_fits(g, n),
    ensures
        all_fit(gs.push(g), n),
{
    assert forall|k: int| 0 <= k < gs.len() + 1 implies gate_fits(#[trigger] gs.push(g)[k], n) by {
        if k < gs.len() {
            assert(gate_fits(gs[k], n));
        }
    }
}

proof fn lemma_rotation_block_fit(i: usize, e: usize, n: nat)
    requires
        i < n,
        e <= n,
    ensures
        all_fit(rotation_block(i, e), n),
    decreases e,
{
    if e > i + 1 {
        lemma_rotation_block_fit(i, (e - 1) as usize, n);
        lemma_push_fit(
            rotation_block(i, (e - 1) as usize),
            Gate::ControlledPhase {
                control: (e - 1) as usize,
                target: i,
                turns: qft_turns((e - 1 - i) as usize),
            },
            n,
        );
    }
}

proof fn lemma_layers_fit(start: usize, k: usize, end: usize, n: nat)
    requires
        k <= end,
        end <= n,
    ensures
        all_fit(qft_layers(start, k, end), n),
    decreases k,
{
    if k > start {
        let i = (k - 1) as usize;
        lemma_layers_fit(start, i, end, n);
        lemma_push_fit(qft_layers(start, i, end), Gate::Hadamard { qubit: i }, n);
        lemma_rotation_block_fit(i, end, n);
        lemma_fit_concat(
            qft_layers(start, i, end).push(Gate::Hadamard { qubit: i }),
            rotation_block(i, end),
            n,
        );
    }
}

proof fn lemma_swaps_fit(start: usize, end: usize, k: usize, n: nat)
    requires
        start <= end,
        end <= n,
        k <= (end - start) / 2,
    ensures
        all_fit(qft_swaps(start, end, k), n),
    decreases k,
{
    if k > 0 {
        lemma_swaps_fit(start, end, (k - 1) as usize, n);
        lemma_push_fit(
            qft_swaps(start, end, (k - 1) as usize),
            Gate::Swap { first: (start + k - 1) as usize, second: (end - k) as usize },
            n,
        );
    }
}

/// Every gate of the quantum Fourier transform on `start .. end` names a
/// qubit below `end`.
pub proof fn qft_fits(start: usize, end: usize, n: nat)
    requires
        start <= end <= n,
    ensures
        all_fit(qft_circuit(start, end), n),
{
    lemma_layers_fit(start, end, end, n);
    lemma_swaps_fit(start, end, ((end - start) / 2) as usize, n);
    lemma_fit_concat(qft_layers(start, end, end), qft_swaps(start, end, ((end - start) / 2) as usize), n);
}

/// The quantum Fourier transform on `start .. end` followed by its inverse
/// gives back the register.
pub proof fn qft_round_trip(m: Density, start: usize, end: usize)
    requires
        density_wf(m),
        start <= end <= m.qubits,
    ensures
        same_state(run(run(m, qft_circuit(start, end)), inverse_circuit(qft_circuit(start, end))), m),
{
    qft_fits(start, end, m.qubits);
    circuit_round_trip(m, qft_circuit(start, end));
}

/// A run of gates that name qubits of the register keeps the trace at 1.
pub proof fn run_keeps_unit_trace(m: Density, gs: Seq<Gate>)
    requires
        density_wf(m),
        all_fit(gs, m.qubits),
        unit_trace(m),
    ensures
        unit_trace(run(m, gs)),
    decreases gs.len(),
{
    if gs.len() > 0 {
        lemma_fit_drop_last(gs, m.qubits);
        run_keeps_unit_trace(m, gs.drop_last());
        lemma_run_wf(m, gs.drop_last());
        lemma_step_trace(run(m, gs.drop_last()), gs.last());
    }
}

/// For every register (every one has trace 1) and every basis, the
/// measured outcome probabilities add up to exactly 1.
pub proof fn probabilities_sum_to_one(m: Density, b: Basis)
    requires
        density_wf(m),
        unit_trace(m),
    ensures
        unit_trace(rotated(m, b)),
{
    assert(all_fit(basis_change(b, m.qubits), m.qubits)) by {
        assert forall|k: int| 0 <= k < basis_change(b, m.qubits).len() implies gate_fits(
            #[trigger] basis_change(b, m.qubits)[k],
            m.qubits,
        ) by {
            lemma_basis_change(b, m.qubits, k);
        }
    }
    run_keeps_unit_trace(m, basis_change(b, m.qubits));
}

/// After a Hadamard on each of the qubits `0 .. k` of a new register, entry
/// `(i, j)` is `1 / 2^k` where `i` and `j` have no qubit from `k` up set,
/// and 0 elsewhere.
proof fn lemma_hadamard_layers(n: nat, k: nat)
    requires
        1 <= n <= MAX_QUBITS,
        k <= n,
    ensures
        density_wf(run(ground(n), basis_change(Basis::X, k))),
        run(ground(n), basis_change(Basis::X, k)).qubits == n,
        run(ground(n), basis_change(Basis::X, k)).scale == k,
        forall|i: int, j: int, t: int|
            0 <= i < dim_of(n) && 0 <= j < dim_of(n) && 0 <= t < COEFFS ==> #[trigger] run(
                ground(n),
                basis_change(Basis::X, k),
            ).cells[i][j][t] == if t == 0 && (i as usize) >> (k as usize) == 0 && (j as usize) >> (
            k as usize) == 0 {
                1int
            } else {
                0int
            },
    decreases k,
{
    let nn = n as usize;
    lemma_dim(nn);
    if k == 0 {
        assert(basis_change(Basis::X, 0) =~= Seq::<Gate>::empty());
        assert forall|i: int, j: int, t: int|
            0 <= i < dim_of(n) && 0 <= j < dim_of(n) && 0 <= t < COEFFS implies #[trigger] ground(n).cells[i][j][t]
            == if t == 0 && (i as usize) >> 0usize == 0 && (j as usize) >> 0usize == 0 {
            1int
        } else {
            0int
        } by {
            lemma_low(i as usize, 0);
            lemma_low(j as usize, 0);
        }
    } else {
        let q = (k - 1) as usize;
        lemma_hadamard_layers(n, (k - 1) as nat);
        let prev = run(ground(n), basis_change(Basis::X, (k - 1) as nat));
        assert(basis_change(Basis::X, k) == basis_change(Basis::X, (k - 1) as nat).push(
            Gate::Hadamard { qubit: q },
        ));
        assert(basis_change(Basis::X, k).drop_last() =~= basis_change(Basis::X, (k - 1) as nat));
        assert(run(ground(n), basis_change(Basis::X, k)) == hadamard(prev, q));
        let cur = hadamard(prev, q);
        assert forall|i: int, j: int, t: int|
            0 <= i < dim_of(n) && 0 <= j < dim_of(n) && 0 <= t < COEFFS implies #[trigger] cur.cells[i][j][t]
            == if t == 0 && (i as usize) >> (k as usize) == 0 && (j as usize) >> (k as usize) == 0 {
            1int
        } else {
            0int
        } by {
            let (iu, ju) = (i as usize, j as usize);
            lemma_flip(iu, q, nn);
            lemma_flip(ju, q, nn);
            lemma_low(iu, q);
            lemma_low(ju, q);
            let fi = flip(iu, q);
            let fj = flip(ju, q);
            assert(cur.cells[i][j][t] == hadamard_coef(prev, q, iu, ju, t));
            assert(prev.cells[i][j][t] == if t == 0 && iu >> q == 0 && ju >> q == 0 { 1int } else { 0int });
            assert(prev.cells[i][fj as int][t] == if t == 0 && iu >> q == 0 && fj >> q == 0 { 1int } else { 0int });
            assert(prev.cells[fi as int][j][t] == if t == 0 && fi >> q == 0 && ju >> q == 0 { 1int } else { 0int });
            assert(prev.cells[fi as int][fj as int][t] == if t == 0 && fi >> q == 0 && fj >> q == 0 { 1int } else { 0int });
        }
    }
}

/// A Hadamard on every qubit of a new register of `n` qubits gives the
/// equal superposition: measured in the Z basis, every one of the `2^n`
/// outcomes has probability exactly `1 / 2^n`, so the outcome distribution
/// is uniform and its entropy is `n` bits.
pub proof fn uniform_superposition(n: nat)
    requires
        1 <= n <= MAX_QUBITS,
    ensures
        run(ground(n), basis_change(Basis::X, n)).scale == n,
        forall|i: int, t: int|
            0 <= i < dim_of(n) && 0 <= t < COEFFS ==> #[trigger] run(
                ground(n),
                basis_change(Basis::X, n),
            ).cells[i][i][t] == if t == 0 {
                1int
            } else {
                0int
            },
{
    lemma_hadamard_layers(n, n);
    let nn = n as usize;
    lemma_dim(nn);
    let u = run(ground(n), basis_change(Basis::X, n));
    assert forall|i: int, t: int| 0 <= i < dim_of(n) && 0 <= t < COEFFS implies #[trigger] u.cells[i][i][t]
        == if t == 0 {
        1int
    } else {
        0int
    } by {
        let iu = i as usize;
        assert(iu < (1usize << nn) && nn <= 6 ==> iu >> nn == 0usize) by (bit_vector);
    }
}

} // verus!

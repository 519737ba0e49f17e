//! Hermitian consistency: entry `(j, i)` is the complex conjugate of entry
//! `(i, j)`.
use vstd::prelude::*;
use crate::bits::{lemma_dim, lemma_flip};
use crate::gate::lemma_source;
use crate::model::{
    all_even, density_wf, flip, gate_fits, ground, hadamard_coef, halve, rot_coef, source_index,
    step, weight, Density, Gate, COEFFS, MAX_QUBITS,
};

verus! {

/// Coefficient `t` of the complex conjugate of the amplitude `c`: the
/// conjugate of `z^t` is `z^(32 - t) = -z^(16 - t)`.
pub open spec fn conj_coef(c: Seq<int>, t: int) -> int {
    if t == 0 {
        c[0]
    } else {
        -c[COEFFS - t]
    }
}

/// The density matrix equals its conjugate transpose.
pub open spec fn hermitian(m: Density) -> bool {
    forall|i: int, j: int, t: int|
        0 <= i < m.cells.len() && 0 <= j < m.cells.len() && 0 <= t < COEFFS ==> #[trigger] m.cells[j][i][t]
            == conj_coef(m.cells[i][j], t)
}

/// A new register is Hermitian.
pub proof fn lemma_ground_hermitian(n: nat)
    requires
        1 <= n <= MAX_QUBITS,
    ensures
        hermitian(ground(n)),
{
}

/// Conjugating `z^e c` is turning the conjugate of `c` by `z^-e`.
proof fn lemma_conj_rot(c: Seq<int>, d: Seq<int>, e: int, t: int)
    requires
        0 <= t < COEFFS,
        c.len() == COEFFS,
        forall|u: int| 0 <= u < COEFFS ==> #[trigger] d[u] == conj_coef(c, u),
    ensures
        rot_coef(d, -e, t) == conj_coef(Seq::new(COEFFS as nat, |u: int| rot_coef(c, e, u)), t),
{
}

/// Every gate keeps the register Hermitian.
pub proof fn lemma_step_hermitian(m: Density, g: Gate)
    requires
        density_wf(m),
        gate_fits(g, m.qubits),
        hermitian(m),
    ensures
        hermitian(step(m, g)),
{
    let n = m.qubits as usize;
    lemma_dim(n);
    let s = step(m, g);
    let d = m.cells.len();
    match g {
        Gate::Hadamard { qubit } => {
            let q = qubit;
            assert forall|i: int, j: int, t: int|
                0 <= i < d && 0 <= j < d && 0 <= t < COEFFS implies #[trigger] s.cells[j][i][t]
                == conj_coef(s.cells[i][j], t) by {
                let (iu, ju) = (i as usize, j as usize);
                lemma_flip(iu, q, n);
                lemma_flip(ju, q, n);
                let fi = flip(iu, q) as int;
                let fj = flip(ju, q) as int;
                let tt = if t == 0 { 0 } else { COEFFS - t };
                assert(s.cells[j][i][t] == hadamard_coef(m, q, ju, iu, t));
                assert(s.cells[i][j][tt] == hadamard_coef(m, q, iu, ju, tt));
                assert(m.cells[j][i][t] == conj_coef(m.cells[i][j], t));
                assert(m.cells[j][fi][t] == conj_coef(m.cells[fi][j], t));
                assert(m.cells[fj][i][t] == conj_coef(m.cells[i][fj], t));
                assert(m.cells[fj][fi][t] == conj_coef(m.cells[fi][fj], t));
            }
        },
        _ => {
            assert forall|i: int, j: int, t: int|
                0 <= i < d && 0 <= j < d && 0 <= t < COEFFS implies #[trigger] s.cells[j][i][t]
                == conj_coef(s.cells[i][j], t) by {
                let (iu, ju) = (i as usize, j as usize);
                lemma_source(g, iu, n);
                lemma_source(g, ju, n);
                let si = source_index(g, iu) as int;
                let sj = source_index(g, ju) as int;
                let e = weight(g, iu) - weight(g, ju);
                assert forall|u: int| 0 <= u < COEFFS implies #[trigger] m.cells[sj][si][u]
                    == conj_coef(m.cells[si][sj], u) by {}
                lemma_conj_rot(m.cells[si][sj], m.cells[sj][si], e, t);
                assert(s.cells[i][j] =~= Seq::new(COEFFS as nat, |u: int| rot_coef(m.cells[si][sj], e, u)));
            }
        },
    }
}

/// Halving an all-even register keeps it Hermitian.
pub proof fn lemma_halve_hermitian(m: Density)
    requires
        density_wf(m),
        hermitian(m),
        all_even(m),
    ensures
        hermitian(halve(m)),
{
    let h = halve(m);
    assert forall|i: int, j: int, t: int|
        0 <= i < h.cells.len() && 0 <= j < h.cells.len() && 0 <= t < COEFFS implies #[trigger] h.cells[j][i][t]
        == conj_coef(h.cells[i][j], t) by {
        assert(m.cells[j][i][t] == conj_coef(m.cells[i][j], t));
        if t > 0 {
            assert(m.cells[i][j][COEFFS - t] % 2 == 0);
        }
    }
}

} // verus!

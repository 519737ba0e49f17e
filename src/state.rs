//! The register: its storage, its creation and the gates applied to it.
use vstd::prelude::*;
use crate::bits::{lemma_dim, lemma_flip};
use crate::error::QuantumError;
use crate::gate::{bit_of, flip_of, lemma_source, source_of, weight_of};
use crate::model::{
    all_even, arity, bit, density_wf, dim_of, fits, flip, gate_applied, gate_fits, gate_from,
    gate_in_range, ground, hadamard, hadamard_coef, halve, lemma_cells_ext, lemma_halve_same,
    lemma_run_fits_prefix, lemma_run_next, lemma_same_state_refl, lemma_same_state_trans, monomial,
    rot_coef, run, run_fits, same_state, source_index, step, weight, COEFFS, Density, Gate,
    GateKind, MAX_QUBITS, PHASE_STEPS,
};
use crate::hermitian::{
    hermitian, lemma_ground_hermitian, lemma_halve_hermitian, lemma_step_hermitian,
};
use crate::trace::{lemma_ground_trace, lemma_halve_trace, lemma_step_trace, unit_trace};

verus! {

/// A register of qubits, held as an exact density matrix (see `Density`).
pub struct QuantumState {
    num_qubits: usize,
    dim: usize,
    scale: u32,
    data: Vec<Vec<Vec<i64>>>,
}

/// The coefficients of one stored amplitude, as integers.
pub open spec fn cell_view(c: Vec<i64>) -> Seq<int> {
    c@.map_values(|x: i64| x as int)
}

impl View for QuantumState {
    type V = Density;

    closed spec fn view(&self) -> Density {
        Density {
            qubits: self.num_qubits as nat,
            scale: self.scale as nat,
            cells: self.data@.map_values(
                |row: Vec<Vec<i64>>| row@.map_values(|c: Vec<i64>| cell_view(c)),
            ),
        }
    }
}

/// A stored amplitude of `COEFFS` coefficients, none of them `i64::MIN`.
pub open spec fn cell_ok(c: Vec<i64>) -> bool {
    &&& c.len() == COEFFS
    &&& forall|t: int| 0 <= t < COEFFS ==> #[trigger] c@[t] != i64::MIN
}

/// `z^(wi - wj)` times the amplitude `c`.
fn rotate_cell(c: &Vec<i64>, wi: usize, wj: usize) -> (r: Vec<i64>)
    requires
        cell_ok(*c),
        wi < PHASE_STEPS,
        wj < PHASE_STEPS,
    ensures
        cell_ok(r),
        forall|t: int|
            0 <= t < COEFFS ==> #[trigger] r@[t] as int == rot_coef(cell_view(*c), wi - wj, t),
{
    let mut r: Vec<i64> = Vec::new();
    let mut t: usize = 0;
    while t < COEFFS
        invariant
            t <= COEFFS,
            r.len() == t,
            cell_ok(*c),
            wi < PHASE_STEPS,
            wj < PHASE_STEPS,
            forall|s: int| 0 <= s < t ==> #[trigger] r@[s] != i64::MIN,
            forall|s: int|
                0 <= s < t ==> #[trigger] r@[s] as int == rot_coef(cell_view(*c), wi - wj, s),
        decreases COEFFS - t,
    {
        let u: usize = (t + PHASE_STEPS + wj - wi) % PHASE_STEPS;
        assert(u as int == (t - (wi - wj)) % (PHASE_STEPS as int));
        let x: i64 = if u < COEFFS {
            c[u]
        } else {
            -c[u - COEFFS]
        };
        r.push(x);
        t = t + 1;
    }
    r
}

/// Whether gate `g` can act on a register of `n` qubits, and if not, why.
fn check_gate(g: Gate, n: usize) -> (r: Result<(), QuantumError>)
    ensures
        r is Ok <==> gate_fits(g, n as nat),
        !gate_in_range(g, n as nat) ==> r == Err::<(), QuantumError>(
            QuantumError::QubitIndexOutOfRange,
        ),
        gate_in_range(g, n as nat) && !gate_fits(g, n as nat) ==> r == Err::<(), QuantumError>(
            QuantumError::DimensionMismatch,
        ),
{
    let (a, b) = match g {
        Gate::Hadamard { qubit } => (qubit, None),
        Gate::PauliX { qubit } => (qubit, None),
        Gate::PauliY { qubit } => (qubit, None),
        Gate::PauliZ { qubit } => (qubit, None),
        Gate::Phase { qubit, turns } => (qubit, None),
        Gate::Cnot { control, target } => (control, Some(target)),
        Gate::Swap { first, second } => (first, Some(second)),
        Gate::ControlledPhase { control, target, turns } => (control, Some(target)),
    };
    if a >= n {
        return Err(QuantumError::QubitIndexOutOfRange);
    }
    match b {
        Some(b) => {
            if b >= n {
                Err(QuantumError::QubitIndexOutOfRange)
            } else if a == b {
                Err(QuantumError::DimensionMismatch)
            } else {
                Ok(())
            }
        },
        None => Ok(()),
    }
}

impl QuantumState {
    /// The stored register is well formed: its matrix has side
    /// `2^num_qubits`, each amplitude has `COEFFS` coefficients, and no
    /// coefficient is `i64::MIN`, so that every one can be negated.
    pub closed spec fn wf(&self) -> bool {
        &&& self.shape()
        &&& unit_trace(self@)
        &&& hermitian(self@)
    }

    /// The sizes and coefficient bounds of a well formed register.
    closed spec fn shape(&self) -> bool {
        &&& 1 <= self.num_qubits <= MAX_QUBITS
        &&& self.dim == (1usize << self.num_qubits)
        &&& self.data.len() == self.dim
        &&& forall|i: int| 0 <= i < self.dim ==> #[trigger] self.data@[i].len() == self.dim
        &&& forall|i: int, j: int|
            0 <= i < self.dim && 0 <= j < self.dim ==> cell_ok(#[trigger] self.data@[i]@[j])
        &&& self.scale < u32::MAX
    }

    /// What a well formed register tells of its model.
    pub proof fn lemma_model(&self)
        requires
            self.wf(),
        ensures
            density_wf(self@),
            fits(self@),
            unit_trace(self@),
            hermitian(self@),
    {
        lemma_dim(self.num_qubits);
        assert forall|i: int| 0 <= i < self@.cells.len() implies #[trigger] self@.cells[i].len()
            == self@.cells.len() by {
            assert(self.data@[i].len() == self.dim);
        }
        assert forall|i: int, j: int|
            0 <= i < self@.cells.len() && 0 <= j < self@.cells.len() implies #[trigger] self@.cells[i][j].len()
            == COEFFS by {
            assert(self.data@[i].len() == self.dim);
            assert(cell_ok(self.data@[i]@[j]));
        }
        assert forall|i: int, j: int, t: int|
            0 <= i < self@.cells.len() && 0 <= j < self@.cells.len() && 0 <= t < COEFFS implies -i64::MAX
            <= #[trigger] self@.cells[i][j][t] <= i64::MAX by {
            assert(self.data@[i].len() == self.dim);
            assert(cell_ok(self.data@[i]@[j]));
            assert(self.data@[i]@[j]@[t] != i64::MIN);
        }
    }

    /// Entry `(i, j)` of the model is the stored amplitude at row `i`,
    /// column `j`.
    proof fn lemma_cell(&self, i: int, j: int)
        requires
            self.shape(),
            0 <= i < self.dim,
            0 <= j < self.dim,
        ensures
            self.data@[i].len() == self.dim,
            cell_ok(self.data@[i]@[j]),
            self@.cells.len() == self.dim,
            self@.cells[i].len() == self.dim,
            self@.cells[i][j] == cell_view(self.data@[i]@[j]),
    {
        assert(self.data@[i].len() == self.dim);
        assert(cell_ok(self.data@[i]@[j]));
    }

    /// A register of `num_qubits` qubits in the all-zero basis state.
    pub fn new(num_qubits: usize) -> (r: Result<QuantumState, QuantumError>)
        ensures
            (1 <= num_qubits <= MAX_QUBITS) <==> r is Ok,
            match r {
                Ok(s) => s.wf() && s@ == ground(num_qubits as nat),
                Err(e) => e == QuantumError::InvalidDimension,
            },
    {
        if num_qubits < 1 || num_qubits > MAX_QUBITS {
            return Err(QuantumError::InvalidDimension);
        }
        proof {
            lemma_dim(num_qubits);
        }
        let dim: usize = 1usize << num_qubits;
        let ghost g = ground(num_qubits as nat);
        let mut data: Vec<Vec<Vec<i64>>> = Vec::new();
        let mut i: usize = 0;
        while i < dim
            invariant
                i <= dim,
                dim == (1usize << num_qubits),
                dim as nat == dim_of(num_qubits as nat),
                g == ground(num_qubits as nat),
                data.len() == i,
                forall|a: int| 0 <= a < i ==> #[trigger] data@[a].len() == dim,
                forall|a: int, b: int| 0 <= a < i && 0 <= b < dim ==> cell_ok(#[trigger] data@[a]@[b]),
                forall|a: int, b: int|
                    0 <= a < i && 0 <= b < dim ==> cell_view(#[trigger] data@[a]@[b]) == g.cells[a][b],
            decreases dim - i,
        {
            let mut row: Vec<Vec<i64>> = Vec::new();
            let mut j: usize = 0;
            while j < dim
                invariant
                    i < dim,
                    j <= dim,
                    dim as nat == dim_of(num_qubits as nat),
                    g == ground(num_qubits as nat),
                    row.len() == j,
                    forall|b: int| 0 <= b < j ==> cell_ok(#[trigger] row@[b]),
                    forall|b: int| 0 <= b < j ==> cell_view(#[trigger] row@[b]) == g.cells[i as int][b],
                decreases dim - j,
            {
                let mut c: Vec<i64> = Vec::new();
                let mut t: usize = 0;
                while t < COEFFS
                    invariant
                        i < dim,
                        j < dim,
                        t <= COEFFS,
                        dim as nat == dim_of(num_qubits as nat),
                        g == ground(num_qubits as nat),
                        c.len() == t,
                        forall|s: int| 0 <= s < t ==> #[trigger] c@[s] as int == g.cells[i as int][j as int][s],
                    decreases COEFFS - t,
                {
                    let x: i64 = if i == 0 && j == 0 && t == 0 { 1 } else { 0 };
                    c.push(x);
                    t = t + 1;
                }
                assert(cell_view(c) =~= g.cells[i as int][j as int]);
                row.push(c);
                j = j + 1;
            }
            data.push(row);
            i = i + 1;
        }
        let s = QuantumState { num_qubits, dim, scale: 0, data };
        proof {
            lemma_ground_trace(num_qubits as nat);
            lemma_ground_hermitian(num_qubits as nat);
        }
        assert(s@.cells =~~= g.cells) by {
            assert forall|a: int, b: int| 0 <= a < dim && 0 <= b < dim implies #[trigger] s@.cells[a][b]
                == g.cells[a][b] by {
                assert(s.data@[a].len() == dim);
            }
            assert forall|a: int| 0 <= a < dim implies #[trigger] s@.cells[a] =~= g.cells[a] by {
                assert(s.data@[a].len() == dim);
                assert forall|b: int| 0 <= b < dim implies s@.cells[a][b] == g.cells[a][b] by {
                    assert(s@.cells[a][b] == g.cells[a][b]);
                }
            }
        }
        Ok(s)
    }

    /// `U rho U*` for a gate `U` other than Hadamard, computed into a fresh
    /// matrix that then replaces the old one.
    fn apply_monomial(&mut self, g: Gate)
        requires
            old(self).wf(),
            gate_fits(g, old(self)@.qubits),
            !(g is Hadamard),
        ensures
            final(self).wf(),
            final(self)@ == monomial(old(self)@, g),
    {
        let ghost m = self@;
        let dim = self.dim;
        proof {
            lemma_dim(self.num_qubits);
            self.lemma_model();
            lemma_step_trace(m, g);
            lemma_step_hermitian(m, g);
        }
        let mut data: Vec<Vec<Vec<i64>>> = Vec::new();
        let mut i: usize = 0;
        while i < dim
            invariant
                self.wf(),
                self@ == m,
                unit_trace(monomial(m, g)),
                hermitian(monomial(m, g)),
                dim == self.dim,
                gate_fits(g, m.qubits),
                i <= dim,
                data.len() == i,
                forall|a: int| 0 <= a < i ==> #[trigger] data@[a].len() == dim,
                forall|a: int, b: int| 0 <= a < i && 0 <= b < dim ==> cell_ok(#[trigger] data@[a]@[b]),
                forall|a: int, b: int, t: int|
                    0 <= a < i && 0 <= b < dim && 0 <= t < COEFFS ==> #[trigger] data@[a]@[b]@[t] as int
                        == monomial(m, g).cells[a][b][t],
            decreases dim - i,
        {
            let si = source_of(g, i);
            let wi = weight_of(g, i);
            proof {
                lemma_source(g, i, self.num_qubits);
            }
            let mut row: Vec<Vec<i64>> = Vec::new();
            let mut j: usize = 0;
            while j < dim
                invariant
                    self.wf(),
                    self@ == m,
                    dim == self.dim,
                    gate_fits(g, m.qubits),
                    i < dim,
                    si == source_index(g, i),
                    si < dim,
                    wi as int == weight(g, i),
                    wi < PHASE_STEPS,
                    j <= dim,
                    row.len() == j,
                    forall|b: int| 0 <= b < j ==> cell_ok(#[trigger] row@[b]),
                    forall|b: int, t: int|
                        0 <= b < j && 0 <= t < COEFFS ==> #[trigger] row@[b]@[t] as int == monomial(
                            m,
                            g,
                        ).cells[i as int][b][t],
                decreases dim - j,
            {
                let sj = source_of(g, j);
                let wj = weight_of(g, j);
                proof {
                    lemma_source(g, j, self.num_qubits);
                    self.lemma_cell(si as int, sj as int);
                }
                let c = rotate_cell(&self.data[si][sj], wi, wj);
                row.push(c);
                j = j + 1;
            }
            data.push(row);
            i = i + 1;
        }
        self.data = data;
        proof {
            assert forall|a: int, b: int, t: int|
                0 <= a < dim && 0 <= b < dim && 0 <= t < COEFFS implies #[trigger] self@.cells[a][b][t]
                == monomial(m, g).cells[a][b][t] by {
                self.lemma_cell(a, b);
            }
            assert forall|a: int, b: int| 0 <= a < dim && 0 <= b < dim implies #[trigger] self@.cells[a][b].len() == COEFFS by {
                self.lemma_cell(a, b);
            }
            assert forall|a: int| 0 <= a < dim implies #[trigger] self@.cells[a].len() == dim by {
                self.lemma_cell(a, 0);
            }
            lemma_cells_ext(self@.cells, monomial(m, g).cells);
        }
    }

    /// Entry `(i, j)` of `H rho H` for a Hadamard on qubit `q`, or `None`
    /// where a coefficient of it does not fit.
    fn hadamard_cell(&self, q: usize, i: usize, j: usize) -> (r: Option<Vec<i64>>)
        requires
            self.wf(),
            q < self.num_qubits,
            i < self.dim,
            j < self.dim,
        ensures
            match r {
                Some(c) => cell_ok(c) && forall|t: int|
                    0 <= t < COEFFS ==> #[trigger] c@[t] as int == hadamard_coef(
                        self@,
                        q,
                        i,
                        j,
                        t,
                    ),
                None => exists|t: int|
                    0 <= t < COEFFS && !(-i64::MAX <= #[trigger] hadamard_coef(self@, q, i, j, t)
                        <= i64::MAX),
            },
    {
        let fi = flip_of(i, q);
        let fj = flip_of(j, q);
        let ni = bit_of(i, q);
        let nj = bit_of(j, q);
        proof {
            lemma_flip(i, q, self.num_qubits);
            lemma_flip(j, q, self.num_qubits);
            self.lemma_cell(i as int, j as int);
            self.lemma_cell(i as int, fj as int);
            self.lemma_cell(fi as int, j as int);
            self.lemma_cell(fi as int, fj as int);
        }
        let mut c: Vec<i64> = Vec::new();
        let mut t: usize = 0;
        while t < COEFFS
            invariant
                self.wf(),
                q < self.num_qubits,
                i < self.dim,
                j < self.dim,
                fi == flip(i, q),
                fj == flip(j, q),
                fi < self.dim,
                fj < self.dim,
                ni == bit(i, q),
                nj == bit(j, q),
                self@.cells[i as int][j as int] == cell_view(self.data@[i as int]@[j as int]),
                self@.cells[i as int][fj as int] == cell_view(self.data@[i as int]@[fj as int]),
                self@.cells[fi as int][j as int] == cell_view(self.data@[fi as int]@[j as int]),
                self@.cells[fi as int][fj as int] == cell_view(self.data@[fi as int]@[fj as int]),
                self.data@[i as int].len() == self.dim,
                self.data@[fi as int].len() == self.dim,
                cell_ok(self.data@[i as int]@[j as int]),
                cell_ok(self.data@[i as int]@[fj as int]),
                cell_ok(self.data@[fi as int]@[j as int]),
                cell_ok(self.data@[fi as int]@[fj as int]),
                t <= COEFFS,
                c.len() == t,
                forall|s: int| 0 <= s < t ==> #[trigger] c@[s] != i64::MIN,
                forall|s: int|
                    0 <= s < t ==> #[trigger] c@[s] as int == hadamard_coef(self@, q, i, j, s),
            decreases COEFFS - t,
        {
            let a = self.data[i][j][t] as i128;
            let b = self.data[i][fj][t] as i128;
            let d = self.data[fi][j][t] as i128;
            let e = self.data[fi][fj][t] as i128;
            let a2: i128 = if ni == nj {
                a
            } else {
                -a
            };
            let b2: i128 = if ni {
                -b
            } else {
                b
            };
            let d2: i128 = if nj {
                -d
            } else {
                d
            };
            let sum: i128 = a2 + b2 + d2 + e;
            proof {
                let ti = t as int;
                assert(self@.cells[i as int][j as int][ti] == a);
                assert(self@.cells[i as int][fj as int][ti] == b);
                assert(self@.cells[fi as int][j as int][ti] == d);
                assert(self@.cells[fi as int][fj as int][ti] == e);
                assert(sum == hadamard_coef(self@, q, i, j, ti));
            }
            if sum < -(i64::MAX as i128) || sum > i64::MAX as i128 {
                return None;
            }
            c.push(sum as i64);
            t = t + 1;
        }
        Some(c)
    }

    /// `H rho H` for a Hadamard on qubit `q`, computed into a fresh matrix
    /// that replaces the old one only where every coefficient fits.
    fn apply_hadamard_raw(&mut self, q: usize) -> (r: Result<(), QuantumError>)
        requires
            old(self).wf(),
            q < old(self)@.qubits,
        ensures
            r is Ok <==> fits(hadamard(old(self)@, q)),
            match r {
                Ok(_) => final(self).wf() && final(self)@ == hadamard(old(self)@, q),
                Err(e) => e == QuantumError::Overflow && *final(self) == *old(self),
            },
    {
        let ghost m = self@;
        let dim = self.dim;
        proof {
            lemma_dim(self.num_qubits);
            self.lemma_model();
            lemma_step_trace(m, Gate::Hadamard { qubit: q });
            lemma_step_hermitian(m, Gate::Hadamard { qubit: q });
        }
        if self.scale >= u32::MAX - 1 {
            return Err(QuantumError::Overflow);
        }
        let mut data: Vec<Vec<Vec<i64>>> = Vec::new();
        let mut i: usize = 0;
        while i < dim
            invariant
                self.wf(),
                self@ == m,
                unit_trace(hadamard(m, q)),
                hermitian(hadamard(m, q)),
                dim == self.dim,
                q < self.num_qubits,
                i <= dim,
                data.len() == i,
                forall|a: int| 0 <= a < i ==> #[trigger] data@[a].len() == dim,
                forall|a: int, b: int| 0 <= a < i && 0 <= b < dim ==> cell_ok(#[trigger] data@[a]@[b]),
                forall|a: int, b: int, t: int|
                    0 <= a < i && 0 <= b < dim && 0 <= t < COEFFS ==> #[trigger] data@[a]@[b]@[t] as int
                        == hadamard(m, q).cells[a][b][t],
            decreases dim - i,
        {
            let mut row: Vec<Vec<i64>> = Vec::new();
            let mut j: usize = 0;
            while j < dim
                invariant
                    self.wf(),
                    self@ == m,
                    dim == self.dim,
                    q < self.num_qubits,
                    i < dim,
                    j <= dim,
                    row.len() == j,
                    forall|b: int| 0 <= b < j ==> cell_ok(#[trigger] row@[b]),
                    forall|b: int, t: int|
                        0 <= b < j && 0 <= t < COEFFS ==> #[trigger] row@[b]@[t] as int == hadamard(
                            m,
                            q,
                        ).cells[i as int][b][t],
                decreases dim - j,
            {
                match self.hadamard_cell(q, i, j) {
                    Some(c) => {
                        row.push(c);
                    },
                    None => {
                        proof {
                            let t = choose|t: int|
                                0 <= t < COEFFS && !(-i64::MAX <= #[trigger] hadamard_coef(
                                    m,
                                    q,
                                    i,
                                    j,
                                    t,
                                ) <= i64::MAX);
                            assert(hadamard(m, q).cells[i as int][j as int][t] == hadamard_coef(
                                m,
                                q,
                                i,
                                j,
                                t,
                            ));
                        }
                        return Err(QuantumError::Overflow);
                    },
                }
                j = j + 1;
            }
            data.push(row);
            i = i + 1;
        }
        self.data = data;
        self.scale = self.scale + 1;
        proof {
            assert forall|a: int, b: int, t: int|
                0 <= a < dim && 0 <= b < dim && 0 <= t < COEFFS implies #[trigger] self@.cells[a][b][t]
                == hadamard(m, q).cells[a][b][t] by {
                self.lemma_cell(a, b);
            }
            assert forall|a: int, b: int| 0 <= a < dim && 0 <= b < dim implies #[trigger] self@.cells[a][b].len() == COEFFS by {
                self.lemma_cell(a, b);
            }
            assert forall|a: int| 0 <= a < dim implies #[trigger] self@.cells[a].len() == dim by {
                self.lemma_cell(a, 0);
            }
            lemma_cells_ext(self@.cells, hadamard(m, q).cells);
            self.lemma_model();
        }
        Ok(())
    }

    /// One gate that names qubits of the register, applied exactly.
    fn apply_step(&mut self, g: Gate) -> (r: Result<(), QuantumError>)
        requires
            old(self).wf(),
            gate_fits(g, old(self)@.qubits),
        ensures
            r is Ok <==> fits(step(old(self)@, g)),
            match r {
                Ok(_) => final(self).wf() && final(self)@ == step(old(self)@, g),
                Err(e) => e == QuantumError::Overflow && *final(self) == *old(self),
            },
    {
        match g {
            Gate::Hadamard { qubit } => self.apply_hadamard_raw(qubit),
            _ => {
                self.apply_monomial(g);
                proof {
                    self.lemma_model();
                }
                Ok(())
            },
        }
    }

    /// The stored coefficients of entry `(i, j)`.
    fn cell_copy(&self, i: usize, j: usize) -> (r: Vec<i64>)
        requires
            self.wf(),
            i < self.dim,
            j < self.dim,
        ensures
            r@ == self.data@[i as int]@[j as int]@,
    {
        proof {
            self.lemma_cell(i as int, j as int);
        }
        let mut r: Vec<i64> = Vec::new();
        let mut t: usize = 0;
        while t < COEFFS
            invariant
                self.wf(),
                i < self.dim,
                j < self.dim,
                cell_ok(self.data@[i as int]@[j as int]),
                self.data@[i as int].len() == self.dim,
                t <= COEFFS,
                r.len() == t,
                forall|s: int| 0 <= s < t ==> #[trigger] r@[s] == self.data@[i as int]@[j as int]@[s],
            decreases COEFFS - t,
        {
            r.push(self.data[i][j][t]);
            t = t + 1;
        }
        assert(r@ =~= self.data@[i as int]@[j as int]@);
        r
    }

    /// An independent copy of the register: the full matrix is copied.
    pub fn copy(&self) -> (r: QuantumState)
        requires
            self.wf(),
        ensures
            r.wf(),
            r@ == self@,
    {
        let dim = self.dim;
        let mut data: Vec<Vec<Vec<i64>>> = Vec::new();
        let mut i: usize = 0;
        while i < dim
            invariant
                self.wf(),
                dim == self.dim,
                i <= dim,
                data.len() == i,
                forall|a: int| 0 <= a < i ==> #[trigger] data@[a].len() == dim,
                forall|a: int, b: int|
                    0 <= a < i && 0 <= b < dim ==> #[trigger] data@[a]@[b]@ == self.data@[a]@[b]@,
            decreases dim - i,
        {
            let mut row: Vec<Vec<i64>> = Vec::new();
            let mut j: usize = 0;
            while j < dim
                invariant
                    self.wf(),
                    dim == self.dim,
                    i < dim,
                    j <= dim,
                    row.len() == j,
                    forall|b: int| 0 <= b < j ==> #[trigger] row@[b]@ == self.data@[i as int]@[b]@,
                decreases dim - j,
            {
                let c = self.cell_copy(i, j);
                row.push(c);
                j = j + 1;
            }
            data.push(row);
            i = i + 1;
        }
        let r = QuantumState { num_qubits: self.num_qubits, dim, scale: self.scale, data };
        proof {
            assert forall|a: int, b: int|
                0 <= a < dim && 0 <= b < dim implies cell_ok(#[trigger] r.data@[a]@[b]) by {
                self.lemma_cell(a, b);
                assert(r.data@[a]@[b]@ == self.data@[a]@[b]@);
            }
            assert(r.shape());
            assert forall|a: int, b: int|
                0 <= a < dim && 0 <= b < dim implies #[trigger] r@.cells[a][b] == self@.cells[a][b] by {
                self.lemma_cell(a, b);
                r.lemma_cell(a, b);
                assert(r.data@[a]@[b]@ == self.data@[a]@[b]@);
                assert(cell_view(r.data@[a]@[b]) =~= cell_view(self.data@[a]@[b]));
            }
            assert forall|a: int| 0 <= a < dim implies #[trigger] r@.cells[a].len() == dim by {
                r.lemma_cell(a, 0);
            }
            assert forall|a: int| 0 <= a < dim implies #[trigger] self@.cells[a].len() == dim by {
                self.lemma_cell(a, 0);
            }
            assert forall|a: int, b: int|
                0 <= a < dim && 0 <= b < dim implies #[trigger] self@.cells[a][b].len() == COEFFS by {
                self.lemma_cell(a, b);
            }
            assert forall|a: int, b: int|
                0 <= a < dim && 0 <= b < dim implies #[trigger] r@.cells[a][b].len() == COEFFS by {
                r.lemma_cell(a, b);
            }
            lemma_cells_ext(r@.cells, self@.cells);
            assert(r@ == self@);
        }
        r
    }

    /// A sequence of gates, first to last. Where some register along the
    /// way does not fit, the register is left as it was.
    pub(crate) fn apply_circuit(&mut self, gates: &Vec<Gate>) -> (r: Result<(), QuantumError>)
        requires
            old(self).wf(),
            forall|k: int| 0 <= k < gates.len() ==> gate_fits(#[trigger] gates@[k], old(self)@.qubits),
        ensures
            r is Ok <==> run_fits(old(self)@, gates@),
            match r {
                Ok(_) => final(self).wf() && final(self)@ == run(old(self)@, gates@),
                Err(e) => e == QuantumError::Overflow && *final(self) == *old(self),
            },
    {
        let ghost m = self@;
        let mut work = self.copy();
        let mut k: usize = 0;
        assert(gates@.take(0) =~= Seq::<Gate>::empty());
        while k < gates.len()
            invariant
                self.wf(),
                self@ == m,
                work.wf(),
                work@.qubits == m.qubits,
                k <= gates.len(),
                forall|x: int| 0 <= x < gates.len() ==> gate_fits(#[trigger] gates@[x], m.qubits),
                work@ == run(m, gates@.take(k as int)),
                run_fits(m, gates@.take(k as int)),
            decreases gates.len() - k,
        {
            proof {
                lemma_run_next(m, gates@, k as int);
            }
            match work.apply_step(gates[k]) {
                Ok(_) => {},
                Err(e) => {
                    proof {
                        if run_fits(m, gates@) {
                            lemma_run_fits_prefix(m, gates@, k + 1);
                        }
                    }
                    return Err(e);
                },
            }
            k = k + 1;
        }
        assert(gates@.take(gates@.len() as int) =~= gates@);
        *self = work;
        Ok(())
    }

    /// Applies gate `g`: `rho` becomes `U rho U*`. Nothing changes where the
    /// gate names a qubit the register lacks, names one qubit twice, or where
    /// the result would not fit.
    pub fn apply(&mut self, g: Gate) -> (r: Result<(), QuantumError>)
        requires
            old(self).wf(),
        ensures
            final(self).wf(),
            gate_applied(old(self)@, g, r, final(self)@),
    {
        match check_gate(g, self.num_qubits) {
            Err(e) => Err(e),
            Ok(_) => self.apply_step(g),
        }
    }

    /// Applies this gate of kind `kind` to the listed target qubits (control
    /// first for the controlled gates); `turns` is the phase, in steps of
    /// `1 / PHASE_STEPS` turn, of the phase gates and is ignored by the
    /// others.
    pub fn apply_gate(&mut self, kind: GateKind, turns: usize, targets: &Vec<usize>) -> (r: Result<
        (),
        QuantumError,
    >)
        requires
            old(self).wf(),
        ensures
            final(self).wf(),
            targets.len() != arity(kind) ==> r == Err::<(), QuantumError>(
                QuantumError::DimensionMismatch,
            ) && final(self)@ == old(self)@,
            targets.len() == arity(kind) ==> gate_applied(
                old(self)@,
                gate_from(kind, turns, targets@),
                r,
                final(self)@,
            ),
    {
        let two = match kind {
            GateKind::Cnot | GateKind::Swap | GateKind::ControlledPhase => true,
            _ => false,
        };
        if (two && targets.len() != 2) || (!two && targets.len() != 1) {
            return Err(QuantumError::DimensionMismatch);
        }
        let g = match kind {
            GateKind::Hadamard => Gate::Hadamard { qubit: targets[0] },
            GateKind::PauliX => Gate::PauliX { qubit: targets[0] },
            GateKind::PauliY => Gate::PauliY { qubit: targets[0] },
            GateKind::PauliZ => Gate::PauliZ { qubit: targets[0] },
            GateKind::Phase => Gate::Phase { qubit: targets[0], turns },
            GateKind::Cnot => Gate::Cnot { control: targets[0], target: targets[1] },
            GateKind::Swap => Gate::Swap { first: targets[0], second: targets[1] },
            GateKind::ControlledPhase => Gate::ControlledPhase {
                control: targets[0],
                target: targets[1],
                turns,
            },
        };
        self.apply(g)
    }

    /// Hadamard on `qubit`.
    pub fn apply_hadamard(&mut self, qubit: usize) -> (r: Result<(), QuantumError>)
        requires
            old(self).wf(),
        ensures
            final(self).wf(),
            gate_applied(old(self)@, Gate::Hadamard { qubit }, r, final(self)@),
    {
        self.apply(Gate::Hadamard { qubit })
    }

    /// Pauli X (NOT) on `qubit`.
    pub fn apply_x(&mut self, qubit: usize) -> (r: Result<(), QuantumError>)
        requires
            old(self).wf(),
        ensures
            final(self).wf(),
            gate_applied(old(self)@, Gate::PauliX { qubit }, r, final(self)@),
    {
        self.apply(Gate::PauliX { qubit })
    }

    /// Pauli Y on `qubit`.
    pub fn apply_y(&mut self, qubit: usize) -> (r: Result<(), QuantumError>)
        requires
            old(self).wf(),
        ensures
            final(self).wf(),
            gate_applied(old(self)@, Gate::PauliY { qubit }, r, final(self)@),
    {
        self.apply(Gate::PauliY { qubit })
    }

    /// Pauli Z on `qubit`.
    pub fn apply_z(&mut self, qubit: usize) -> (r: Result<(), QuantumError>)
        requires
            old(self).wf(),
        ensures
            final(self).wf(),
            gate_applied(old(self)@, Gate::PauliZ { qubit }, r, final(self)@),
    {
        self.apply(Gate::PauliZ { qubit })
    }

    /// The phase gate `diag(1, z^turns)` on `qubit`.
    pub fn apply_phase_gate(&mut self, qubit: usize, turns: usize) -> (r: Result<(), QuantumError>)
        requires
            old(self).wf(),
        ensures
            final(self).wf(),
            gate_applied(old(self)@, Gate::Phase { qubit, turns }, r, final(self)@),
    {
        self.apply(Gate::Phase { qubit, turns })
    }

    /// Controlled NOT: flips `target` where `control` is set.
    pub fn apply_cnot(&mut self, control: usize, target: usize) -> (r: Result<(), QuantumError>)
        requires
            old(self).wf(),
        ensures
            final(self).wf(),
            gate_applied(old(self)@, Gate::Cnot { control, target }, r, final(self)@),
    {
        self.apply(Gate::Cnot { control, target })
    }

    /// Exchanges two qubits.
    pub fn apply_swap(&mut self, qubit1: usize, qubit2: usize) -> (r: Result<(), QuantumError>)
        requires
            old(self).wf(),
        ensures
            final(self).wf(),
            gate_applied(old(self)@, Gate::Swap { first: qubit1, second: qubit2 }, r, final(self)@),
    {
        self.apply(Gate::Swap { first: qubit1, second: qubit2 })
    }

    /// Multiplies by `z^turns` the basis states where both qubits are set.
    pub fn apply_controlled_phase(&mut self, control: usize, target: usize, turns: usize) -> (r:
        Result<(), QuantumError>)
        requires
            old(self).wf(),
        ensures
            final(self).wf(),
            gate_applied(
                old(self)@,
                Gate::ControlledPhase { control, target, turns },
                r,
                final(self)@,
            ),
    {
        self.apply(Gate::ControlledPhase { control, target, turns })
    }

    /// Whether every stored coefficient is even.
    fn coefficients_even(&self) -> (r: bool)
        requires
            self.wf(),
        ensures
            r == all_even(self@),
    {
        let dim = self.dim;
        let mut i: usize = 0;
        while i < dim
            invariant
                self.wf(),
                dim == self.dim,
                i <= dim,
                forall|a: int, b: int, t: int|
                    0 <= a < i && 0 <= b < dim && 0 <= t < COEFFS ==> #[trigger] self@.cells[a][b][t] % 2
                        == 0,
            decreases dim - i,
        {
            let mut j: usize = 0;
            while j < dim
                invariant
                    self.wf(),
                    dim == self.dim,
                    i < dim,
                    j <= dim,
                    forall|a: int, b: int, t: int|
                        0 <= a < i && 0 <= b < dim && 0 <= t < COEFFS ==> #[trigger] self@.cells[a][b][t]
                            % 2 == 0,
                    forall|b: int, t: int|
                        0 <= b < j && 0 <= t < COEFFS ==> #[trigger] self@.cells[i as int][b][t] % 2 == 0,
                decreases dim - j,
            {
                proof {
                    self.lemma_cell(i as int, j as int);
                }
                let mut t: usize = 0;
                while t < COEFFS
                    invariant
                        self.wf(),
                        dim == self.dim,
                        i < dim,
                        j < dim,
                        t <= COEFFS,
                        self.data@[i as int].len() == dim,
                        cell_ok(self.data@[i as int]@[j as int]),
                        self@.cells[i as int][j as int] == cell_view(self.data@[i as int]@[j as int]),
                        forall|s: int| 0 <= s < t ==> #[trigger] self@.cells[i as int][j as int][s] % 2 == 0,
                    decreases COEFFS - t,
                {
                    let c = self.data[i][j][t];
                    let h = c / 2;
                    if h + h != c {
                        proof {
                            assert(self@.cells[i as int][j as int][t as int] == c);
                        }
                        return false;
                    }
                    t = t + 1;
                }
                j = j + 1;
            }
            i = i + 1;
        }
        true
    }

    /// Divides every stored coefficient and the denominator by 2, for a
    /// register whose coefficients are all even.
    fn halve_all(&mut self)
        requires
            old(self).wf(),
            old(self)@.scale > 0,
            all_even(old(self)@),
        ensures
            final(self).wf(),
            final(self)@ == halve(old(self)@),
    {
        let ghost m = self@;
        let dim = self.dim;
        proof {
            lemma_dim(self.num_qubits);
            self.lemma_model();
            lemma_halve_trace(m);
            lemma_halve_hermitian(m);
        }
        let mut data: Vec<Vec<Vec<i64>>> = Vec::new();
        let mut i: usize = 0;
        while i < dim
            invariant
                self.wf(),
                self@ == m,
                all_even(m),
                unit_trace(halve(m)),
                hermitian(halve(m)),
                dim == self.dim,
                i <= dim,
                data.len() == i,
                forall|a: int| 0 <= a < i ==> #[trigger] data@[a].len() == dim,
                forall|a: int, b: int| 0 <= a < i && 0 <= b < dim ==> cell_ok(#[trigger] data@[a]@[b]),
                forall|a: int, b: int, t: int|
                    0 <= a < i && 0 <= b < dim && 0 <= t < COEFFS ==> #[trigger] data@[a]@[b]@[t] as int
                        == halve(m).cells[a][b][t],
            decreases dim - i,
        {
            let mut row: Vec<Vec<i64>> = Vec::new();
            let mut j: usize = 0;
            while j < dim
                invariant
                    self.wf(),
                    self@ == m,
                    all_even(m),
                    dim == self.dim,
                    i < dim,
                    j <= dim,
                    row.len() == j,
                    forall|b: int| 0 <= b < j ==> cell_ok(#[trigger] row@[b]),
                    forall|b: int, t: int|
                        0 <= b < j && 0 <= t < COEFFS ==> #[trigger] row@[b]@[t] as int == halve(
                            m,
                        ).cells[i as int][b][t],
                decreases dim - j,
            {
                proof {
                    self.lemma_cell(i as int, j as int);
                }
                let mut c: Vec<i64> = Vec::new();
                let mut t: usize = 0;
                while t < COEFFS
                    invariant
                        self.wf(),
                        self@ == m,
                        all_even(m),
                        dim == self.dim,
                        i < dim,
                        j < dim,
                        t <= COEFFS,
                        self.data@[i as int].len() == dim,
                        cell_ok(self.data@[i as int]@[j as int]),
                        m.cells[i as int][j as int] == cell_view(self.data@[i as int]@[j as int]),
                        c.len() == t,
                        forall|s: int| 0 <= s < t ==> #[trigger] c@[s] != i64::MIN,
                        forall|s: int|
                            0 <= s < t ==> #[trigger] c@[s] as int == halve(m).cells[i as int][j as int][s],
                    decreases COEFFS - t,
                {
                    let x = self.data[i][j][t];
                    proof {
                        assert(m.cells[i as int][j as int][t as int] == x);
                        assert(x % 2 == 0);
                    }
                    c.push(x / 2);
                    t = t + 1;
                }
                row.push(c);
                j = j + 1;
            }
            data.push(row);
            i = i + 1;
        }
        self.data = data;
        self.scale = self.scale - 1;
        proof {
            assert(self.shape());
            assert forall|a: int, b: int, t: int|
                0 <= a < dim && 0 <= b < dim && 0 <= t < COEFFS implies #[trigger] self@.cells[a][b][t]
                == halve(m).cells[a][b][t] by {
                self.lemma_cell(a, b);
            }
            assert forall|a: int, b: int| 0 <= a < dim && 0 <= b < dim implies #[trigger] self@.cells[a][b].len() == COEFFS by {
                self.lemma_cell(a, b);
            }
            assert forall|a: int| 0 <= a < dim implies #[trigger] self@.cells[a].len() == dim by {
                self.lemma_cell(a, 0);
            }
            lemma_cells_ext(self@.cells, halve(m).cells);
        }
    }

    /// Brings the register to its lowest scale: while the scale is positive
    /// and every coefficient is even, halves them all. The density matrix
    /// stays the same; only its storage shrinks, which keeps long circuits
    /// within the 64-bit coefficients.
    pub fn normalize(&mut self)
        requires
            old(self).wf(),
        ensures
            final(self).wf(),
            same_state(final(self)@, old(self)@),
            final(self)@.qubits == old(self)@.qubits,
            final(self)@.scale <= old(self)@.scale,
            final(self)@.scale == 0 || !all_even(final(self)@),
    {
        let ghost m = self@;
        proof {
            self.lemma_model();
            lemma_same_state_refl(m);
        }
        while self.scale > 0 && self.coefficients_even()
            invariant
                self.wf(),
                same_state(self@, m),
                self@.qubits == m.qubits,
                self@.scale <= m.scale,
                density_wf(m),
            decreases self.scale,
        {
            let ghost before = self@;
            self.halve_all();
            proof {
                lemma_halve_same(before);
                lemma_same_state_trans(self@, before, m);
            }
        }
    }

    /// The number of qubits.
    pub fn num_qubits(&self) -> (r: usize)
        requires
            self.wf(),
        ensures
            r as nat == self@.qubits,
    {
        self.num_qubits
    }

    /// The side of the matrix, `2^num_qubits`.
    pub fn dimension(&self) -> (r: usize)
        requires
            self.wf(),
        ensures
            r as nat == dim_of(self@.qubits),
            r as nat == self@.cells.len(),
    {
        proof {
            lemma_dim(self.num_qubits);
        }
        self.dim
    }

    /// The scale `s`: the density matrix is the stored one divided by `2^s`.
    pub fn scale(&self) -> (r: u32)
        requires
            self.wf(),
        ensures
            r as nat == self@.scale,
    {
        self.scale
    }

    /// The coefficients of entry `(i, j)` of the stored matrix.
    pub fn entry(&self, i: usize, j: usize) -> (r: Vec<i64>)
        requires
            self.wf(),
            i < self@.cells.len(),
            j < self@.cells.len(),
        ensures
            cell_view(r) == self@.cells[i as int][j as int],
    {
        let mut r: Vec<i64> = Vec::new();
        let mut t: usize = 0;
        while t < COEFFS
            invariant
                self.wf(),
                i < self.dim,
                j < self.dim,
                t <= COEFFS,
                r.len() == t,
                forall|s: int| 0 <= s < t ==> #[trigger] r@[s] == self.data@[i as int]@[j as int]@[s],
            decreases COEFFS - t,
        {
            assert(self.data@[i as int].len() == self.dim);
            assert(cell_ok(self.data@[i as int]@[j as int]));
            r.push(self.data[i][j][t]);
            t = t + 1;
        }
        proof {
            assert(self.data@[i as int].len() == self.dim);
            assert(cell_ok(self.data@[i as int]@[j as int]));
            assert(self@.cells[i as int] == self.data@[i as int]@.map_values(
                |c: Vec<i64>| cell_view(c),
            ));
            assert(self@.cells[i as int][j as int] == cell_view(self.data@[i as int]@[j as int]));
            assert(cell_view(r) =~= self@.cells[i as int][j as int]);
        }
        r
    }
}

} // verus!

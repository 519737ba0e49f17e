//! Measurement probabilities in the Z, X and Y bases.
use vstd::prelude::*;
use vstd::string::StringSliceAdditionalSpecFns;
use crate::error::QuantumError;
use crate::model::{
    density_wf, dim_of, fits, gate_fits, run, run_fits, Density, Gate, COEFFS, MAX_QUBITS,
    PHASE_STEPS,
};
use crate::trace::{lemma_sum_congruent, sum_to};
use crate::state::{cell_view, QuantumState};

verus! {

/// A measurement basis, the same for every qubit.
#[derive(Debug, Clone, Copy, PartialEq, Eq, Structural)]
pub enum Basis {
    Z,
    X,
    Y,
}

/// The basis that a one-letter name stands for.
pub open spec fn basis_named(name: Seq<u8>) -> Option<Basis> {
    if name.len() != 1 {
        None
    } else if name[0] == 122u8 {
        Some(Basis::Z)
    } else if name[0] == 120u8 {
        Some(Basis::X)
    } else if name[0] == 121u8 {
        Some(Basis::Y)
    } else {
        None
    }
}

/// Reads a basis name: `z`, `x` or `y`.
pub fn parse_basis(name: &str) -> (r: Result<Basis, QuantumError>)
    ensures
        match basis_named(name.spec_bytes()) {
            Some(b) => r == Ok::<Basis, QuantumError>(b),
            None => r == Err::<Basis, QuantumError>(QuantumError::UnsupportedBasis),
        },
{
    let bytes = name.as_bytes();
    if bytes.len() != 1 {
        return Err(QuantumError::UnsupportedBasis);
    }
    let c = bytes[0];
    if c == 122u8 {
        Ok(Basis::Z)
    } else if c == 120u8 {
        Ok(Basis::X)
    } else if c == 121u8 {
        Ok(Basis::Y)
    } else {
        Err(QuantumError::UnsupportedBasis)
    }
}

/// The rotation that turns the basis into the computational one, as gates:
/// nothing for Z, a Hadamard on every qubit for X, and for Y the phase
/// `-1/4` turn followed by a Hadamard on every qubit.
pub open spec fn basis_change(b: Basis, n: nat) -> Seq<Gate>
    decreases n,
{
    if n == 0 {
        Seq::empty()
    } else {
        let q = (n - 1) as usize;
        let rest = basis_change(b, (n - 1) as nat);
        match b {
            Basis::Z => rest,
            Basis::X => rest.push(Gate::Hadamard { qubit: q }),
            Basis::Y => rest.push(Gate::Phase { qubit: q, turns: (PHASE_STEPS - PHASE_STEPS / 4) as usize }).push(
                Gate::Hadamard { qubit: q },
            ),
        }
    }
}

/// The register in which the diagonal gives the outcome probabilities of
/// measuring `m` in basis `b`.
pub open spec fn rotated(m: Density, b: Basis) -> Density {
    run(m, basis_change(b, m.qubits))
}

/// Outcome probabilities: outcome `i` has probability `values[i] / 2^scale`,
/// where `values[i]` lists the coefficients of an amplitude (see `Density`)
/// whose value is real.
pub struct Distribution {
    pub scale: u32,
    pub values: Vec<Vec<i64>>,
}

/// `d` lists the diagonal of `m`.
pub open spec fn is_diagonal_of(d: Distribution, m: Density) -> bool {
    &&& d.scale as nat == m.scale
    &&& d.values.len() == m.cells.len()
    &&& forall|i: int| 0 <= i < m.cells.len() ==> #[trigger] cell_view(d.values@[i]) == m.cells[i][i]
}

pub proof fn lemma_basis_change(b: Basis, n: nat, k: int)
    requires
        0 <= k < basis_change(b, n).len(),
    ensures
        gate_fits(basis_change(b, n)[k], n),
    decreases n,
{
    if n > 0 {
        let rest = basis_change(b, (n - 1) as nat);
        if k < rest.len() {
            lemma_basis_change(b, (n - 1) as nat, k);
        }
    }
}

fn basis_gates(b: Basis, n: usize) -> (r: Vec<Gate>)
    ensures
        r@ == basis_change(b, n as nat),
{
    let mut r: Vec<Gate> = Vec::new();
    let mut q: usize = 0;
    while q < n
        invariant
            q <= n,
            r@ == basis_change(b, q as nat),
        decreases n - q,
    {
        match b {
            Basis::Z => {},
            Basis::X => {
                r.push(Gate::Hadamard { qubit: q });
            },
            Basis::Y => {
                r.push(Gate::Phase { qubit: q, turns: PHASE_STEPS - PHASE_STEPS / 4 });
                r.push(Gate::Hadamard { qubit: q });
            },
        }
        q = q + 1;
    }
    r
}

impl QuantumState {
    /// The diagonal of the matrix, that is the Z-basis probabilities.
    pub fn diagonal(&self) -> (r: Distribution)
        requires
            self.wf(),
        ensures
            is_diagonal_of(r, self@),
    {
        let dim = self.dimension();
        let mut values: Vec<Vec<i64>> = Vec::new();
        let mut i: usize = 0;
        while i < dim
            invariant
                self.wf(),
                dim as nat == self@.cells.len(),
                i <= dim,
                values.len() == i,
                forall|a: int| 0 <= a < i ==> #[trigger] cell_view(values@[a]) == self@.cells[a][a],
            decreases dim - i,
        {
            values.push(self.entry(i, i));
            i = i + 1;
        }
        Distribution { scale: self.scale(), values }
    }

    /// The probabilities of the outcomes of measuring every qubit in basis
    /// `b`. The rotation is applied to a copy: the register is not changed.
    pub fn measure(&self, b: Basis) -> (r: Result<Distribution, QuantumError>)
        requires
            self.wf(),
        ensures
            r is Ok <==> run_fits(self@, basis_change(b, self@.qubits)),
            match r {
                Ok(d) => is_diagonal_of(d, rotated(self@, b)),
                Err(e) => e == QuantumError::Overflow,
            },
    {
        let gates = basis_gates(b, self.num_qubits());
        let mut work = self.copy();
        proof {
            assert forall|k: int| 0 <= k < gates.len() implies gate_fits(#[trigger] gates@[k], self@.qubits) by {
                lemma_basis_change(b, self@.qubits, k);
            }
        }
        match work.apply_circuit(&gates) {
            Ok(_) => Ok(work.diagonal()),
            Err(e) => Err(e),
        }
    }
}

/// Coefficient `t` of the probability that the qubits `0 .. p` read `k`:
/// the diagonal entries whose index agrees with `k` on those qubits, added.
pub open spec fn marginal_coef(m: Density, p: nat, k: int, t: int) -> int {
    let stride = dim_of(p) as int;
    sum_to(|r: int| m.cells[k + r * stride][k + r * stride][t], (m.cells.len() / dim_of(p)) as nat)
}

/// `d` lists, for each reading `k` of the qubits `0 .. p`, its probability.
pub open spec fn is_marginal_of(d: Distribution, m: Density, p: nat) -> bool {
    &&& d.scale as nat == m.scale
    &&& d.values.len() == dim_of(p)
    &&& forall|k: int, t: int|
        0 <= k < dim_of(p) && 0 <= t < COEFFS ==> #[trigger] cell_view(d.values@[k])[t]
            == marginal_coef(m, p, k, t)
    &&& forall|k: int| 0 <= k < dim_of(p) ==> #[trigger] d.values@[k].len() == COEFFS
}

/// Every marginal coefficient fits an `i64`.
pub open spec fn marginal_fits(m: Density, p: nat) -> bool {
    forall|k: int, t: int|
        0 <= k < dim_of(p) && 0 <= t < COEFFS ==> -i64::MAX <= #[trigger] marginal_coef(m, p, k, t)
            <= i64::MAX
}

proof fn lemma_blocks(p: usize, n: usize)
    requires
        p <= n <= MAX_QUBITS,
    ensures
        (1usize << p) * ((1usize << n) >> p) == (1usize << n),
        1 <= (1usize << p),
        dim_of(p as nat) == (1usize << p) as nat,
{
    assert(p <= n <= 6 ==> (1usize << p) * ((1usize << n) >> p) == (1usize << n) && 1 <= (1usize << p))
        by (bit_vector);
}

impl QuantumState {
    /// The probabilities of the readings of the qubits `0 .. precision`,
    /// the others being ignored: after `phase_estimation`, reading `k`
    /// estimates the eigenphase as `k / 2^precision` of a turn.
    pub fn ancilla_distribution(&self, precision: usize) -> (r: Result<Distribution, QuantumError>)
        requires
            self.wf(),
        ensures
            precision > self@.qubits ==> r == Err::<Distribution, QuantumError>(
                QuantumError::InsufficientQubits,
            ),
            precision <= self@.qubits ==> (r is Ok <==> marginal_fits(self@, precision as nat)),
            precision <= self@.qubits && !marginal_fits(self@, precision as nat) ==> r
                == Err::<Distribution, QuantumError>(QuantumError::Overflow),
            r matches Ok(d) ==> is_marginal_of(d, self@, precision as nat),
    {
        let n = self.num_qubits();
        if precision > n {
            return Err(QuantumError::InsufficientQubits);
        }
        proof {
            self.lemma_model();
            lemma_blocks(precision, n);
            crate::bits::lemma_dim(n);
        }
        let ghost m = self@;
        let dim = self.dimension();
        let stride: usize = 1usize << precision;
        let count: usize = dim >> precision;
        assert(count as int == m.cells.len() / dim_of(precision as nat)) by (nonlinear_arith)
            requires
                stride * count == dim,
                stride >= 1,
                stride as nat == dim_of(precision as nat),
                dim as nat == m.cells.len(),
        ;
        assert(count <= dim) by (nonlinear_arith)
            requires
                stride * count == dim,
                stride >= 1,
        ;
        let mut values: Vec<Vec<i64>> = Vec::new();
        let mut k: usize = 0;
        while k < stride
            invariant
                self.wf(),
                m == self@,
                density_wf(m),
                fits(m),
                dim as nat == m.cells.len(),
                precision as nat <= m.qubits,
                count <= 64,
                stride * count == dim,
                stride as nat == dim_of(precision as nat),
                count as int == m.cells.len() / dim_of(precision as nat),
                k <= stride,
                values.len() == k,
                forall|a: int| 0 <= a < k ==> #[trigger] values@[a].len() == COEFFS,
                forall|a: int, t: int|
                    0 <= a < k && 0 <= t < COEFFS ==> #[trigger] cell_view(values@[a])[t]
                        == marginal_coef(m, precision as nat, a, t),
                forall|a: int, t: int|
                    0 <= a < k && 0 <= t < COEFFS ==> -i64::MAX <= #[trigger] marginal_coef(
                        m,
                        precision as nat,
                        a,
                        t,
                    ) <= i64::MAX,
            decreases stride - k,
        {
            let mut c: Vec<i64> = Vec::new();
            let mut t: usize = 0;
            while t < COEFFS
                invariant
                    self.wf(),
                    m == self@,
                    density_wf(m),
                    fits(m),
                    dim as nat == m.cells.len(),
                    precision as nat <= m.qubits,
                    count <= 64,
                    stride * count == dim,
                    stride as nat == dim_of(precision as nat),
                    count as int == m.cells.len() / dim_of(precision as nat),
                    k < stride,
                    t <= COEFFS,
                    c.len() == t,
                    forall|s: int| 0 <= s < t ==> #[trigger] c@[s] as int == marginal_coef(
                        m,
                        precision as nat,
                        k as int,
                        s,
                    ),
                    forall|s: int| 0 <= s < t ==> -i64::MAX <= #[trigger] marginal_coef(
                        m,
                        precision as nat,
                        k as int,
                        s,
                    ) <= i64::MAX,
                decreases COEFFS - t,
            {
                let ghost h = |r: int|
                    m.cells[k + r * (stride as int)][k + r * (stride as int)][t as int];
                let mut acc: i128 = 0;
                let mut r: usize = 0;
                while r < count
                    invariant
                        self.wf(),
                        m == self@,
                        density_wf(m),
                        fits(m),
                        dim as nat == m.cells.len(),
                        stride * count == dim,
                        k < stride,
                        t < COEFFS,
                        h == (|r: int|
                            m.cells[k + r * (stride as int)][k + r * (stride as int)][t as int]),
                        r <= count,
                        count <= 64,
                        acc as int == sum_to(h, r as nat),
                        -(r as int) * (i64::MAX as int) <= acc <= (r as int) * (i64::MAX as int),
                    decreases count - r,
                {
                    assert(k + r * stride < dim && r * stride < dim) by (nonlinear_arith)
                        requires
                            k < stride,
                            r < count,
                            stride * count == dim,
                    ;
                    let x: usize = k + r * stride;
                    let e = self.entry(x, x);
                    assert(cell_view(e).len() == COEFFS);
                    assert(-i64::MAX <= m.cells[x as int][x as int][t as int] <= i64::MAX);
                    acc = acc + e[t] as i128;
                    r = r + 1;
                }
                proof {
                    let stride_i = dim_of(precision as nat) as int;
                    lemma_sum_congruent(
                        h,
                        |r: int| m.cells[k + r * stride_i][k + r * stride_i][t as int],
                        count as nat,
                    );
                    assert(acc as int == marginal_coef(m, precision as nat, k as int, t as int));
                }
                if acc < -(i64::MAX as i128) || acc > i64::MAX as i128 {
                    return Err(QuantumError::Overflow);
                }
                c.push(acc as i64);
                t = t + 1;
            }
            assert forall|s: int| 0 <= s < COEFFS implies #[trigger] cell_view(c)[s] == marginal_coef(
                m,
                precision as nat,
                k as int,
                s,
            ) by {}
            values.push(c);
            k = k + 1;
        }
        Ok(Distribution { scale: self.scale(), values })
    }
}

} // verus!

//! The trace of the density matrix: the sum of the outcome probabilities.
use vstd::prelude::*;
use vstd::arithmetic::power2::{lemma_pow2_unfold, pow2};
use crate::bits::{lemma_dim, lemma_flip};
use crate::gate::lemma_source;
use crate::model::{
    bit, density_wf, flip, gate_fits, ground, hadamard, hadamard_coef, monomial, rot_coef, signed,
    source_index, step, Density, Gate, COEFFS, MAX_QUBITS, all_even, halve,
};

verus! {

/// `h(0) + ... + h(n - 1)`.
pub open spec fn sum_to(h: spec_fn(int) -> int, n: nat) -> int
    decreases n,
{
    if n == 0 {
        0
    } else {
        sum_to(h, (n - 1) as nat) + h(n - 1)
    }
}

/// Functions equal on `0 .. n` have equal sums.
pub proof fn lemma_sum_congruent(a: spec_fn(int) -> int, b: spec_fn(int) -> int, n: nat)
    requires
        forall|i: int| 0 <= i < n ==> #[trigger] a(i) == b(i),
    ensures
        sum_to(a, n) == sum_to(b, n),
    decreases n,
{
    if n > 0 {
        lemma_sum_congruent(a, b, (n - 1) as nat);
    }
}

/// The sum of `a + b + c` is the sum of the three sums.
pub proof fn lemma_sum_add3(
    a: spec_fn(int) -> int,
    b: spec_fn(int) -> int,
    c: spec_fn(int) -> int,
    s: spec_fn(int) -> int,
    n: nat,
)
    requires
        forall|i: int| 0 <= i < n ==> #[trigger] s(i) == a(i) + b(i) + c(i),
    ensures
        sum_to(s, n) == sum_to(a, n) + sum_to(b, n) + sum_to(c, n),
    decreases n,
{
    if n > 0 {
        lemma_sum_add3(a, b, c, s, (n - 1) as nat);
    }
}

/// The sum of `-a` is minus the sum of `a`.
pub proof fn lemma_sum_neg(a: spec_fn(int) -> int, b: spec_fn(int) -> int, n: nat)
    requires
        forall|i: int| 0 <= i < n ==> #[trigger] b(i) == -a(i),
    ensures
        sum_to(b, n) == -sum_to(a, n),
    decreases n,
{
    if n > 0 {
        lemma_sum_neg(a, b, (n - 1) as nat);
    }
}

/// Changing one term changes the sum by as much.
proof fn lemma_sum_one_change(a: spec_fn(int) -> int, b: spec_fn(int) -> int, n: nat, k: int)
    requires
        0 <= k < n,
        forall|i: int| 0 <= i < n && i != k ==> #[trigger] a(i) == b(i),
    ensures
        sum_to(a, n) - a(k) == sum_to(b, n) - b(k),
    decreases n,
{
    if n - 1 == k {
        lemma_sum_congruent(a, b, (n - 1) as nat);
    } else {
        lemma_sum_one_change(a, b, (n - 1) as nat, k);
    }
}

/// `p` maps `0 .. n` onto itself and undoes itself.
pub open spec fn involution_on(p: spec_fn(int) -> int, n: nat) -> bool {
    forall|i: int| 0 <= i < n ==> 0 <= #[trigger] p(i) < n && p(p(i)) == i
}

/// Summing `h` over `0 .. n` in the order given by an involution of
/// `0 .. n` gives the same sum.
pub proof fn lemma_sum_involution(h: spec_fn(int) -> int, p: spec_fn(int) -> int, n: nat)
    requires
        involution_on(p, n),
    ensures
        sum_to(|i: int| h(p(i)), n) == sum_to(h, n),
    decreases n,
{
    if n > 0 {
        let last = n - 1;
        let hp = |i: int| h(p(i));
        assert(0 <= p(last) < n && p(p(last)) == last);
        if p(last) == last {
            assert(involution_on(p, (n - 1) as nat)) by {
                assert forall|i: int| 0 <= i < n - 1 implies 0 <= #[trigger] p(i) < n - 1 && p(p(i))
                    == i by {
                    assert(0 <= p(i) < n && p(p(i)) == i);
                    if p(i) == last {
                        assert(p(p(i)) == last);
                    }
                }
            }
            lemma_sum_involution(h, p, (n - 1) as nat);
            assert(sum_to(hp, n) == sum_to(hp, (n - 1) as nat) + h(p(last)));
        } else {
            let k = p(last);
            let q = |i: int| if i == k { k } else { p(i) };
            assert(involution_on(q, (n - 1) as nat)) by {
                assert forall|i: int| 0 <= i < n - 1 implies 0 <= #[trigger] q(i) < n - 1 && q(q(i))
                    == i by {
                    assert(0 <= p(i) < n && p(p(i)) == i);
                    if i != k {
                        if p(i) == last {
                            assert(p(p(i)) == k);
                        }
                        if p(i) == k {
                            assert(p(p(i)) == last);
                        }
                    }
                }
            }
            lemma_sum_involution(h, q, (n - 1) as nat);
            let hq = |i: int| h(q(i));
            lemma_sum_one_change(hp, hq, (n - 1) as nat, k);
            assert(hp(k) == h(last));
            assert(hq(k) == h(k));
            assert(sum_to(hp, n) == sum_to(hp, (n - 1) as nat) + h(k));
        }
    }
}

/// Coefficient `t` of the trace of the stored matrix.
pub open spec fn trace_coef(m: Density, t: int) -> int {
    sum_to(|i: int| m.cells[i][i][t], m.cells.len())
}

/// The density matrix has trace 1: its diagonal adds up to the amplitude
/// `2^scale`, so that the outcome probabilities sum to 1.
pub open spec fn unit_trace(m: Density) -> bool {
    &&& trace_coef(m, 0) == pow2(m.scale)
    &&& forall|t: int| 1 <= t < COEFFS ==> #[trigger] trace_coef(m, t) == 0
}

proof fn lemma_sum_single(h: spec_fn(int) -> int, n: nat)
    requires
        n >= 1,
        forall|i: int| 0 < i < n ==> #[trigger] h(i) == 0,
    ensures
        sum_to(h, n) == h(0),
    decreases n,
{
    if n > 1 {
        lemma_sum_single(h, (n - 1) as nat);
    } else {
        assert(sum_to(h, 0) == 0);
    }
}

/// A new register has trace 1.
pub proof fn lemma_ground_trace(n: nat)
    requires
        1 <= n <= MAX_QUBITS,
    ensures
        unit_trace(ground(n)),
{
    let m = ground(n);
    lemma_dim(n as usize);
    assert forall|t: int| 0 <= t < COEFFS implies #[trigger] trace_coef(m, t) == if t == 0 {
        1int
    } else {
        0int
    } by {
        lemma_sum_single(|i: int| m.cells[i][i][t], m.cells.len());
    }
    assert(pow2(0) == 1) by {
        vstd::arithmetic::power2::lemma2_to64();
    }
}

/// A gate other than Hadamard keeps the diagonal up to a permutation.
proof fn lemma_monomial_trace(m: Density, g: Gate, t: int)
    requires
        density_wf(m),
        gate_fits(g, m.qubits),
        0 <= t < COEFFS,
    ensures
        trace_coef(monomial(m, g), t) == trace_coef(m, t),
{
    let n = m.qubits as usize;
    lemma_dim(n);
    let d = m.cells.len();
    let h = |i: int| m.cells[i][i][t];
    let p = |i: int| source_index(g, i as usize) as int;
    let mm = monomial(m, g);
    assert(involution_on(p, d)) by {
        assert forall|i: int| 0 <= i < d implies 0 <= #[trigger] p(i) < d && p(p(i)) == i by {
            lemma_source(g, i as usize, n);
        }
    }
    lemma_sum_involution(h, p, d);
    assert forall|i: int| 0 <= i < d implies #[trigger] mm.cells[i][i][t] == h(p(i)) by {
        assert(rot_coef(m.cells[p(i)][p(i)], 0, t) == m.cells[p(i)][p(i)][t]);
    }
    lemma_sum_congruent(|i: int| mm.cells[i][i][t], |i: int| h(p(i)), d);
}

/// A Hadamard doubles the stored trace (and the scale grows by one).
proof fn lemma_hadamard_trace(m: Density, q: usize, t: int)
    requires
        density_wf(m),
        q < m.qubits,
        0 <= t < COEFFS,
    ensures
        trace_coef(hadamard(m, q), t) == 2 * trace_coef(m, t),
{
    let n = m.qubits as usize;
    lemma_dim(n);
    let d = m.cells.len();
    let f = |i: int| flip(i as usize, q) as int;
    let a = |i: int| m.cells[i][i][t];
    let e = |i: int| a(f(i));
    let g = |i: int|
        signed(bit(i as usize, q), m.cells[i][f(i)][t]) + signed(
            bit(i as usize, q),
            m.cells[f(i)][i][t],
        );
    let hm = hadamard(m, q);
    assert(involution_on(f, d)) by {
        assert forall|i: int| 0 <= i < d implies 0 <= #[trigger] f(i) < d && f(f(i)) == i by {
            lemma_flip(i as usize, q, n);
        }
    }
    assert forall|i: int| 0 <= i < d implies #[trigger] hm.cells[i][i][t] == a(i) + g(i) + e(i) by {
        assert(hm.cells[i][i][t] == hadamard_coef(m, q, i as usize, i as usize, t));
    }
    lemma_sum_add3(a, g, e, |i: int| hm.cells[i][i][t], d);
    lemma_sum_involution(a, f, d);
    lemma_sum_congruent(e, |i: int| a(f(i)), d);
    let gf = |i: int| g(f(i));
    assert forall|i: int| 0 <= i < d implies #[trigger] gf(i) == -g(i) by {
        lemma_flip(i as usize, q, n);
    }
    lemma_sum_neg(g, gf, d);
    lemma_sum_involution(g, f, d);
    lemma_sum_congruent(gf, |i: int| g(f(i)), d);
}

/// Every gate keeps the trace at 1.
pub proof fn lemma_step_trace(m: Density, g: Gate)
    requires
        density_wf(m),
        gate_fits(g, m.qubits),
        unit_trace(m),
    ensures
        unit_trace(step(m, g)),
{
    match g {
        Gate::Hadamard { qubit } => {
            lemma_pow2_unfold(m.scale + 1);
            assert forall|t: int| 0 <= t < COEFFS implies #[trigger] trace_coef(step(m, g), t) == 2
                * trace_coef(m, t) by {
                lemma_hadamard_trace(m, qubit, t);
            }
        },
        _ => {
            assert forall|t: int| 0 <= t < COEFFS implies #[trigger] trace_coef(step(m, g), t)
                == trace_coef(m, t) by {
                lemma_monomial_trace(m, g, t);
            }
        },
    }
}

/// Halving every term of an even-termed sum halves the sum.
pub proof fn lemma_sum_half(a: spec_fn(int) -> int, b: spec_fn(int) -> int, n: nat)
    requires
        forall|i: int| 0 <= i < n ==> #[trigger] a(i) == 2 * b(i),
    ensures
        sum_to(a, n) == 2 * sum_to(b, n),
    decreases n,
{
    if n > 0 {
        lemma_sum_half(a, b, (n - 1) as nat);
    }
}

/// Halving an all-even model keeps the trace at 1.
pub proof fn lemma_halve_trace(m: Density)
    requires
        density_wf(m),
        unit_trace(m),
        all_even(m),
        m.scale > 0,
    ensures
        unit_trace(halve(m)),
{
    let h = halve(m);
    lemma_pow2_unfold(m.scale);
    assert forall|t: int| 0 <= t < COEFFS implies #[trigger] trace_coef(m, t) == 2 * trace_coef(h, t) by {
        assert forall|i: int| 0 <= i < m.cells.len() implies #[trigger] m.cells[i][i][t] == 2 * h.cells[i][i][t] by {
            assert(m.cells[i][i][t] % 2 == 0);
        }
        lemma_sum_half(|i: int| m.cells[i][i][t], |i: int| h.cells[i][i][t], m.cells.len());
    }
    assert(h.cells.len() == m.cells.len());
    assert(pow2(m.scale) == 2 * pow2(h.scale));
    assert(trace_coef(m, 0) == 2 * trace_coef(h, 0));
    assert forall|t: int| 1 <= t < COEFFS implies #[trigger] trace_coef(h, t) == 0 by {
        assert(trace_coef(m, t) == 2 * trace_coef(h, t));
    }
}

} // verus!

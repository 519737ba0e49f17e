use quantum_core::correct::SYNDROME_LEN;
use quantum_core::error::QuantumError;
use quantum_core::measure::{parse_basis, Basis, Distribution};
use quantum_core::model::{Gate, GateKind, COEFFS, PHASE_STEPS};
use quantum_core::state::QuantumState;

/// The real value of an exact amplitude over `2^scale`.
fn real_value(coeffs: &[i64], scale: u32) -> f64 {
    let mut v = 0.0;
    for (t, c) in coeffs.iter().enumerate() {
        let angle = 2.0 * std::f64::consts::PI * (t as f64) / (PHASE_STEPS as f64);
        v += (*c as f64) * angle.cos();
    }
    v / 2f64.powi(scale as i32)
}

fn probabilities(d: &Distribution) -> Vec<f64> {
    d.values.iter().map(|c| real_value(c, d.scale)).collect()
}

fn exact(value: i64) -> Vec<i64> {
    let mut c = vec![0; COEFFS];
    c[0] = value;
    c
}

fn assert_probs(d: &Distribution, expected: &[f64]) {
    let p = probabilities(d);
    assert_eq!(p.len(), expected.len());
    for (a, b) in p.iter().zip(expected.iter()) {
        assert!((a - b).abs() < 1e-9, "{:?} != {:?}", p, expected);
    }
}

fn entries(s: &QuantumState) -> Vec<Vec<i64>> {
    let d = s.dimension();
    let mut out = Vec::new();
    for i in 0..d {
        for j in 0..d {
            out.push(s.entry(i, j));
        }
    }
    out
}

/// `a` and `b` stand for the same density matrix.
fn same_state(a: &QuantumState, b: &QuantumState) -> bool {
    let (ea, eb) = (entries(a), entries(b));
    ea.len() == eb.len()
        && ea.iter().zip(eb.iter()).all(|(x, y)| {
            x.iter().zip(y.iter()).all(|(p, q)| {
                (*p as i128) * (1i128 << b.scale()) == (*q as i128) * (1i128 << a.scale())
            })
        })
}

fn entropy(d: &Distribution) -> f64 {
    let mut e = 0.0;
    for p in probabilities(d) {
        if p > 1e-15 {
            e -= p * p.log2();
        }
    }
    e
}

#[test]
fn new_register_measures_zero() {
    for n in 1..=6 {
        let s = QuantumState::new(n).unwrap();
        assert_eq!(s.num_qubits(), n);
        assert_eq!(s.dimension(), 1 << n);
        let d = s.measure(Basis::Z).unwrap();
        assert_eq!(d.scale, 0);
        assert_eq!(d.values[0], exact(1));
        for i in 1..(1 << n) {
            assert_eq!(d.values[i], exact(0));
        }
    }
}

#[test]
fn invalid_dimension() {
    assert_eq!(QuantumState::new(0).err(), Some(QuantumError::InvalidDimension));
    assert_eq!(QuantumState::new(7).err(), Some(QuantumError::InvalidDimension));
}

#[test]
fn pauli_x_twice_is_identity() {
    let mut s = QuantumState::new(3).unwrap();
    s.apply_hadamard(1).unwrap();
    s.apply_phase_gate(1, 3).unwrap();
    let before = s.copy();
    let m0 = s.measure(Basis::Z).unwrap();
    s.apply_x(1).unwrap();
    s.apply_x(1).unwrap();
    assert_eq!(entries(&s), entries(&before));
    assert_eq!(s.measure(Basis::Z).unwrap().values, m0.values);
}

#[test]
fn hadamard_twice_is_identity() {
    let mut s = QuantumState::new(2).unwrap();
    s.apply_x(0).unwrap();
    s.apply_hadamard(1).unwrap();
    s.apply_phase_gate(1, 5).unwrap();
    let before = s.copy();
    s.apply_hadamard(0).unwrap();
    assert!(!same_state(&s, &before));
    s.apply_hadamard(0).unwrap();
    assert_eq!(s.scale(), before.scale() + 2);
    assert!(same_state(&s, &before));
}

#[test]
fn probabilities_sum_to_one() {
    let mut s = QuantumState::new(3).unwrap();
    s.apply_hadamard(0).unwrap();
    s.apply_phase_gate(0, 3).unwrap();
    s.apply_hadamard(0).unwrap();
    s.apply_cnot(0, 2).unwrap();
    s.apply_hadamard(1).unwrap();
    s.apply_controlled_phase(1, 2, 7).unwrap();
    s.apply_y(2).unwrap();
    for b in [Basis::Z, Basis::X, Basis::Y] {
        let total: f64 = probabilities(&s.measure(b).unwrap()).iter().sum();
        assert!((total - 1.0).abs() < 1e-9);
    }
}

#[test]
fn entropy_of_basis_and_uniform_states() {
    let s = QuantumState::new(3).unwrap();
    assert!(entropy(&s.measure(Basis::Z).unwrap()).abs() < 1e-9);
    for n in 1..=4 {
        let mut s = QuantumState::new(n).unwrap();
        for q in 0..n {
            s.apply_hadamard(q).unwrap();
        }
        assert!((entropy(&s.measure(Basis::Z).unwrap()) - n as f64).abs() < 1e-9);
    }
}

#[test]
fn qft_then_inverse_restores_register() {
    let mut s = QuantumState::new(4).unwrap();
    s.apply_x(0).unwrap();
    s.apply_hadamard(2).unwrap();
    s.apply_phase_gate(2, 3).unwrap();
    let before = s.copy();
    s.apply_qft(0, 4).unwrap();
    assert!(!same_state(&s, &before));
    s.apply_inverse_qft(0, 4).unwrap();
    assert!(same_state(&s, &before));
}

#[test]
fn qft_out_of_range() {
    let mut s = QuantumState::new(2).unwrap();
    assert_eq!(s.apply_qft(0, 3), Err(QuantumError::QubitIndexOutOfRange));
    assert_eq!(s.apply_qft(2, 1), Err(QuantumError::QubitIndexOutOfRange));
}

#[test]
fn hadamard_then_measure_z() {
    let mut s = QuantumState::new(1).unwrap();
    s.apply_gate(GateKind::Hadamard, 0, &vec![0]).unwrap();
    let d = s.measure(Basis::Z).unwrap();
    assert_eq!(d.scale, 1);
    assert_eq!(d.values, vec![exact(1), exact(1)]);
    assert_probs(&d, &[0.5, 0.5]);
}

#[test]
fn cnot_with_clear_control() {
    let mut s = QuantumState::new(2).unwrap();
    s.apply_cnot(0, 1).unwrap();
    assert_probs(&s.measure(Basis::Z).unwrap(), &[1.0, 0.0, 0.0, 0.0]);
}

#[test]
fn cnot_with_set_control() {
    let mut s = QuantumState::new(2).unwrap();
    s.apply_x(0).unwrap();
    s.apply_cnot(0, 1).unwrap();
    assert_probs(&s.measure(Basis::Z).unwrap(), &[0.0, 0.0, 0.0, 1.0]);
}

#[test]
fn pauli_x_then_measure_z() {
    let mut s = QuantumState::new(1).unwrap();
    s.apply_gate(GateKind::PauliX, 0, &vec![0]).unwrap();
    assert_probs(&s.measure(Basis::Z).unwrap(), &[0.0, 1.0]);
}

#[test]
fn out_of_range_target_leaves_register() {
    let mut s = QuantumState::new(2).unwrap();
    s.apply_hadamard(0).unwrap();
    let before = entries(&s);
    assert_eq!(
        s.apply_gate(GateKind::PauliX, 0, &vec![5]),
        Err(QuantumError::QubitIndexOutOfRange)
    );
    assert_eq!(entries(&s), before);
    assert_eq!(s.apply_x(2), Err(QuantumError::QubitIndexOutOfRange));
    assert_eq!(entries(&s), before);
}

#[test]
fn dimension_mismatch() {
    let mut s = QuantumState::new(2).unwrap();
    assert_eq!(
        s.apply_gate(GateKind::Cnot, 0, &vec![0]),
        Err(QuantumError::DimensionMismatch)
    );
    assert_eq!(
        s.apply_gate(GateKind::Hadamard, 0, &vec![0, 1]),
        Err(QuantumError::DimensionMismatch)
    );
    assert_eq!(s.apply_swap(1, 1), Err(QuantumError::DimensionMismatch));
    assert_eq!(s.apply(Gate::Cnot { control: 0, target: 0 }), Err(QuantumError::DimensionMismatch));
}

#[test]
fn measure_in_x_and_y() {
    let s = QuantumState::new(1).unwrap();
    assert_probs(&s.measure(Basis::X).unwrap(), &[0.5, 0.5]);
    let mut plus = QuantumState::new(1).unwrap();
    plus.apply_hadamard(0).unwrap();
    assert_probs(&plus.measure(Basis::X).unwrap(), &[1.0, 0.0]);
    // |+i> = S H |0>: certain in Y.
    plus.apply_phase_gate(0, PHASE_STEPS / 4).unwrap();
    let before = entries(&plus);
    assert_probs(&plus.measure(Basis::Y).unwrap(), &[1.0, 0.0]);
    assert_eq!(entries(&plus), before);
}

#[test]
fn basis_names() {
    assert_eq!(parse_basis("z"), Ok(Basis::Z));
    assert_eq!(parse_basis("x"), Ok(Basis::X));
    assert_eq!(parse_basis("y"), Ok(Basis::Y));
    assert_eq!(parse_basis("w"), Err(QuantumError::UnsupportedBasis));
    assert_eq!(parse_basis("zz"), Err(QuantumError::UnsupportedBasis));
}

#[test]
fn error_correction_applies_table() {
    let mut s = QuantumState::new(2).unwrap();
    s.apply_error_correction(&[true, false, false, false]).unwrap();
    assert_probs(&s.measure(Basis::Z).unwrap(), &[0.0, 1.0, 0.0, 0.0]);
    s.apply_error_correction(&[false, true, true, true]).unwrap();
    assert_probs(&s.measure(Basis::Z).unwrap(), &[0.0, 0.0, 0.0, 1.0]);
}

#[test]
fn error_correction_refusals() {
    let mut s = QuantumState::new(2).unwrap();
    assert_eq!(s.apply_error_correction(&[true]), Err(QuantumError::SyndromeLengthMismatch));
    assert_eq!(SYNDROME_LEN, 4);
    let mut one = QuantumState::new(1).unwrap();
    assert_eq!(
        one.apply_error_correction(&[false, false, true, false]),
        Err(QuantumError::QubitIndexOutOfRange)
    );
    assert_eq!(one.apply_error_correction(&[true, true, false, false]), Ok(()));
}

#[test]
fn phase_estimation_of_zero_phase() {
    let mut s = QuantumState::new(3).unwrap();
    s.phase_estimation(0, 2).unwrap();
    assert_probs(&s.measure(Basis::Z).unwrap(), &[1.0, 0.0, 0.0, 0.0, 0.0, 0.0, 0.0, 0.0]);
}

#[test]
fn phase_estimation_needs_a_target() {
    let mut s = QuantumState::new(2).unwrap();
    assert_eq!(s.phase_estimation(8, 2), Err(QuantumError::InsufficientQubits));
}

#[test]
fn phase_rotation_is_exact() {
    // Z = S S: two quarter turns make the Pauli Z.
    let mut a = QuantumState::new(1).unwrap();
    a.apply_hadamard(0).unwrap();
    let mut b = a.copy();
    a.apply_phase_gate(0, PHASE_STEPS / 4).unwrap();
    a.apply_phase_gate(0, PHASE_STEPS / 4).unwrap();
    b.apply_z(0).unwrap();
    assert_eq!(entries(&a), entries(&b));
    assert_probs(&a.measure(Basis::X).unwrap(), &[0.0, 1.0]);
}

#[test]
fn ancilla_reading_after_phase_estimation() {
    let mut s = QuantumState::new(3).unwrap();
    s.apply_x(2).unwrap();
    s.phase_estimation(0, 2).unwrap();
    let d = s.ancilla_distribution(2).unwrap();
    assert_eq!(d.values.len(), 4);
    assert_probs(&d, &[1.0, 0.0, 0.0, 0.0]);
    assert_eq!(s.ancilla_distribution(4).err(), Some(QuantumError::InsufficientQubits));
}

#[test]
fn ancilla_marginal_adds_diagonal() {
    let mut s = QuantumState::new(2).unwrap();
    s.apply_hadamard(0).unwrap();
    s.apply_hadamard(1).unwrap();
    let d = s.ancilla_distribution(1).unwrap();
    assert_eq!(d.scale, 2);
    assert_eq!(d.values, vec![exact(2), exact(2)]);
    assert_probs(&d, &[0.5, 0.5]);
    let all = s.ancilla_distribution(0).unwrap();
    assert_eq!(all.values, vec![exact(4)]);
}

#[test]
fn phase_gate_turns_off_diagonal_entry() {
    // H then a quarter turn: entry (0, 1) becomes -i / 2, entry (1, 0) i / 2.
    let mut s = QuantumState::new(1).unwrap();
    s.apply_hadamard(0).unwrap();
    s.apply_phase_gate(0, PHASE_STEPS / 4).unwrap();
    let mut minus_i = vec![0; COEFFS];
    minus_i[PHASE_STEPS / 4] = -1;
    let mut plus_i = vec![0; COEFFS];
    plus_i[PHASE_STEPS / 4] = 1;
    assert_eq!(s.entry(0, 1), minus_i);
    assert_eq!(s.entry(1, 0), plus_i);
    assert_eq!(s.entry(0, 0), exact(1));
}

#[test]
fn coefficients_overflow_without_normalizing() {
    // Each pair of Hadamards on |0><0| multiplies the stored matrix by 4.
    let mut s = QuantumState::new(1).unwrap();
    for _ in 0..63 {
        s.apply_hadamard(0).unwrap();
    }
    let before = entries(&s);
    let scale = s.scale();
    assert_eq!(s.apply_hadamard(0), Err(QuantumError::Overflow));
    assert_eq!(entries(&s), before);
    assert_eq!(s.scale(), scale);
}

#[test]
fn normalize_keeps_state_and_lowers_scale() {
    let mut s = QuantumState::new(1).unwrap();
    for _ in 0..200 {
        s.apply_hadamard(0).unwrap();
        s.normalize();
    }
    assert_eq!(s.scale(), 0);
    assert_eq!(s.entry(0, 0), exact(1));
    let mut t = QuantumState::new(2).unwrap();
    t.apply_hadamard(0).unwrap();
    t.apply_hadamard(0).unwrap();
    let before = t.copy();
    assert_eq!(t.scale(), 2);
    t.normalize();
    assert_eq!(t.scale(), 0);
    assert!(same_state(&t, &before));
    assert_probs(&t.measure(Basis::Z).unwrap(), &[1.0, 0.0, 0.0, 0.0]);
}

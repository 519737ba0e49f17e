//! Facts about basis indices and their qubit bits.
use vstd::prelude::*;
use crate::model::{bit, flip, dim_of, MAX_QUBITS};

verus! {

pub proof fn lemma_dim(n: usize)
    requires
        1 <= n <= MAX_QUBITS,
    ensures
        2 <= (1usize << n) <= 64,
        dim_of(n as nat) == (1usize << n) as nat,
{
    assert(1 <= n <= 6 ==> 2 <= (1usize << n) <= 64) by (bit_vector);
}

pub proof fn lemma_flip(i: usize, q: usize, n: usize)
    requires
        q < n <= MAX_QUBITS,
        i < (1usize << n),
    ensures
        flip(i, q) < (1usize << n),
        flip(flip(i, q), q) == i,
        bit(flip(i, q), q) == !bit(i, q),
{
    assert(q < n <= 6 && i < (1usize << n) ==> (i ^ (1usize << q)) < (1usize << n))
        by (bit_vector);
    assert((i ^ (1usize << q)) ^ (1usize << q) == i) by (bit_vector);
    assert(q < 6 ==> ((((i ^ (1usize << q)) >> q) & 1usize == 1usize) == !((i >> q) & 1usize
        == 1usize))) by (bit_vector);
}

pub proof fn lemma_flip_other(i: usize, q: usize, p: usize)
    requires
        q < MAX_QUBITS,
        p < MAX_QUBITS,
        p != q,
    ensures
        bit(flip(i, q), p) == bit(i, p),
        flip(flip(i, q), p) == flip(flip(i, p), q),
{
    assert(q < 6 && p < 6 && p != q ==> ((((i ^ (1usize << q)) >> p) & 1usize == 1usize) == ((i
        >> p) & 1usize == 1usize))) by (bit_vector);
    assert((i ^ (1usize << q)) ^ (1usize << p) == (i ^ (1usize << p)) ^ (1usize << q))
        by (bit_vector);
}

/// Whether the qubits from `k` up are all clear, for an index and for the
/// index with qubit `k` toggled.
pub proof fn lemma_low(x: usize, k: usize)
    requires
        k < MAX_QUBITS,
    ensures
        (x >> k == 0) == ((x >> ((k + 1) as usize)) == 0 && !bit(x, k)),
        (flip(x, k) >> k == 0) == ((x >> ((k + 1) as usize)) == 0 && bit(x, k)),
        x >> 0usize == x,
{
    assert(k < 6 ==> ((x >> k == 0usize) == ((x >> ((k + 1) as usize)) == 0usize && !((x >> k)
        & 1usize == 1usize)))) by (bit_vector);
    assert(k < 6 ==> (((x ^ (1usize << k)) >> k == 0usize) == ((x >> ((k + 1) as usize)) == 0usize
        && ((x >> k) & 1usize == 1usize)))) by (bit_vector);
    assert(x >> 0usize == x) by (bit_vector);
}

} // verus!

//! Fixed-length vectors and matrices of polynomials in `R_q`.

use vstd::prelude::*;

use crate::params::N;
use crate::poly::{lemma_poly_add_sub_inverse, poly_canonical, Poly};

verus! {

/// A vector of `LEN` polynomials with coefficient type `T`.
#[derive(Clone, Copy, Debug, PartialEq, Eq)]
pub struct PolyVec<T, const LEN: usize> {
    pub v: [Poly<T>; LEN],
}

/// Every polynomial of the vector is canonical modulo `m`.
pub open spec fn vec_canonical<const LEN: usize>(x: PolyVec<u32, LEN>, m: int) -> bool {
    forall|i: int| 0 <= i < LEN ==> poly_canonical(#[trigger] x.v[i], m)
}

impl<const LEN: usize> PolyVec<u32, LEN> {
    /// The zero vector.
    pub fn zero() -> (r: Self)
        ensures
            forall|i: int, j: int|
                0 <= i < LEN && 0 <= j < N ==> #[trigger] r.v[i].coeffs[j] == 0,
    {
        let z = Poly::<u32>::zero();
        PolyVec { v: [z; LEN] }
    }

    /// Element-wise vector addition modulo `modulus`.
    pub fn add(&self, other: &Self, modulus: u32) -> (out: Self)
        requires
            0 < modulus,
            vec_canonical(*self, modulus as int),
            vec_canonical(*other, modulus as int),
        ensures
            forall|i: int, j: int|
                0 <= i < LEN && 0 <= j < N ==> #[trigger] out.v[i].coeffs[j] == (
                self.v[i].coeffs[j] as int + other.v[i].coeffs[j] as int) % (modulus as int),
            vec_canonical(out, modulus as int),
    {
        let mut out = Self::zero();
        for i in 0..LEN
            invariant
                0 < modulus,
                vec_canonical(*self, modulus as int),
                vec_canonical(*other, modulus as int),
                forall|k: int, j: int|
                    0 <= k < i && 0 <= j < N ==> #[trigger] out.v[k].coeffs[j] == (
                    self.v[k].coeffs[j] as int + other.v[k].coeffs[j] as int) % (modulus as int),
                forall|k: int| 0 <= k < i ==> poly_canonical(#[trigger] out.v[k], modulus as int),
        {
            out.v[i] = self.v[i].add(&other.v[i], modulus);
        }
        out
    }

    /// Element-wise vector subtraction modulo `modulus`.
    pub fn sub(&self, other: &Self, modulus: u32) -> (out: Self)
        requires
            0 < modulus,
            vec_canonical(*self, modulus as int),
            vec_canonical(*other, modulus as int),
        ensures
            forall|i: int, j: int|
                0 <= i < LEN && 0 <= j < N ==> #[trigger] out.v[i].coeffs[j] == (
                self.v[i].coeffs[j] as int - other.v[i].coeffs[j] as int) % (modulus as int),
            vec_canonical(out, modulus as int),
    {
        let mut out = Self::zero();
        for i in 0..LEN
            invariant
                0 < modulus,
                vec_canonical(*self, modulus as int),
                vec_canonical(*other, modulus as int),
                forall|k: int, j: int|
                    0 <= k < i && 0 <= j < N ==> #[trigger] out.v[k].coeffs[j] == (
                    self.v[k].coeffs[j] as int - other.v[k].coeffs[j] as int) % (modulus as int),
                forall|k: int| 0 <= k < i ==> poly_canonical(#[trigger] out.v[k], modulus as int),
        {
            out.v[i] = self.v[i].sub(&other.v[i], modulus);
        }
        out
    }
}

/// `(x + y) - y == x` for canonical vectors: [`PolyVec::sub`] undoes
/// [`PolyVec::add`].
pub proof fn lemma_vec_add_sub_inverse<const LEN: usize>(
    x: PolyVec<u32, LEN>,
    y: PolyVec<u32, LEN>,
    s: PolyVec<u32, LEN>,
    r: PolyVec<u32, LEN>,
    m: int,
)
    requires
        m > 0,
        vec_canonical(x, m),
        vec_canonical(y, m),
        forall|i: int, j: int|
            0 <= i < LEN && 0 <= j < N ==> #[trigger] s.v[i].coeffs[j] == (x.v[i].coeffs[j] as int
                + y.v[i].coeffs[j] as int) % m,
        forall|i: int, j: int|
            0 <= i < LEN && 0 <= j < N ==> #[trigger] r.v[i].coeffs[j] == (s.v[i].coeffs[j] as int
                - y.v[i].coeffs[j] as int) % m,
    ensures
        r == x,
{
    assert forall|i: int| 0 <= i < LEN implies #[trigger] r.v[i] == x.v[i] by {
        assert forall|j: int| 0 <= j < N implies #[trigger] s.v[i].coeffs[j] == (
        x.v[i].coeffs[j] as int + y.v[i].coeffs[j] as int) % m by {}
        assert forall|j: int| 0 <= j < N implies #[trigger] r.v[i].coeffs[j] == (
        s.v[i].coeffs[j] as int - y.v[i].coeffs[j] as int) % m by {}
        lemma_poly_add_sub_inverse(x.v[i], y.v[i], s.v[i], r.v[i], m);
    }
    assert(r.v =~= x.v);
}

impl<const LEN: usize> Default for PolyVec<u32, LEN> {
    fn default() -> (r: Self)
        ensures
            forall|i: int, j: int|
                0 <= i < LEN && 0 <= j < N ==> #[trigger] r.v[i].coeffs[j] == 0,
    {
        Self::zero()
    }
}

/// A `K x L` matrix of polynomials.
#[derive(Clone, Copy, Debug, PartialEq, Eq)]
pub struct PolyMatrix<T, const K: usize, const L: usize> {
    pub rows: [PolyVec<T, L>; K],
}

impl<const K: usize, const L: usize> PolyMatrix<u32, K, L> {
    /// The zero matrix.
    pub fn zero() -> (r: Self)
        ensures
            forall|i: int, j: int, k: int|
                0 <= i < K && 0 <= j < L && 0 <= k < N ==> #[trigger] r.rows[i].v[j].coeffs[k]
                    == 0,
    {
        let z = PolyVec::<u32, L>::zero();
        PolyMatrix { rows: [z; K] }
    }
}

impl<const K: usize, const L: usize> Default for PolyMatrix<u32, K, L> {
    fn default() -> (r: Self)
        ensures
            forall|i: int, j: int, k: int|
                0 <= i < K && 0 <= j < L && 0 <= k < N ==> #[trigger] r.rows[i].v[j].coeffs[k]
                    == 0,
    {
        Self::zero()
    }
}

} // verus!

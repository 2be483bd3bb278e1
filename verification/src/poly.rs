//! Polynomial ring `R_q = Z_q[X]/(X^N + 1)` for `N = 256`.
//!
//! `Poly<T>` is the storage type, a fixed-size array of `N`
//! coefficients. The arithmetic is provided for `T = u32` and takes
//! the modulus as a runtime value; inputs are expected canonical
//! (`< modulus`).

use vstd::arithmetic::div_mod::*;
use vstd::prelude::*;

use crate::field::mul_mod;
use crate::params::N;

verus! {

/// `(a + b) mod m` for canonical `a`, `b` and any nonzero `u32` modulus.
fn add_any(a: u32, b: u32, m: u32) -> (r: u32)
    requires
        0 < m,
        a < m,
        b < m,
    ensures
        r == (a as int + b as int) % (m as int),
        r < m,
{
    let s: u64 = a as u64 + b as u64;
    if s >= m as u64 {
        proof {
            lemma_fundamental_div_mod_converse(s as int, m as int, 1, s - m);
        }
        (s - m as u64) as u32
    } else {
        proof {
            lemma_small_mod(s as nat, m as nat);
        }
        s as u32
    }
}

/// `(a - b) mod m` for canonical `a`, `b` and any nonzero `u32` modulus.
fn sub_any(a: u32, b: u32, m: u32) -> (r: u32)
    requires
        0 < m,
        a < m,
        b < m,
    ensures
        r == (a as int - b as int) % (m as int),
        r < m,
{
    if a >= b {
        proof {
            lemma_small_mod((a - b) as nat, m as nat);
        }
        a - b
    } else {
        proof {
            lemma_fundamental_div_mod_converse(a - b, m as int, -1, a - b + m);
        }
        (a as u64 + m as u64 - b as u64) as u32
    }
}

/// A polynomial in `R_q`: `N = 256` coefficients of element type `T`.
#[derive(Clone, Copy, Debug, PartialEq, Eq)]
pub struct Poly<T> {
    pub coeffs: [T; N],
}

/// All coefficients are below `m`.
pub open spec fn poly_canonical(p: Poly<u32>, m: int) -> bool {
    forall|i: int| 0 <= i < N ==> #[trigger] p.coeffs[i] < m
}

/// Contribution of the product term `a_i * b_j` to coefficient `k` of
/// the product in `Z[X]/(X^N + 1)`.
pub open spec fn nega_term(a: Seq<u32>, b: Seq<u32>, i: int, j: int, k: int) -> int {
    if i + j == k {
        a[i] * b[j]
    } else if i + j == k + N {
        -(a[i] * b[j])
    } else {
        0
    }
}

/// Sum of the contributions of `a_i * b_j` for `j < jn`.
pub open spec fn nega_row(a: Seq<u32>, b: Seq<u32>, i: int, jn: int, k: int) -> int
    decreases jn,
{
    if jn <= 0 {
        0
    } else {
        nega_row(a, b, i, jn - 1, k) + nega_term(a, b, i, jn - 1, k)
    }
}

/// Sum of the contributions of all `a_i * b_j` with `i < iN`.
pub open spec fn nega_rows(a: Seq<u32>, b: Seq<u32>, in_: int, k: int) -> int
    decreases in_,
{
    if in_ <= 0 {
        0
    } else {
        nega_rows(a, b, in_ - 1, k) + nega_row(a, b, in_ - 1, N as int, k)
    }
}

/// Coefficient `k` of the product `a * b` in `Z[X]/(X^N + 1)` (before
/// reduction modulo `q`).
pub open spec fn negacyclic_coeff(a: Seq<u32>, b: Seq<u32>, k: int) -> int {
    nega_rows(a, b, N as int, k)
}

impl Poly<u32> {
    /// Zero polynomial.
    pub fn zero() -> (p: Self)
        ensures
            forall|i: int| 0 <= i < N ==> #[trigger] p.coeffs[i] == 0,
    {
        Poly { coeffs: [0u32; N] }
    }

    /// Coefficient-wise addition modulo `modulus`.
    pub fn add(&self, other: &Self, modulus: u32) -> (out: Self)
        requires
            0 < modulus,
            poly_canonical(*self, modulus as int),
            poly_canonical(*other, modulus as int),
        ensures
            forall|i: int|
                0 <= i < N ==> #[trigger] out.coeffs[i] == (self.coeffs[i] as int
                    + other.coeffs[i] as int) % (modulus as int),
            poly_canonical(out, modulus as int),
    {
        let mut out = Self::zero();
        for i in 0..N
            invariant
                0 < modulus,
                poly_canonical(*self, modulus as int),
                poly_canonical(*other, modulus as int),
                forall|k: int|
                    0 <= k < i ==> #[trigger] out.coeffs[k] == (self.coeffs[k] as int
                        + other.coeffs[k] as int) % (modulus as int),
                forall|k: int| 0 <= k < i ==> #[trigger] out.coeffs[k] < modulus,
        {
            out.coeffs[i] = add_any(self.coeffs[i], other.coeffs[i], modulus);
        }
        out
    }

    /// Coefficient-wise subtraction modulo `modulus`.
    pub fn sub(&self, other: &Self, modulus: u32) -> (out: Self)
        requires
            0 < modulus,
            poly_canonical(*self, modulus as int),
            poly_canonical(*other, modulus as int),
        ensures
            forall|i: int|
                0 <= i < N ==> #[trigger] out.coeffs[i] == (self.coeffs[i] as int
                    - other.coeffs[i] as int) % (modulus as int),
            poly_canonical(out, modulus as int),
    {
        let mut out = Self::zero();
        for i in 0..N
            invariant
                0 < modulus,
                poly_canonical(*self, modulus as int),
                poly_canonical(*other, modulus as int),
                forall|k: int|
                    0 <= k < i ==> #[trigger] out.coeffs[k] == (self.coeffs[k] as int
                        - other.coeffs[k] as int) % (modulus as int),
                forall|k: int| 0 <= k < i ==> #[trigger] out.coeffs[k] < modulus,
        {
            out.coeffs[i] = sub_any(self.coeffs[i], other.coeffs[i], modulus);
        }
        out
    }

    /// Schoolbook (O(N^2)) multiplication in `R_q = Z_q[X]/(X^N + 1)`:
    /// terms of degree `>= N` wrap around with a sign flip (`X^N = -1`).
    pub fn schoolbook_mul(&self, other: &Self, modulus: u32) -> (out: Self)
        requires
            0 < modulus,
            poly_canonical(*self, modulus as int),
            poly_canonical(*other, modulus as int),
        ensures
            forall|k: int|
                0 <= k < N ==> #[trigger] out.coeffs[k] == negacyclic_coeff(
                    self.coeffs@,
                    other.coeffs@,
                    k,
                ) % (modulus as int),
            poly_canonical(out, modulus as int),
    {
        let ghost a = self.coeffs@;
        let ghost b = other.coeffs@;
        let ghost m = modulus as int;
        let mut out = Self::zero();
        assert forall|k: int| 0 <= k < N implies #[trigger] out.coeffs[k] == nega_rows(a, b, 0, k)
            % m by {
            lemma_small_mod(0, m as nat);
        }
        for i in 0..N
            invariant
                0 < modulus,
                poly_canonical(*self, m),
                poly_canonical(*other, m),
                a == self.coeffs@,
                b == other.coeffs@,
                m == modulus as int,
                forall|k: int|
                    0 <= k < N ==> #[trigger] out.coeffs[k] == nega_rows(a, b, i as int, k) % m,
                poly_canonical(out, m),
        {
            for j in 0..N
                invariant
                    0 < modulus,
                    0 <= i < N,
                    poly_canonical(*self, m),
                    poly_canonical(*other, m),
                    a == self.coeffs@,
                    b == other.coeffs@,
                    m == modulus as int,
                    forall|k: int|
                        0 <= k < N ==> #[trigger] out.coeffs[k] == (nega_rows(a, b, i as int, k)
                            + nega_row(a, b, i as int, j as int, k)) % m,
                    poly_canonical(out, m),
            {
                let prod = mul_mod(self.coeffs[i], other.coeffs[j], modulus);
                let k = i + j;
                let ghost prev = out.coeffs@;
                if k < N {
                    out.coeffs[k] = add_any(out.coeffs[k], prod, modulus);
                } else {
                    out.coeffs[k - N] = sub_any(out.coeffs[k - N], prod, modulus);
                }
                proof {
                    assert forall|kk: int| 0 <= kk < N implies #[trigger] out.coeffs[kk] == (
                    nega_rows(a, b, i as int, kk) + nega_row(a, b, i as int, j + 1, kk)) % m by {
                        let base = nega_rows(a, b, i as int, kk) + nega_row(
                            a,
                            b,
                            i as int,
                            j as int,
                            kk,
                        );
                        let t = nega_term(a, b, i as int, j as int, kk);
                        assert(nega_row(a, b, i as int, j + 1, kk) == nega_row(
                            a,
                            b,
                            i as int,
                            j as int,
                            kk,
                        ) + t);
                        if (k < N && kk == k) || (k >= N && kk == k - N) {
                            let ab = a[i as int] * b[j as int];
                            lemma_add_mod_noop(base, ab, m);
                            lemma_sub_mod_noop(base, ab, m);
                            lemma_mod_twice(base, m);
                            lemma_mod_twice(ab, m);
                            if k < N {
                                assert(t == ab);
                                lemma_add_mod_noop(prev[kk] as int, prod as int, m);
                                assert(out.coeffs[kk] == (base % m + ab % m) % m);
                            } else {
                                assert(t == -ab);
                                lemma_sub_mod_noop(prev[kk] as int, prod as int, m);
                                assert(out.coeffs[kk] == (base % m - ab % m) % m);
                            }
                        } else {
                            assert(t == 0);
                            assert(out.coeffs[kk] == prev[kk]);
                        }
                    }
                }
            }
            proof {
                assert forall|kk: int| 0 <= kk < N implies #[trigger] out.coeffs[kk] == nega_rows(
                    a,
                    b,
                    i + 1,
                    kk,
                ) % m by {
                    assert(nega_rows(a, b, i + 1, kk) == nega_rows(a, b, i as int, kk) + nega_row(
                        a,
                        b,
                        i as int,
                        N as int,
                        kk,
                    ));
                }
            }
        }
        out
    }

    /// Coefficient-wise (Hadamard) multiplication modulo `modulus`.
    pub fn elementwise_mul(&self, other: &Self, modulus: u32) -> (out: Self)
        requires
            modulus > 0,
        ensures
            forall|i: int|
                0 <= i < N ==> #[trigger] out.coeffs[i] == (self.coeffs[i] as int
                    * other.coeffs[i] as int) % (modulus as int),
            poly_canonical(out, modulus as int),
    {
        let mut out = Self::zero();
        for i in 0..N
            invariant
                modulus > 0,
                forall|k: int|
                    0 <= k < i ==> #[trigger] out.coeffs[k] == (self.coeffs[k] as int
                        * other.coeffs[k] as int) % (modulus as int),
                forall|k: int| 0 <= k < i ==> #[trigger] out.coeffs[k] < modulus,
        {
            out.coeffs[i] = mul_mod(self.coeffs[i], other.coeffs[i], modulus);
        }
        out
    }
}

impl Default for Poly<u32> {
    fn default() -> (p: Self)
        ensures
            forall|i: int| 0 <= i < N ==> #[trigger] p.coeffs[i] == 0,
    {
        Self::zero()
    }
}

/// Adding then subtracting the same canonical residue gives back the
/// canonical residue started from: `(x + y) - y == x` in `Z_m`.
pub proof fn lemma_add_sub_inverse(x: int, y: int, m: int)
    requires
        m > 0,
        0 <= x < m,
        0 <= y < m,
    ensures
        (((x + y) % m) - y) % m == x,
{
    lemma_sub_mod_noop(x + y, y, m);
    lemma_mod_twice(x + y, m);
    lemma_small_mod(y as nat, m as nat);
    lemma_sub_mod_noop(x + y, y, m);
    lemma_small_mod(x as nat, m as nat);
}

/// Polynomial form of [`lemma_add_sub_inverse`]: `(a + b) - b == a` for
/// canonical `a`, `b`, the law behind `Poly::add` / `Poly::sub`.
pub proof fn lemma_poly_add_sub_inverse(a: Poly<u32>, b: Poly<u32>, s: Poly<u32>, r: Poly<u32>, m: int)
    requires
        m > 0,
        poly_canonical(a, m),
        poly_canonical(b, m),
        forall|i: int|
            0 <= i < N ==> #[trigger] s.coeffs[i] == (a.coeffs[i] as int + b.coeffs[i] as int) % m,
        forall|i: int|
            0 <= i < N ==> #[trigger] r.coeffs[i] == (s.coeffs[i] as int - b.coeffs[i] as int) % m,
    ensures
        r == a,
{
    assert forall|i: int| 0 <= i < N implies #[trigger] r.coeffs[i] == a.coeffs[i] by {
        lemma_add_sub_inverse(a.coeffs[i] as int, b.coeffs[i] as int, m);
    }
    assert(r.coeffs =~= a.coeffs);
}

} // verus!

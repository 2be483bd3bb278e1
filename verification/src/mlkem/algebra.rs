//! Algebra of the ML-KEM transform domain: MultiplyNTTs is, slot by
//! slot, the product of `Z_q[X]/(X^2 - gamma_i)` (up to the Montgomery
//! factor), so inner products of NTT-domain vectors are bilinear and the
//! fused accumulator computes the same inner product as the
//! product-by-product sum.

use vstd::arithmetic::div_mod::*;
use vstd::arithmetic::mul::*;
use vstd::prelude::*;

use crate::field::{mont_mul_spec, r_inv};
use crate::mlkem::ntt::{
    acc_spec, base_case_c0, base_case_c1, mul_ntt_spec, redc_spec, row_dot, GAMMAS_MONT,
};
use crate::mlkem::params::{N, Q};
use crate::mlkem::pke::{add_q, ntt_dot, zero_seq};
use crate::ntt_inverse::scale_mod;
use crate::sums::{
    fsum, lemma_fsum_add, lemma_fsum_ext, lemma_fsum_lin2, lemma_fsum_mod, lemma_fsum_scale,
    lemma_fsum_swap,
};

verus! {

/// The base-case modulus of slot `p`, as a field value.
pub open spec fn gam(p: int) -> int {
    GAMMAS_MONT@[p] as int * r_inv(Q as int)
}

/// Constant term of the product of slot `p` of `a` and `b` in
/// `Z_q[X]/(X^2 - gamma_p)`.
pub open spec fn pair0(a: Seq<int>, b: Seq<int>, p: int) -> int {
    a[2 * p] * b[2 * p] + gam(p) * (a[2 * p + 1] * b[2 * p + 1])
}

/// Linear term of the product of slot `p` of `a` and `b` in
/// `Z_q[X]/(X^2 - gamma_p)`.
pub open spec fn pair1(a: Seq<int>, b: Seq<int>, p: int) -> int {
    a[2 * p] * b[2 * p + 1] + a[2 * p + 1] * b[2 * p]
}

/// MultiplyNTTs on slot `p` is the ring product, times `R^-1`.
pub proof fn lemma_mul_ntt_slot(a: Seq<int>, b: Seq<int>, p: int)
    requires
        0 <= p < 128,
    ensures
        mul_ntt_spec(a, b)[2 * p] == (r_inv(Q as int) * pair0(a, b, p)) % (Q as int),
        mul_ntt_spec(a, b)[2 * p + 1] == (r_inv(Q as int) * pair1(a, b, p)) % (Q as int),
{
    let q = Q as int;
    let ri = r_inv(q);
    let a0 = a[2 * p];
    let a1 = a[2 * p + 1];
    let b0 = b[2 * p];
    let b1 = b[2 * p + 1];
    let gm = GAMMAS_MONT@[p] as int;
    assert((2 * p) / 2 == p && (2 * p) % 2 == 0);
    assert((2 * p + 1) / 2 == p && (2 * p + 1) % 2 == 1);
    assert(mul_ntt_spec(a, b)[2 * p] == base_case_c0(a0, a1, b0, b1, gm));
    assert(mul_ntt_spec(a, b)[2 * p + 1] == base_case_c1(a0, a1, b0, b1));
    let m1 = a1 * b1 * ri;
    lemma_mul_mod_noop_left(m1, gm, q);
    lemma_mul_mod_noop_left(m1 * gm, ri, q);
    lemma_mul_mod_noop_left((m1 % q) * gm, ri, q);
    lemma_add_mod_noop(a0 * b0 * ri, m1 * gm * ri, q);
    assert(a0 * b0 * ri + m1 * gm * ri == ri * pair0(a, b, p)) by (nonlinear_arith)
        requires
            m1 == a1 * b1 * ri,
            pair0(a, b, p) == a0 * b0 + (gm * ri) * (a1 * b1),
    ;
    assert((a0 * b1 + a1 * b0) * ri == ri * pair1(a, b, p)) by (nonlinear_arith)
        requires
            pair1(a, b, p) == a0 * b1 + a1 * b0,
    ;
}

/// Slot `p` of an inner product of NTT-domain vectors: the sum of the
/// ring products, times `R^-1`.
pub proof fn lemma_ntt_dot_slot(a: Seq<Seq<int>>, b: Seq<Seq<int>>, n: nat, p: int)
    requires
        0 <= p < 128,
    ensures
        ntt_dot(a, b, n)[2 * p] == (r_inv(Q as int) * fsum(n, |j: int| pair0(a[j], b[j], p))) % (
        Q as int),
        ntt_dot(a, b, n)[2 * p + 1] == (r_inv(Q as int) * fsum(n, |j: int| pair1(a[j], b[j], p)))
            % (Q as int),
    decreases n,
{
    let q = Q as int;
    let ri = r_inv(q);
    if n == 0 {
        assert(ntt_dot(a, b, 0) == zero_seq());
    } else {
        let n1 = (n - 1) as nat;
        lemma_ntt_dot_slot(a, b, n1, p);
        lemma_mul_ntt_slot(a[n1 as int], b[n1 as int], p);
        let f0 = |j: int| pair0(a[j], b[j], p);
        let f1 = |j: int| pair1(a[j], b[j], p);
        let prev = ntt_dot(a, b, n1);
        let mm = mul_ntt_spec(a[n1 as int], b[n1 as int]);
        assert(ntt_dot(a, b, n) == add_q(prev, mm));
        lemma_add_mod_noop(ri * fsum(n1, f0), ri * f0(n1 as int), q);
        assert(ri * fsum(n1, f0) + ri * f0(n1 as int) == ri * fsum(n, f0)) by (nonlinear_arith)
            requires
                fsum(n, f0) == fsum(n1, f0) + f0(n1 as int),
        ;
        lemma_add_mod_noop(ri * fsum(n1, f1), ri * f1(n1 as int), q);
        assert(ri * fsum(n1, f1) + ri * f1(n1 as int) == ri * fsum(n, f1)) by (nonlinear_arith)
            requires
                fsum(n, f1) == fsum(n1, f1) + f1(n1 as int),
        ;
    }
}

proof fn lemma_row_dot_sum(a: Seq<Seq<int>>, b: Seq<Seq<int>>, n: nat, p: int)
    ensures
        fsum(n, |j: int| pair0(a[j], b[j], p)) == row_dot(a, b, 2 * p, 2 * p, n) + gam(p) * row_dot(
            a,
            b,
            2 * p + 1,
            2 * p + 1,
            n,
        ),
        fsum(n, |j: int| pair1(a[j], b[j], p)) == row_dot(a, b, 2 * p, 2 * p + 1, n) + row_dot(
            a,
            b,
            2 * p + 1,
            2 * p,
            n,
        ),
    decreases n,
{
    if n > 0 {
        let n1 = (n - 1) as nat;
        lemma_row_dot_sum(a, b, n1, p);
        let g = gam(p);
        let r11 = row_dot(a, b, 2 * p + 1, 2 * p + 1, n1);
        let x = a[n1 as int][2 * p + 1] * b[n1 as int][2 * p + 1];
        assert(g * r11 + g * x == g * (r11 + x)) by (nonlinear_arith);
    }
}

/// The fused accumulator computes the inner product of the NTT-domain
/// vectors: `acc(a, b) == sum_j a_j o b_j`.
pub proof fn lemma_acc_is_ntt_dot(a: Seq<Seq<int>>, b: Seq<Seq<int>>, n: nat)
    ensures
        acc_spec(a, b, n) == ntt_dot(a, b, n),
{
    let q = Q as int;
    let ri = r_inv(q);
    let acc = acc_spec(a, b, n);
    let dot = ntt_dot(a, b, n);
    assert(dot.len() == N) by {
        if n > 0 {
            assert(dot == add_q(ntt_dot(a, b, (n - 1) as nat), mul_ntt_spec(a[n - 1], b[n - 1])));
        }
    }
    assert forall|c: int| 0 <= c < N implies #[trigger] acc[c] == dot[c] by {
        let p = c / 2;
        lemma_ntt_dot_slot(a, b, n, p);
        lemma_row_dot_sum(a, b, n, p);
        let r00 = row_dot(a, b, 2 * p, 2 * p, n);
        let r11 = row_dot(a, b, 2 * p + 1, 2 * p + 1, n);
        let gm = GAMMAS_MONT@[p] as int;
        if c % 2 == 0 {
            assert(c == 2 * p);
            let t = redc_spec(r11);
            lemma_mul_mod_noop_left(r11 * ri, gm, q);
            lemma_mul_mod_noop_left(r11 * ri * gm, ri, q);
            lemma_mul_mod_noop_left((t) * gm, ri, q);
            assert(mont_mul_spec(t, gm, q) == (r11 * ri * gm * ri) % q);
            lemma_add_mod_noop(r00 * ri, r11 * ri * gm * ri, q);
            assert(r00 * ri + r11 * ri * gm * ri == ri * (r00 + gam(p) * r11)) by (nonlinear_arith)
                requires
                    gam(p) == gm * ri,
            ;
        } else {
            assert(c == 2 * p + 1);
            let r01 = row_dot(a, b, 2 * p, 2 * p + 1, n);
            let r10 = row_dot(a, b, 2 * p + 1, 2 * p, n);
            assert((r01 + r10) * ri == ri * (r01 + r10)) by (nonlinear_arith);
        }
    }
    assert(acc =~= dot);
}


/// One ring product in a slot whose second factor carries the Montgomery
/// factor of an inner product.
proof fn lemma_pair_mod(s0: int, s1: int, x0: int, x1: int, d0: int, d1: int, g: int)
    requires
        x0 == (r_inv(Q as int) * d0) % (Q as int),
        x1 == (r_inv(Q as int) * d1) % (Q as int),
    ensures
        (s0 * x0 + g * (s1 * x1)) % (Q as int) == (r_inv(Q as int) * (s0 * d0 + (g * s1) * d1)) % (
        Q as int),
        (s0 * x1 + s1 * x0) % (Q as int) == (r_inv(Q as int) * (s0 * d1 + s1 * d0)) % (Q as int),
{
    let q = Q as int;
    let ri = r_inv(q);
    lemma_mul_mod_noop_right(s0, ri * d0, q);
    lemma_mul_mod_noop_right(s1, ri * d1, q);
    lemma_mul_mod_noop_right(g, s1 * x1, q);
    lemma_mul_mod_noop_right(g, s1 * (ri * d1), q);
    lemma_add_mod_noop(s0 * x0, g * (s1 * x1), q);
    lemma_add_mod_noop(s0 * (ri * d0), g * (s1 * (ri * d1)), q);
    assert(s0 * (ri * d0) == ri * (s0 * d0)) by (nonlinear_arith);
    assert(g * (s1 * (ri * d1)) == ri * ((g * s1) * d1)) by (nonlinear_arith);
    assert(ri * (s0 * d0) + ri * ((g * s1) * d1) == ri * (s0 * d0 + (g * s1) * d1))
        by (nonlinear_arith);
    lemma_mul_mod_noop_right(s0, ri * d1, q);
    lemma_mul_mod_noop_right(s1, ri * d0, q);
    lemma_add_mod_noop(s0 * x1, s1 * x0, q);
    lemma_add_mod_noop(s0 * (ri * d1), s1 * (ri * d0), q);
    assert(s0 * (ri * d1) == ri * (s0 * d1)) by (nonlinear_arith);
    assert(s1 * (ri * d0) == ri * (s1 * d0)) by (nonlinear_arith);
    assert(ri * (s0 * d1) + ri * (s1 * d0) == ri * (s0 * d1 + s1 * d0)) by (nonlinear_arith);
}

/// A product of three factors does not depend on their order.
proof fn lemma_perm3(x: int, y: int, z: int)
    ensures
        x * (y * z) == z * (y * x),
        x * (y * z) == y * (x * z),
        (x * y) * z == x * (y * z),
{
    lemma_mul_is_associative(x, y, z);
    lemma_mul_is_commutative(x, y);
    lemma_mul_is_associative(y, x, z);
    lemma_mul_is_commutative(x * y, z);
    lemma_mul_is_commutative(y, x);
    lemma_mul_is_associative(z, y, x);
    lemma_mul_is_commutative(z * y, x);
    lemma_mul_is_commutative(z, y);
}

/// Associativity and commutativity of the slot product, written out on
/// the coordinates: `s (a y) == y (a s)` in `Z[X]/(X^2 - g)`.
proof fn lemma_slot_assoc(s0: int, s1: int, a0: int, a1: int, y0: int, y1: int, g: int)
    ensures
        s0 * (a0 * y0 + g * (a1 * y1)) + (g * s1) * (a0 * y1 + a1 * y0) == y0 * (a0 * s0 + g * (a1
            * s1)) + (g * y1) * (a0 * s1 + a1 * s0),
        s0 * (a0 * y1 + a1 * y0) + s1 * (a0 * y0 + g * (a1 * y1)) == y1 * (a0 * s0 + g * (a1 * s1))
            + y0 * (a0 * s1 + a1 * s0),
{
    lemma_mul_is_distributive_add(s0, a0 * y0, g * (a1 * y1));
    lemma_perm3(s0, g, a1 * y1);
    lemma_mul_is_distributive_add(g * s1, a0 * y1, a1 * y0);
    lemma_perm3(g, s1, a0 * y1);
    lemma_perm3(g, s1, a1 * y0);
    lemma_mul_is_distributive_add(y0, a0 * s0, g * (a1 * s1));
    lemma_perm3(y0, a0, s0);
    lemma_perm3(y0, g, a1 * s1);
    lemma_perm3(y0, a1, s1);
    lemma_mul_is_distributive_add(g * y1, a0 * s1, a1 * s0);
    lemma_perm3(g, y1, a0 * s1);
    lemma_perm3(y1, a0, s1);
    lemma_perm3(g, y1, a1 * s0);
    lemma_perm3(y1, a1, s0);
    lemma_mul_is_distributive_add(s0, a0 * y1, a1 * y0);
    lemma_mul_is_distributive_add(s1, a0 * y0, g * (a1 * y1));
    lemma_perm3(s1, g, a1 * y1);
    lemma_mul_is_distributive_add(y1, a0 * s0, g * (a1 * s1));
    lemma_perm3(y1, a0, s0);
    lemma_perm3(y1, g, a1 * s1);
    lemma_perm3(y1, a1, s1);
    lemma_mul_is_distributive_add(y0, a0 * s1, a1 * s0);
    lemma_perm3(y0, a0, s1);
    lemma_perm3(y0, a1, s0);
}

/// Column `i` of the matrix `mat` (rows `mat[j]`, `k` of them).
pub open spec fn mat_col(mat: Seq<Seq<Seq<int>>>, i: int, k: nat) -> Seq<Seq<int>> {
    Seq::new(k, |j: int| mat[j][i])
}

/// `(r^2 x) mod q`, for the congruences of the transposition law.
pub open spec fn ri2(x: int) -> int {
    (r_inv(Q as int) * (r_inv(Q as int) * x)) % (Q as int)
}

/// Inner term of `a^T (B y)` in slot `p`, constant coefficient.
#[verifier::opaque]
pub open spec fn nest0(a: Seq<Seq<int>>, b: spec_fn(int, int) -> Seq<int>, y: Seq<Seq<int>>, p: int, i: int, j: int) -> int {
    a[i][2 * p] * pair0(b(i, j), y[j], p) + (gam(p) * a[i][2 * p + 1]) * pair1(b(i, j), y[j], p)
}

/// Inner term of `a^T (B y)` in slot `p`, linear coefficient.
#[verifier::opaque]
pub open spec fn nest1(a: Seq<Seq<int>>, b: spec_fn(int, int) -> Seq<int>, y: Seq<Seq<int>>, p: int, i: int, j: int) -> int {
    a[i][2 * p] * pair1(b(i, j), y[j], p) + a[i][2 * p + 1] * pair0(b(i, j), y[j], p)
}

/// `a^T (B y)` for the `k x k` matrix `B` given by entries.
#[verifier::opaque]
pub open spec fn nested_dot(a: Seq<Seq<int>>, b: spec_fn(int, int) -> Seq<int>, y: Seq<Seq<int>>, k: nat) -> Seq<int> {
    ntt_dot(a, Seq::new(k, |i: int| ntt_dot(Seq::new(k, |j: int| b(i, j)), y, k)), k)
}

/// Slot `p` of `a^T (B y)`: the double sum of products, times `R^-2`.
proof fn lemma_nested_slot(a: Seq<Seq<int>>, b: spec_fn(int, int) -> Seq<int>, y: Seq<Seq<int>>, k: nat, p: int)
    requires
        0 <= p < 128,
    ensures
        nested_dot(a, b, y, k)[2 * p] == ri2(fsum(k, |i: int| fsum(k, |j: int| nest0(a, b, y, p, i, j)))),
        nested_dot(a, b, y, k)[2 * p + 1] == ri2(fsum(k, |i: int| fsum(k, |j: int| nest1(a, b, y, p, i, j)))),
{
    let q = Q as int;
    let ri = r_inv(q);
    let g = gam(p);
    let inner = Seq::new(k, |i: int| ntt_dot(Seq::new(k, |j: int| b(i, j)), y, k));
    reveal(nest0);
    reveal(nest1);
    reveal(nested_dot);
    let t0 = |i: int| fsum(k, |j: int| nest0(a, b, y, p, i, j));
    let t1 = |i: int| fsum(k, |j: int| nest1(a, b, y, p, i, j));
    lemma_ntt_dot_slot(a, inner, k, p);
    let h0 = |i: int| pair0(a[i], inner[i], p);
    let h1 = |i: int| pair1(a[i], inner[i], p);
    assert forall|i: int| 0 <= i < k implies #[trigger] h0(i) % q == (ri * t0(i)) % q && h1(i) % q
        == (ri * t1(i)) % q by {
        let bi = Seq::new(k, |j: int| b(i, j));
        let f0 = |j: int| pair0(b(i, j), y[j], p);
        let f1 = |j: int| pair1(b(i, j), y[j], p);
        lemma_ntt_dot_slot(bi, y, k, p);
        lemma_fsum_ext(k, |j: int| pair0(bi[j], y[j], p), f0);
        lemma_fsum_ext(k, |j: int| pair1(bi[j], y[j], p), f1);
        lemma_pair_mod(
            a[i][2 * p],
            a[i][2 * p + 1],
            inner[i][2 * p],
            inner[i][2 * p + 1],
            fsum(k, f0),
            fsum(k, f1),
            g,
        );
        lemma_fsum_lin2(k, a[i][2 * p], g * a[i][2 * p + 1], f0, f1);
        lemma_fsum_lin2(k, a[i][2 * p], a[i][2 * p + 1], f1, f0);
        lemma_fsum_ext(
            k,
            |j: int| a[i][2 * p] * f0(j) + (g * a[i][2 * p + 1]) * f1(j),
            |j: int| nest0(a, b, y, p, i, j),
        );
        lemma_fsum_ext(
            k,
            |j: int| a[i][2 * p] * f1(j) + a[i][2 * p + 1] * f0(j),
            |j: int| nest1(a, b, y, p, i, j),
        );
        assert(g * (a[i][2 * p + 1] * inner[i][2 * p + 1]) == (g * a[i][2 * p + 1]) * inner[i][2 * p
            + 1]) by (nonlinear_arith);
    }
    assert forall|i: int| 0 <= i < k implies #[trigger] h1(i) % q == (ri * t1(i)) % q by {
        assert(h0(i) % q == (ri * t0(i)) % q);
    }
    lemma_fsum_mod(k, h0, |i: int| ri * t0(i), q);
    lemma_fsum_mod(k, h1, |i: int| ri * t1(i), q);
    lemma_fsum_scale(k, ri, t0);
    lemma_fsum_scale(k, ri, t1);
    lemma_mul_mod_noop_right(ri, fsum(k, h0), q);
    lemma_mul_mod_noop_right(ri, ri * fsum(k, t0), q);
    lemma_mul_mod_noop_right(ri, fsum(k, h1), q);
    lemma_mul_mod_noop_right(ri, ri * fsum(k, t1), q);
}

/// An inner product of NTT-domain vectors has `N` coefficients.
pub proof fn lemma_ntt_dot_len(a: Seq<Seq<int>>, b: Seq<Seq<int>>, n: nat)
    ensures
        ntt_dot(a, b, n).len() == N,
{
    if n > 0 {
        assert(ntt_dot(a, b, n) == add_q(ntt_dot(a, b, (n - 1) as nat), mul_ntt_spec(a[n - 1], b[n - 1])));
    }
}


/// An inner product of length `n` reads only the first `n` entries.
proof fn lemma_ntt_dot_prefix(a: Seq<Seq<int>>, a2: Seq<Seq<int>>, b: Seq<Seq<int>>, n: nat)
    requires
        forall|i: int| 0 <= i < n ==> #[trigger] a[i] == a2[i],
    ensures
        ntt_dot(a, b, n) == ntt_dot(a2, b, n),
    decreases n,
{
    if n > 0 {
        lemma_ntt_dot_prefix(a, a2, b, (n - 1) as nat);
        assert(a[n - 1] == a2[n - 1]);
    }
}

/// MultiplyNTTs is commutative.
pub proof fn lemma_mul_ntt_comm(a: Seq<int>, b: Seq<int>)
    ensures
        mul_ntt_spec(a, b) == mul_ntt_spec(b, a),
{
    assert forall|c: int| 0 <= c < N implies #[trigger] mul_ntt_spec(a, b)[c] == mul_ntt_spec(b, a)[c] by {
        let i = c / 2;
        lemma_mul_is_commutative(a[2 * i], b[2 * i]);
        lemma_mul_is_commutative(a[2 * i + 1], b[2 * i + 1]);
    }
    assert(mul_ntt_spec(a, b) =~= mul_ntt_spec(b, a));
}

/// The NTT-domain inner product is symmetric.
pub proof fn lemma_ntt_dot_comm(a: Seq<Seq<int>>, b: Seq<Seq<int>>, n: nat)
    ensures
        ntt_dot(a, b, n) == ntt_dot(b, a, n),
    decreases n,
{
    if n > 0 {
        lemma_ntt_dot_comm(a, b, (n - 1) as nat);
        lemma_mul_ntt_comm(a[n - 1], b[n - 1]);
    }
}

/// One term of the two double sums of the transposition law.
proof fn lemma_nest_pointwise(
    s: Seq<Seq<int>>,
    bl: spec_fn(int, int) -> Seq<int>,
    y: Seq<Seq<int>>,
    br: spec_fn(int, int) -> Seq<int>,
    p: int,
    i: int,
    j: int,
)
    requires
        bl(i, j) == br(j, i),
    ensures
        nest0(s, bl, y, p, i, j) == nest0(y, br, s, p, j, i),
        nest1(s, bl, y, p, i, j) == nest1(y, br, s, p, j, i),
{
    reveal(nest0);
    reveal(nest1);
    lemma_slot_assoc(
        s[i][2 * p],
        s[i][2 * p + 1],
        bl(i, j)[2 * p],
        bl(i, j)[2 * p + 1],
        y[j][2 * p],
        y[j][2 * p + 1],
        gam(p),
    );
}

/// Slot `p` of the transposition law.
#[verifier::spinoff_prover]
proof fn lemma_transpose_slot(
    s: Seq<Seq<int>>,
    bl: spec_fn(int, int) -> Seq<int>,
    y: Seq<Seq<int>>,
    br: spec_fn(int, int) -> Seq<int>,
    k: nat,
    p: int,
)
    requires
        0 <= p < 128,
        forall|i: int, j: int| #[trigger] bl(i, j) == br(j, i),
    ensures
        nested_dot(s, bl, y, k)[2 * p] == nested_dot(y, br, s, k)[2 * p],
        nested_dot(s, bl, y, k)[2 * p + 1] == nested_dot(y, br, s, k)[2 * p + 1],
{
    lemma_nested_slot(s, bl, y, k, p);
    lemma_nested_slot(y, br, s, k, p);
    assert forall|i: int, j: int| 0 <= i < k && 0 <= j < k implies #[trigger] nest0(s, bl, y, p, i, j)
        == nest0(y, br, s, p, j, i) by {
        lemma_nest_pointwise(s, bl, y, br, p, i, j);
    }
    assert forall|i: int, j: int| 0 <= i < k && 0 <= j < k implies #[trigger] nest1(s, bl, y, p, i, j)
        == nest1(y, br, s, p, j, i) by {
        lemma_nest_pointwise(s, bl, y, br, p, i, j);
    }
    lemma_swap_nest0(s, bl, y, br, k, p);
    lemma_swap_nest1(s, bl, y, br, k, p);
}

/// The double sums of the nest0 terms of `s^T (A^T y)` and `y^T (A s)`
/// agree.
proof fn lemma_swap_nest0(
    s: Seq<Seq<int>>,
    bl: spec_fn(int, int) -> Seq<int>,
    y: Seq<Seq<int>>,
    br: spec_fn(int, int) -> Seq<int>,
    k: nat,
    p: int,
)
    requires
        forall|i: int, j: int| 0 <= i < k && 0 <= j < k ==> #[trigger] nest0(s, bl, y, p, i, j) == nest0(
            y,
            br,
            s,
            p,
            j,
            i,
        ),
    ensures
        fsum(k, |i: int| fsum(k, |j: int| nest0(s, bl, y, p, i, j))) == fsum(
            k,
            |i: int| fsum(k, |j: int| nest0(y, br, s, p, i, j)),
        ),
{
    let h = |i: int, j: int| nest0(y, br, s, p, j, i);
    let fo = |i: int| fsum(k, |j: int| nest0(s, bl, y, p, i, j));
    let ho = |i: int| fsum(k, |j: int| h(i, j));
    assert forall|i: int| 0 <= i < k implies #[trigger] fo(i) == ho(i) by {
        lemma_fsum_ext(k, |j: int| nest0(s, bl, y, p, i, j), |j: int| h(i, j));
    }
    lemma_fsum_ext(k, fo, ho);
    lemma_fsum_swap(k, k, h);
    let o1 = |x: int| fsum(k, |i: int| h(i, x));
    let o2 = |x: int| fsum(k, |j: int| nest0(y, br, s, p, x, j));
    assert forall|x: int| 0 <= x < k implies #[trigger] o1(x) == o2(x) by {
        lemma_fsum_ext(k, |i: int| h(i, x), |j: int| nest0(y, br, s, p, x, j));
    }
    lemma_fsum_ext(k, o1, o2);
    assert((|i: int| fsum(k, |j: int| h(i, j))) =~= ho);
    assert((|j: int| fsum(k, |i: int| h(i, j))) =~= o1);
}

/// The double sums of the nest1 terms of `s^T (A^T y)` and `y^T (A s)`
/// agree.
proof fn lemma_swap_nest1(
    s: Seq<Seq<int>>,
    bl: spec_fn(int, int) -> Seq<int>,
    y: Seq<Seq<int>>,
    br: spec_fn(int, int) -> Seq<int>,
    k: nat,
    p: int,
)
    requires
        forall|i: int, j: int| 0 <= i < k && 0 <= j < k ==> #[trigger] nest1(s, bl, y, p, i, j) == nest1(
            y,
            br,
            s,
            p,
            j,
            i,
        ),
    ensures
        fsum(k, |i: int| fsum(k, |j: int| nest1(s, bl, y, p, i, j))) == fsum(
            k,
            |i: int| fsum(k, |j: int| nest1(y, br, s, p, i, j)),
        ),
{
    let h = |i: int, j: int| nest1(y, br, s, p, j, i);
    let fo = |i: int| fsum(k, |j: int| nest1(s, bl, y, p, i, j));
    let ho = |i: int| fsum(k, |j: int| h(i, j));
    assert forall|i: int| 0 <= i < k implies #[trigger] fo(i) == ho(i) by {
        lemma_fsum_ext(k, |j: int| nest1(s, bl, y, p, i, j), |j: int| h(i, j));
    }
    lemma_fsum_ext(k, fo, ho);
    lemma_fsum_swap(k, k, h);
    let o1 = |x: int| fsum(k, |i: int| h(i, x));
    let o2 = |x: int| fsum(k, |j: int| nest1(y, br, s, p, x, j));
    assert forall|x: int| 0 <= x < k implies #[trigger] o1(x) == o2(x) by {
        lemma_fsum_ext(k, |i: int| h(i, x), |j: int| nest1(y, br, s, p, x, j));
    }
    lemma_fsum_ext(k, o1, o2);
    assert((|i: int| fsum(k, |j: int| h(i, j))) =~= ho);
    assert((|j: int| fsum(k, |i: int| h(i, j))) =~= o1);
}

/// Transposition law of the NTT-domain inner products: for a `k x k`
/// matrix `A` (rows `mat[j]`), `s^T (A^T y) == (A s)^T y`.
pub proof fn lemma_transpose_dot(mat: Seq<Seq<Seq<int>>>, s: Seq<Seq<int>>, y: Seq<Seq<int>>, k: nat)
    ensures
        ntt_dot(s, Seq::new(k, |i: int| ntt_dot(mat_col(mat, i, k), y, k)), k) == ntt_dot(
            Seq::new(k, |j: int| ntt_dot(mat[j], s, k)),
            y,
            k,
        ),
{
    let bl = |i: int, j: int| mat[j][i];
    let br = |j: int, i: int| mat[j][i];
    let tv = Seq::new(k, |j: int| ntt_dot(mat[j], s, k));
    assert(Seq::new(k, |i: int| ntt_dot(mat_col(mat, i, k), y, k)) =~= Seq::new(
        k,
        |i: int| ntt_dot(Seq::new(k, |j: int| bl(i, j)), y, k),
    )) by {
        assert forall|i: int| 0 <= i < k implies mat_col(mat, i, k) =~= Seq::new(k, |j: int| bl(i, j)) by {}
    }
    assert(tv =~= Seq::new(k, |j: int| ntt_dot(Seq::new(k, |i: int| br(j, i)), s, k))) by {
        assert forall|j: int| 0 <= j < k implies #[trigger] tv[j] == ntt_dot(
            Seq::new(k, |i: int| br(j, i)),
            s,
            k,
        ) by {
            lemma_ntt_dot_prefix(mat[j], Seq::new(k, |i: int| br(j, i)), s, k);
        }
    }
    reveal(nested_dot);
    let lhs = nested_dot(s, bl, y, k);
    lemma_ntt_dot_comm(tv, y, k);
    let rhs = nested_dot(y, br, s, k);
    lemma_ntt_dot_len(s, Seq::new(k, |i: int| ntt_dot(Seq::new(k, |j: int| bl(i, j)), y, k)), k);
    lemma_ntt_dot_len(y, Seq::new(k, |j: int| ntt_dot(Seq::new(k, |i: int| br(j, i)), s, k)), k);
    assert forall|c: int| 0 <= c < N implies #[trigger] lhs[c] == rhs[c] by {
        let p = c / 2;
        lemma_transpose_slot(s, bl, y, br, k, p);
        if c % 2 == 0 {
            assert(c == 2 * p);
        } else {
            assert(c == 2 * p + 1);
        }
    }
    assert(lhs =~= rhs);
}


/// MultiplyNTTs is additive in its second factor: if `w == x + z (mod q)`
/// entrywise, then `a o w == a o x + a o z`.
pub proof fn lemma_mul_ntt_add_right(a: Seq<int>, x: Seq<int>, z: Seq<int>, w: Seq<int>)
    requires
        forall|j: int| 0 <= j < N ==> #[trigger] w[j] % (Q as int) == (x[j] + z[j]) % (Q as int),
    ensures
        mul_ntt_spec(a, w) == add_q(mul_ntt_spec(a, x), mul_ntt_spec(a, z)),
{
    let q = Q as int;
    let ri = r_inv(q);
    let lhs = mul_ntt_spec(a, w);
    let rhs = add_q(mul_ntt_spec(a, x), mul_ntt_spec(a, z));
    assert forall|c: int| 0 <= c < N implies #[trigger] lhs[c] == rhs[c] by {
        let p = c / 2;
        lemma_mul_ntt_slot(a, w, p);
        lemma_mul_ntt_slot(a, x, p);
        lemma_mul_ntt_slot(a, z, p);
        let g = gam(p);
        let a0 = a[2 * p];
        let a1 = a[2 * p + 1];
        // products with a congruent factor are congruent
        lemma_mul_mod_noop_right(a0, w[2 * p], q);
        lemma_mul_mod_noop_right(a0, x[2 * p] + z[2 * p], q);
        lemma_mul_mod_noop_right(a0, w[2 * p + 1], q);
        lemma_mul_mod_noop_right(a0, x[2 * p + 1] + z[2 * p + 1], q);
        lemma_mul_mod_noop_right(a1, w[2 * p], q);
        lemma_mul_mod_noop_right(a1, x[2 * p] + z[2 * p], q);
        lemma_mul_mod_noop_right(a1, w[2 * p + 1], q);
        lemma_mul_mod_noop_right(a1, x[2 * p + 1] + z[2 * p + 1], q);
        lemma_mul_is_distributive_add(a0, x[2 * p], z[2 * p]);
        lemma_mul_is_distributive_add(a0, x[2 * p + 1], z[2 * p + 1]);
        lemma_mul_is_distributive_add(a1, x[2 * p], z[2 * p]);
        lemma_mul_is_distributive_add(a1, x[2 * p + 1], z[2 * p + 1]);
        let pw0 = pair0(a, w, p);
        let pw1 = pair1(a, w, p);
        let px0 = pair0(a, x, p);
        let px1 = pair1(a, x, p);
        let pz0 = pair0(a, z, p);
        let pz1 = pair1(a, z, p);
        // constant term
        lemma_mul_mod_noop_right(g, a1 * w[2 * p + 1], q);
        lemma_mul_mod_noop_right(g, a1 * x[2 * p + 1] + a1 * z[2 * p + 1], q);
        lemma_mul_is_distributive_add(g, a1 * x[2 * p + 1], a1 * z[2 * p + 1]);
        lemma_add_mod_noop(a0 * w[2 * p], g * (a1 * w[2 * p + 1]), q);
        lemma_add_mod_noop(
            a0 * x[2 * p] + a0 * z[2 * p],
            g * (a1 * x[2 * p + 1]) + g * (a1 * z[2 * p + 1]),
            q,
        );
        assert(pw0 % q == (px0 + pz0) % q);
        // linear term
        lemma_add_mod_noop(a0 * w[2 * p + 1], a1 * w[2 * p], q);
        lemma_add_mod_noop(a0 * x[2 * p + 1] + a0 * z[2 * p + 1], a1 * x[2 * p] + a1 * z[2 * p], q);
        assert(pw1 % q == (px1 + pz1) % q);
        lemma_mul_mod_noop_right(ri, pw0, q);
        lemma_mul_mod_noop_right(ri, px0 + pz0, q);
        lemma_mul_is_distributive_add(ri, px0, pz0);
        lemma_add_mod_noop(ri * px0, ri * pz0, q);
        lemma_mul_mod_noop_right(ri, pw1, q);
        lemma_mul_mod_noop_right(ri, px1 + pz1, q);
        lemma_mul_is_distributive_add(ri, px1, pz1);
        lemma_add_mod_noop(ri * px1, ri * pz1, q);
        if c % 2 == 0 {
            assert(c == 2 * p);
        } else {
            assert(c == 2 * p + 1);
        }
    }
    assert(lhs =~= rhs);
}

/// MultiplyNTTs commutes with scaling its first factor: if
/// `w == r a (mod q)` entrywise, then `w o x == r (a o x)`.
pub proof fn lemma_mul_ntt_scale_left(a: Seq<int>, w: Seq<int>, x: Seq<int>, r: int)
    requires
        forall|j: int| 0 <= j < N ==> #[trigger] w[j] % (Q as int) == (r * a[j]) % (Q as int),
    ensures
        forall|c: int| 0 <= c < N ==> #[trigger] mul_ntt_spec(w, x)[c] == (r * mul_ntt_spec(a, x)[c]) % (
        Q as int),
{
    let q = Q as int;
    let ri = r_inv(q);
    assert forall|c: int| 0 <= c < N implies #[trigger] mul_ntt_spec(w, x)[c] == (r * mul_ntt_spec(a, x)[c])
        % q by {
        let p = c / 2;
        lemma_mul_ntt_slot(w, x, p);
        lemma_mul_ntt_slot(a, x, p);
        let g = gam(p);
        let x0 = x[2 * p];
        let x1 = x[2 * p + 1];
        lemma_mul_mod_noop_left(w[2 * p], x0, q);
        lemma_mul_mod_noop_left(r * a[2 * p], x0, q);
        lemma_mul_mod_noop_left(w[2 * p], x1, q);
        lemma_mul_mod_noop_left(r * a[2 * p], x1, q);
        lemma_mul_mod_noop_left(w[2 * p + 1], x1, q);
        lemma_mul_mod_noop_left(r * a[2 * p + 1], x1, q);
        lemma_mul_mod_noop_left(w[2 * p + 1], x0, q);
        lemma_mul_mod_noop_left(r * a[2 * p + 1], x0, q);
        lemma_perm3(r, a[2 * p], x0);
        lemma_perm3(r, a[2 * p], x1);
        lemma_perm3(r, a[2 * p + 1], x1);
        lemma_perm3(r, a[2 * p + 1], x0);
        lemma_mul_is_associative(r, a[2 * p], x0);
        lemma_mul_is_associative(r, a[2 * p], x1);
        lemma_mul_is_associative(r, a[2 * p + 1], x1);
        lemma_mul_is_associative(r, a[2 * p + 1], x0);
        let pw0 = pair0(w, x, p);
        let pw1 = pair1(w, x, p);
        let pa0 = pair0(a, x, p);
        let pa1 = pair1(a, x, p);
        // w0 x0 == r (a0 x0), w1 x1 == r (a1 x1), ... modulo q
        assert((w[2 * p] * x0) % q == (r * (a[2 * p] * x0)) % q);
        assert((w[2 * p + 1] * x1) % q == (r * (a[2 * p + 1] * x1)) % q);
        assert((w[2 * p] * x1) % q == (r * (a[2 * p] * x1)) % q);
        assert((w[2 * p + 1] * x0) % q == (r * (a[2 * p + 1] * x0)) % q);
        lemma_mul_mod_noop_right(g, w[2 * p + 1] * x1, q);
        lemma_mul_mod_noop_right(g, r * (a[2 * p + 1] * x1), q);
        lemma_perm3(g, r, a[2 * p + 1] * x1);
        lemma_add_mod_noop(w[2 * p] * x0, g * (w[2 * p + 1] * x1), q);
        lemma_add_mod_noop(r * (a[2 * p] * x0), r * (g * (a[2 * p + 1] * x1)), q);
        lemma_mul_is_distributive_add(r, a[2 * p] * x0, g * (a[2 * p + 1] * x1));
        assert(pw0 % q == (r * pa0) % q);
        lemma_add_mod_noop(w[2 * p] * x1, w[2 * p + 1] * x0, q);
        lemma_add_mod_noop(r * (a[2 * p] * x1), r * (a[2 * p + 1] * x0), q);
        lemma_mul_is_distributive_add(r, a[2 * p] * x1, a[2 * p + 1] * x0);
        assert(pw1 % q == (r * pa1) % q);
        lemma_mul_mod_noop_right(ri, pw0, q);
        lemma_mul_mod_noop_right(ri, r * pa0, q);
        lemma_perm3(ri, r, pa0);
        lemma_mul_mod_noop_right(r, ri * pa0, q);
        lemma_mul_mod_noop_right(ri, pw1, q);
        lemma_mul_mod_noop_right(ri, r * pa1, q);
        lemma_perm3(ri, r, pa1);
        lemma_mul_mod_noop_right(r, ri * pa1, q);
        if c % 2 == 0 {
            assert(c == 2 * p);
        } else {
            assert(c == 2 * p + 1);
        }
    }
}


/// Coefficient-wise addition modulo `q` may be regrouped.
pub proof fn lemma_add_q_regroup(a: Seq<int>, b: Seq<int>, c: Seq<int>, d: Seq<int>)
    ensures
        add_q(add_q(a, b), add_q(c, d)) == add_q(add_q(a, c), add_q(b, d)),
{
    let q = Q as int;
    assert forall|j: int| 0 <= j < N implies #[trigger] add_q(add_q(a, b), add_q(c, d))[j] == add_q(
        add_q(a, c),
        add_q(b, d),
    )[j] by {
        lemma_add_mod_noop(a[j] + b[j], c[j] + d[j], q);
        lemma_add_mod_noop(a[j] + c[j], b[j] + d[j], q);
    }
    assert(add_q(add_q(a, b), add_q(c, d)) =~= add_q(add_q(a, c), add_q(b, d)));
}

/// The NTT-domain inner product is additive in its second vector.
pub proof fn lemma_ntt_dot_add_right(s: Seq<Seq<int>>, x: Seq<Seq<int>>, z: Seq<Seq<int>>, w: Seq<Seq<int>>, n: nat)
    requires
        forall|i: int, j: int|
            0 <= i < n && 0 <= j < N ==> #[trigger] w[i][j] % (Q as int) == (x[i][j] + z[i][j]) % (
            Q as int),
    ensures
        ntt_dot(s, w, n) == add_q(ntt_dot(s, x, n), ntt_dot(s, z, n)),
    decreases n,
{
    if n == 0 {
        assert forall|j: int| 0 <= j < N implies #[trigger] add_q(zero_seq(), zero_seq())[j] == zero_seq()[j] by {}
        assert(add_q(zero_seq(), zero_seq()) =~= zero_seq());
    } else {
        let n1 = (n - 1) as nat;
        lemma_ntt_dot_add_right(s, x, z, w, n1);
        assert forall|j: int| 0 <= j < N implies #[trigger] w[n1 as int][j] % (Q as int) == (x[n1 as int][j]
            + z[n1 as int][j]) % (Q as int) by {}
        lemma_mul_ntt_add_right(s[n1 as int], x[n1 as int], z[n1 as int], w[n1 as int]);
        lemma_add_q_regroup(
            ntt_dot(s, x, n1),
            ntt_dot(s, z, n1),
            mul_ntt_spec(s[n1 as int], x[n1 as int]),
            mul_ntt_spec(s[n1 as int], z[n1 as int]),
        );
    }
}

/// The NTT-domain inner product commutes with scaling its first vector.
pub proof fn lemma_ntt_dot_scale_left(s: Seq<Seq<int>>, w: Seq<Seq<int>>, u: Seq<Seq<int>>, n: nat, r: int)
    requires
        forall|i: int, j: int|
            0 <= i < n && 0 <= j < N ==> #[trigger] w[i][j] % (Q as int) == (r * s[i][j]) % (Q as int),
    ensures
        ntt_dot(w, u, n) == scale_mod(r, ntt_dot(s, u, n), Q as int),
    decreases n,
{
    let q = Q as int;
    lemma_ntt_dot_len(s, u, n);
    if n == 0 {
        assert forall|j: int| 0 <= j < N implies #[trigger] scale_mod(r, zero_seq(), q)[j] == zero_seq()[j] by {}
        assert(scale_mod(r, zero_seq(), q) =~= zero_seq());
    } else {
        let n1 = (n - 1) as nat;
        lemma_ntt_dot_scale_left(s, w, u, n1, r);
        lemma_ntt_dot_len(s, u, n1);
        assert forall|j: int| 0 <= j < N implies #[trigger] w[n1 as int][j] % q == (r * s[n1 as int][j]) % q by {}
        lemma_mul_ntt_scale_left(s[n1 as int], w[n1 as int], u[n1 as int], r);
        let prev = ntt_dot(s, u, n1);
        let m = mul_ntt_spec(s[n1 as int], u[n1 as int]);
        let lhs = ntt_dot(w, u, n);
        let rhs = scale_mod(r, ntt_dot(s, u, n), q);
        assert forall|j: int| 0 <= j < N implies #[trigger] lhs[j] == rhs[j] by {
            lemma_add_mod_noop(r * prev[j], r * m[j], q);
            lemma_mul_is_distributive_add(r, prev[j], m[j]);
            lemma_mul_mod_noop_right(r, prev[j] + m[j], q);
        }
        assert(lhs =~= rhs);
    }
}

} // verus!

//! Finite sums `f(0) + ... + f(n - 1)` over spec functions, with the
//! rules the algebraic proofs of the library rely on: extensionality,
//! linearity, congruence modulo `q`, reordering of double sums.

use vstd::arithmetic::div_mod::*;
use vstd::prelude::*;

verus! {

/// `f(0) + f(1) + ... + f(n - 1)`.
pub open spec fn fsum(n: nat, f: spec_fn(int) -> int) -> int
    decreases n,
{
    if n == 0 {
        0
    } else {
        fsum((n - 1) as nat, f) + f(n - 1)
    }
}

/// Sums of pointwise-equal terms are equal.
pub proof fn lemma_fsum_ext(n: nat, f: spec_fn(int) -> int, g: spec_fn(int) -> int)
    requires
        forall|i: int| 0 <= i < n ==> #[trigger] f(i) == g(i),
    ensures
        fsum(n, f) == fsum(n, g),
    decreases n,
{
    if n > 0 {
        lemma_fsum_ext((n - 1) as nat, f, g);
    }
}

/// A sum of sums is the sum of the two sums.
pub proof fn lemma_fsum_add(n: nat, f: spec_fn(int) -> int, g: spec_fn(int) -> int)
    ensures
        fsum(n, |i: int| f(i) + g(i)) == fsum(n, f) + fsum(n, g),
    decreases n,
{
    if n > 0 {
        lemma_fsum_add((n - 1) as nat, f, g);
    }
}

/// A constant factor moves out of a sum.
pub proof fn lemma_fsum_scale(n: nat, c: int, f: spec_fn(int) -> int)
    ensures
        fsum(n, |i: int| c * f(i)) == c * fsum(n, f),
    decreases n,
{
    if n > 0 {
        lemma_fsum_scale((n - 1) as nat, c, f);
        assert(c * fsum((n - 1) as nat, f) + c * f(n - 1) == c * (fsum((n - 1) as nat, f) + f(n - 1)))
            by (nonlinear_arith);
    }
}

/// Sums of pointwise-congruent terms are congruent.
pub proof fn lemma_fsum_mod(n: nat, f: spec_fn(int) -> int, g: spec_fn(int) -> int, q: int)
    requires
        q > 0,
        forall|i: int| 0 <= i < n ==> #[trigger] f(i) % q == g(i) % q,
    ensures
        fsum(n, f) % q == fsum(n, g) % q,
    decreases n,
{
    if n > 0 {
        lemma_fsum_mod((n - 1) as nat, f, g, q);
        lemma_add_mod_noop(fsum((n - 1) as nat, f), f(n - 1), q);
        lemma_add_mod_noop(fsum((n - 1) as nat, g), g(n - 1), q);
    }
}

/// The order of a double sum does not matter.
pub proof fn lemma_fsum_swap(n: nat, m: nat, f: spec_fn(int, int) -> int)
    ensures
        fsum(n, |i: int| fsum(m, |j: int| f(i, j))) == fsum(m, |j: int| fsum(n, |i: int| f(i, j))),
    decreases n,
{
    if n > 0 {
        let n1 = (n - 1) as nat;
        lemma_fsum_swap(n1, m, f);
        let g = |j: int| fsum(n1, |i: int| f(i, j));
        let h = |j: int| f(n1 as int, j);
        let lhs_in = |j: int| fsum(n, |i: int| f(i, j));
        lemma_fsum_add(m, g, h);
        assert forall|j: int| 0 <= j < m implies #[trigger] lhs_in(j) == g(j) + h(j) by {
            assert(fsum(n, |i: int| f(i, j)) == fsum(n1, |i: int| f(i, j)) + f(n1 as int, j));
        }
        lemma_fsum_ext(m, lhs_in, |j: int| g(j) + h(j));
        let outer = |i: int| fsum(m, |j: int| f(i, j));
        assert(fsum(n, outer) == fsum(n1, outer) + outer(n1 as int));
        assert(outer(n1 as int) == fsum(m, h)) by {
            lemma_fsum_ext(m, |j: int| f(n1 as int, j), h);
        }
        assert(fsum(n1, outer) == fsum(m, g));
        assert(fsum(m, lhs_in) == fsum(m, g) + fsum(m, h));
        assert((|i: int| fsum(m, |j: int| f(i, j))) =~= outer);
        assert((|j: int| fsum(n, |i: int| f(i, j))) =~= lhs_in);
        assert(fsum(n, outer) == fsum(m, lhs_in));
        assert(fsum(n, |i: int| fsum(m, |j: int| f(i, j))) == fsum(n, outer));
        assert(fsum(m, |j: int| fsum(n, |i: int| f(i, j))) == fsum(m, lhs_in));
    } else {
        assert(fsum(m, |j: int| fsum(0, |i: int| f(i, j))) == 0) by {
            lemma_fsum_ext(m, |j: int| fsum(0, |i: int| f(i, j)), |j: int| 0);
            lemma_fsum_zero(m);
        }
    }
}

proof fn lemma_fsum_zero(m: nat)
    ensures
        fsum(m, |j: int| 0) == 0,
    decreases m,
{
    if m > 0 {
        lemma_fsum_zero((m - 1) as nat);
    }
}

/// Two weighted sums over the same range combine into one.
pub proof fn lemma_fsum_lin2(n: nat, c0: int, c1: int, f: spec_fn(int) -> int, g: spec_fn(int) -> int)
    ensures
        fsum(n, |j: int| c0 * f(j) + c1 * g(j)) == c0 * fsum(n, f) + c1 * fsum(n, g),
    decreases n,
{
    if n > 0 {
        lemma_fsum_lin2((n - 1) as nat, c0, c1, f, g);
        let a = fsum((n - 1) as nat, f);
        let b = fsum((n - 1) as nat, g);
        assert(c0 * a + c1 * b + (c0 * f(n - 1) + c1 * g(n - 1)) == c0 * (a + f(n - 1)) + c1 * (b
            + g(n - 1))) by (nonlinear_arith);
    }
}

/// A sum over `[0, a + b)` is the sum over `[0, a)` plus the sum over
/// `[a, a + b)`.
pub proof fn lemma_fsum_concat(a: nat, b: nat, f: spec_fn(int) -> int)
    ensures
        fsum(a + b, f) == fsum(a, f) + fsum(b, |i: int| f(i + a)),
    decreases b,
{
    if b > 0 {
        let b1 = (b - 1) as nat;
        lemma_fsum_concat(a, b1, f);
        assert(fsum(a + b, f) == fsum((a + b1) as nat, f) + f((a + b1) as int));
        assert(fsum(b, |i: int| f(i + a)) == fsum(b1, |i: int| f(i + a)) + f((b1 + a) as int));
    }
}

} // verus!

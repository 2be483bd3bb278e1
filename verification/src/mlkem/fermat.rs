//! Fermat's little theorem for the ML-KEM modulus: `r^(q-1) == 1 (mod q)`
//! for every `r` in `[1, q-1]`, which is what makes `r^(q-2)` the inverse
//! that decapsulation multiplies back after blinding. The proof is the
//! classical one: multiplication by `r` permutes the nonzero residues, so
//! the product of all of them picks up exactly a factor `r^(q-1)`.

use vstd::arithmetic::div_mod::*;
use vstd::arithmetic::power::pow;
use vstd::prelude::*;
use vstd::seq_lib::*;
use vstd::set_lib::*;

use crate::mlkem::params::Q;

verus! {

proof fn lemma_small_divisors(d: int)
    requires
        2 <= d <= 57,
    ensures
        3329int % d != 0,
{
    if d == 2 {
        assert(3329int % 2 == 1);
    } else if d == 3 {
        assert(3329int % 3 == 2);
    } else if d == 4 {
        assert(3329int % 4 == 1);
    } else if d == 5 {
        assert(3329int % 5 == 4);
    } else if d == 6 {
        assert(3329int % 6 == 5);
    } else if d == 7 {
        assert(3329int % 7 == 4);
    } else if d == 8 {
        assert(3329int % 8 == 1);
    } else if d == 9 {
        assert(3329int % 9 == 8);
    } else if d == 10 {
        assert(3329int % 10 == 9);
    } else if d == 11 {
        assert(3329int % 11 == 7);
    } else if d == 12 {
        assert(3329int % 12 == 5);
    } else if d == 13 {
        assert(3329int % 13 == 1);
    } else if d == 14 {
        assert(3329int % 14 == 11);
    } else if d == 15 {
        assert(3329int % 15 == 14);
    } else if d == 16 {
        assert(3329int % 16 == 1);
    } else if d == 17 {
        assert(3329int % 17 == 14);
    } else if d == 18 {
        assert(3329int % 18 == 17);
    } else if d == 19 {
        assert(3329int % 19 == 4);
    } else if d == 20 {
        assert(3329int % 20 == 9);
    } else if d == 21 {
        assert(3329int % 21 == 11);
    } else if d == 22 {
        assert(3329int % 22 == 7);
    } else if d == 23 {
        assert(3329int % 23 == 17);
    } else if d == 24 {
        assert(3329int % 24 == 17);
    } else if d == 25 {
        assert(3329int % 25 == 4);
    } else if d == 26 {
        assert(3329int % 26 == 1);
    } else if d == 27 {
        assert(3329int % 27 == 8);
    } else if d == 28 {
        assert(3329int % 28 == 25);
    } else if d == 29 {
        assert(3329int % 29 == 23);
    } else if d == 30 {
        assert(3329int % 30 == 29);
    } else if d == 31 {
        assert(3329int % 31 == 12);
    } else if d == 32 {
        assert(3329int % 32 == 1);
    } else if d == 33 {
        assert(3329int % 33 == 29);
    } else if d == 34 {
        assert(3329int % 34 == 31);
    } else if d == 35 {
        assert(3329int % 35 == 4);
    } else if d == 36 {
        assert(3329int % 36 == 17);
    } else if d == 37 {
        assert(3329int % 37 == 36);
    } else if d == 38 {
        assert(3329int % 38 == 23);
    } else if d == 39 {
        assert(3329int % 39 == 14);
    } else if d == 40 {
        assert(3329int % 40 == 9);
    } else if d == 41 {
        assert(3329int % 41 == 8);
    } else if d == 42 {
        assert(3329int % 42 == 11);
    } else if d == 43 {
        assert(3329int % 43 == 18);
    } else if d == 44 {
        assert(3329int % 44 == 29);
    } else if d == 45 {
        assert(3329int % 45 == 44);
    } else if d == 46 {
        assert(3329int % 46 == 17);
    } else if d == 47 {
        assert(3329int % 47 == 39);
    } else if d == 48 {
        assert(3329int % 48 == 17);
    } else if d == 49 {
        assert(3329int % 49 == 46);
    } else if d == 50 {
        assert(3329int % 50 == 29);
    } else if d == 51 {
        assert(3329int % 51 == 14);
    } else if d == 52 {
        assert(3329int % 52 == 1);
    } else if d == 53 {
        assert(3329int % 53 == 43);
    } else if d == 54 {
        assert(3329int % 54 == 35);
    } else if d == 55 {
        assert(3329int % 55 == 29);
    } else if d == 56 {
        assert(3329int % 56 == 25);
    } else if d == 57 {
        assert(3329int % 57 == 23);
    }
}

/// `q = 3329` is prime: no integer strictly between 1 and `q` divides it.
pub proof fn lemma_q_prime(d: int)
    requires
        1 < d < Q,
    ensures
        (Q as int) % d != 0,
{
    let q = Q as int;
    if d <= 57 {
        lemma_small_divisors(d);
    } else if q % d == 0 {
        let e = q / d;
        lemma_fundamental_div_mod(q, d);
        assert(q == d * e);
        assert(2 <= e <= 57) by (nonlinear_arith)
            requires
                q == d * e,
                58 <= d < q,
                q == 3329,
        ;
        lemma_mod_multiples_basic(d, e);
        assert(q % e == 0) by {
            assert(d * e == e * d) by (nonlinear_arith);
        }
        lemma_small_divisors(e);
    }
}

/// There are no zero divisors modulo `q`.
pub proof fn lemma_no_zero_divisors(x: int, y: int)
    requires
        1 <= x < Q,
        1 <= y < Q,
    ensures
        (x * y) % (Q as int) != 0,
    decreases x,
{
    let q = Q as int;
    if x == 1 {
        lemma_small_mod(y as nat, q as nat);
    } else {
        let qq = q / x;
        let rr = q % x;
        lemma_fundamental_div_mod(q, x);
        lemma_q_prime(x);
        lemma_mod_bound(q, x);
        lemma_no_zero_divisors(rr, y);
        if (x * y) % q == 0 {
            let t = (x * y) / q;
            lemma_fundamental_div_mod(x * y, q);
            assert(rr * y == q * (y - qq * t)) by (nonlinear_arith)
                requires
                    q == x * qq + rr,
                    x * y == q * t,
            ;
            lemma_mod_multiples_basic(y - qq * t, q);
            assert((y - qq * t) * q == q * (y - qq * t)) by (nonlinear_arith);
        }
    }
}

/// Product modulo `q`, as a fold step.
pub open spec fn mulq(b: int, x: int) -> int {
    (b * x) % (Q as int)
}

/// The nonzero residues `1, 2, ..., q - 1`.
pub open spec fn residues() -> Seq<int> {
    Seq::new((Q - 1) as nat, |i: int| i + 1)
}

/// The nonzero residues, each multiplied by `a`.
pub open spec fn scaled_residues(a: int) -> Seq<int> {
    Seq::new((Q - 1) as nat, |i: int| (a * (i + 1)) % (Q as int))
}

proof fn lemma_mulq_commutative()
    ensures
        commutative_foldl(|b: int, x: int| mulq(b, x)),
{
    let q = Q as int;
    assert forall|x: int, y: int, v: int| #[trigger] mulq(mulq(v, x), y) == mulq(mulq(v, y), x) by {
        lemma_mul_mod_noop_left(v * x, y, q);
        lemma_mul_mod_noop_left(v * y, x, q);
        assert(v * x * y == v * y * x) by (nonlinear_arith);
    }
}

/// Two sequences without duplicates and with the same elements are
/// permutations of each other.
proof fn lemma_same_set_multiset(s1: Seq<int>, s2: Seq<int>)
    requires
        s1.no_duplicates(),
        s2.no_duplicates(),
        s1.to_set() == s2.to_set(),
    ensures
        s1.to_multiset() == s2.to_multiset(),
{
    broadcast use group_to_multiset_ensures;
    s1.lemma_multiset_has_no_duplicates();
    s2.lemma_multiset_has_no_duplicates();
    assert forall|x: int| s1.to_multiset().count(x) == s2.to_multiset().count(x) by {
        assert(s1.contains(x) <==> s1.to_set().contains(x));
        assert(s2.contains(x) <==> s2.to_set().contains(x));
    }
    assert(s1.to_multiset() =~= s2.to_multiset());
}

/// Multiplying by a nonzero `a` permutes the nonzero residues.
proof fn lemma_scaled_permutes(a: int)
    requires
        1 <= a < Q,
    ensures
        scaled_residues(a).to_multiset() == residues().to_multiset(),
{
    let q = Q as int;
    let s = residues();
    let t = scaled_residues(a);
    let range = set_int_range(1, q);
    assert forall|i: int, j: int| 0 <= i < t.len() && 0 <= j < t.len() && i != j implies t[i] != t[j] by {
        let (hi, lo) = if i > j { (i, j) } else { (j, i) };
        if t[hi] == t[lo] {
            lemma_sub_mod_noop(a * (hi + 1), a * (lo + 1), q);
            assert(a * (hi + 1) - a * (lo + 1) == a * (hi - lo)) by (nonlinear_arith);
            lemma_no_zero_divisors(a, hi - lo);
        }
    }
    assert forall|i: int| 0 <= i < t.len() implies 1 <= #[trigger] t[i] < q by {
        lemma_no_zero_divisors(a, i + 1);
    }
    assert(s.no_duplicates());
    t.unique_seq_to_set();
    s.unique_seq_to_set();
    lemma_int_range(1, q);
    assert(t.to_set().subset_of(range)) by {
        assert forall|x: int| t.to_set().contains(x) implies range.contains(x) by {
            let i = t.index_of(x);
        }
    }
    assert(s.to_set().subset_of(range)) by {
        assert forall|x: int| s.to_set().contains(x) implies range.contains(x) by {
            let i = s.index_of(x);
        }
    }
    lemma_subset_equality(t.to_set(), range);
    lemma_subset_equality(s.to_set(), range);
    lemma_same_set_multiset(t, s);
}

/// The product of the first `n` scaled residues is `a^n` times the
/// product of the first `n` residues, and the latter is nonzero.
proof fn lemma_scaled_product(a: int, n: nat)
    requires
        1 <= a < Q,
        n <= Q - 1,
    ensures
        scaled_residues(a).take(n as int).fold_left(1, |b: int, x: int| mulq(b, x)) == (pow(a, n)
            * residues().take(n as int).fold_left(1, |b: int, x: int| mulq(b, x))) % (Q as int),
        1 <= residues().take(n as int).fold_left(1, |b: int, x: int| mulq(b, x)) < Q,
    decreases n,
{
    let q = Q as int;
    let f = |b: int, x: int| mulq(b, x);
    let t = scaled_residues(a).take(n as int);
    let s = residues().take(n as int);
    if n == 0 {
        assert(pow(a, 0) == 1) by {
            reveal_with_fuel(pow, 1);
        }
        lemma_small_mod(1, q as nat);
    } else {
        let n1 = (n - 1) as nat;
        lemma_scaled_product(a, n1);
        let ft = scaled_residues(a).take(n1 as int).fold_left(1, f);
        let fs = residues().take(n1 as int).fold_left(1, f);
        assert(t.drop_last() =~= scaled_residues(a).take(n1 as int));
        assert(s.drop_last() =~= residues().take(n1 as int));
        assert(t.fold_left(1, f) == mulq(ft, t.last()));
        assert(s.fold_left(1, f) == mulq(fs, s.last()));
        assert(t.last() == (a * n) % q);
        assert(s.last() == n);
        lemma_no_zero_divisors(fs, n as int);
        lemma_mod_bound(fs * n, q);
        // ft * (a n) == a^(n-1) fs * a n == a^n (fs n)   (mod q)
        assert(pow(a, n) == a * pow(a, n1)) by {
            reveal_with_fuel(pow, 2);
        }
        let pa = pow(a, n1);
        lemma_mul_mod_noop_left(pa * fs, (a * n) % q, q);
        lemma_mul_mod_noop_right(pa * fs, a * n, q);
        assert((pa * fs) * (a * n) == (a * pa) * (fs * n)) by (nonlinear_arith);
        lemma_mul_mod_noop_right(a * pa, fs * n, q);
    }
}

/// Fermat's little theorem for `q = 3329`: `a^(q-1) == 1 (mod q)` for
/// every `a` in `[1, q-1]`.
pub proof fn lemma_fermat(a: int)
    requires
        1 <= a < Q,
    ensures
        pow(a, (Q - 1) as nat) % (Q as int) == 1,
{
    let q = Q as int;
    let f = |b: int, x: int| mulq(b, x);
    lemma_scaled_permutes(a);
    lemma_mulq_commutative();
    lemma_fold_left_permutation(scaled_residues(a), residues(), f, 1);
    lemma_scaled_product(a, (Q - 1) as nat);
    assert(scaled_residues(a).take(q - 1) =~= scaled_residues(a));
    assert(residues().take(q - 1) =~= residues());
    let fs = residues().fold_left(1, f);
    let e = pow(a, (Q - 1) as nat) % q;
    lemma_mod_bound(pow(a, (Q - 1) as nat), q);
    lemma_mul_mod_noop_left(pow(a, (Q - 1) as nat), fs, q);
    assert(fs == (e * fs) % q);
    if e != 1 {
        if e == 0 {
            assert((0 * fs) % q == 0);
        } else {
            // (e - 1) fs == 0 (mod q) with both factors nonzero
            lemma_small_mod(fs as nat, q as nat);
            lemma_sub_mod_noop(e * fs, fs, q);
            assert(e * fs - fs == (e - 1) * fs) by (nonlinear_arith);
            assert(((e - 1) * fs) % q == 0);
            lemma_no_zero_divisors(e - 1, fs);
        }
    }
}

} // verus!

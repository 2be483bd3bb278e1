//! The ML-DSA NTT turns products in `R_q = Z_q[X]/(X^256 + 1)` into
//! coefficient-wise products: each Cooley-Tukey layer splits every block
//! `Z_q[X]/(X^2m - z^2)` into `Z_q[X]/(X^m - z) x Z_q[X]/(X^m + z)`, and
//! the split is compatible with multiplication (Chinese remaindering), so
//! after the last layer the product of two polynomials is the product of
//! their transforms, slot by slot.

use vstd::arithmetic::div_mod::*;
use vstd::arithmetic::mul::*;
use vstd::prelude::*;

use crate::field::{mont_mul_spec, mont_r, r_inv};
use crate::ntt::{
    as_ints, ct_layer, ct_layers, inv_ntt_spec, layer_len, lemma_block, lemma_layer_counts, mont_seq,
    ntt_spec, ZETAS_MONT,
};
use crate::ntt_inverse::{lemma_ct_layers_linear, lemma_ntt_roundtrip, scale_mod};
use crate::poly::{nega_row, nega_rows, nega_term, negacyclic_coeff};
use crate::params::{N, Q};
use crate::sums::{fsum, lemma_fsum_concat, lemma_fsum_ext, lemma_fsum_mod, lemma_fsum_scale};

verus! {

/// Coefficient `t` of `y` read modulo `X^n - w`: `y_t` for `t >= 0` and
/// `w y_(t+n)` for `-n <= t < 0`.
pub open spec fn twc(y: Seq<int>, n: int, w: int, t: int) -> int {
    if t >= 0 {
        y[t]
    } else {
        w * y[t + n]
    }
}

/// Coefficient `k` of the product of `x` and `y` in `Z[X]/(X^n - w)`.
pub open spec fn twp(x: Seq<int>, y: Seq<int>, n: int, w: int, k: int) -> int {
    fsum(n as nat, |i: int| x[i] * twc(y, n, w, k - i))
}

/// The residue of a polynomial of degree `< 2m` modulo `X^m - z`.
pub open spec fn split(x: Seq<int>, m: int, z: int) -> Seq<int> {
    Seq::new(m as nat, |i: int| x[i] + z * x[i + m])
}


/// Four sums combined into one, two of them weighted by `z`.
proof fn lemma_fsum_comb4(
    m: nat,
    f1: spec_fn(int) -> int,
    f2: spec_fn(int) -> int,
    f3: spec_fn(int) -> int,
    f4: spec_fn(int) -> int,
    z: int,
)
    ensures
        fsum(m, f1) + fsum(m, f2) + z * fsum(m, f3) + z * fsum(m, f4) == fsum(
            m,
            |i: int| f1(i) + f2(i) + z * f3(i) + z * f4(i),
        ),
    decreases m,
{
    if m > 0 {
        let m1 = (m - 1) as nat;
        lemma_fsum_comb4(m1, f1, f2, f3, f4, z);
        lemma_mul_is_distributive_add(z, fsum(m1, f3), f3(m1 as int));
        lemma_mul_is_distributive_add(z, fsum(m1, f4), f4(m1 as int));
    }
}

/// Reading a coefficient modulo `X^2m - z^2` and folding it modulo
/// `X^m - z`: the two cases of the product's split.
proof fn lemma_split_coeff(y: Seq<int>, m: int, z: int, k: int, i: int)
    requires
        0 <= k < m,
        0 <= i < m,
    ensures
        twc(y, 2 * m, z * z, k - i) + z * twc(y, 2 * m, z * z, k + m - i) == twc(split(y, m, z), m, z, k - i),
        twc(y, 2 * m, z * z, k - i - m) + z * twc(y, 2 * m, z * z, k - i) == z * twc(split(y, m, z), m, z, k - i),
{
    let w = z * z;
    let yy = split(y, m, z);
    if k - i >= 0 {
        assert(yy[k - i] == y[k - i] + z * y[k - i + m]);
        assert(twc(y, 2 * m, w, k - i - m) == w * y[k - i + m]);
        lemma_mul_is_distributive_add(z, y[k - i], z * y[k - i + m]);
        lemma_mul_is_associative(z, z, y[k - i + m]);
    } else {
        assert(yy[k - i + m] == y[k - i + m] + z * y[k - i + 2 * m]);
        assert(twc(y, 2 * m, w, k - i) == w * y[k - i + 2 * m]);
        assert(twc(y, 2 * m, w, k - i - m) == w * y[k - i + m]);
        lemma_mul_is_distributive_add(z, y[k - i + m], z * y[k - i + 2 * m]);
        lemma_mul_is_associative(z, z, y[k - i + 2 * m]);
        lemma_mul_is_distributive_add(z, z * y[k - i + m], z * (z * y[k - i + 2 * m]));
        lemma_mul_is_associative(z, z, y[k - i + m]);
        lemma_mul_is_associative(z, z, z * y[k - i + 2 * m]);
        lemma_mul_is_associative(z, w, y[k - i + 2 * m]);
        lemma_mul_is_associative(w, z, y[k - i + 2 * m]);
        lemma_mul_is_commutative(z, w);
    }
}

/// Splitting is compatible with multiplication: the residue modulo
/// `X^m - z` of a product modulo `X^2m - z^2` is the product of the
/// residues modulo `X^m - z`.
pub proof fn lemma_split_product(x: Seq<int>, y: Seq<int>, m: int, z: int, k: int)
    requires
        0 <= k < m,
    ensures
        twp(x, y, 2 * m, z * z, k) + z * twp(x, y, 2 * m, z * z, k + m) == twp(
            split(x, m, z),
            split(y, m, z),
            m,
            z,
            k,
        ),
{
    let w = z * z;
    let mm = m as nat;
    let fk = |i: int| x[i] * twc(y, 2 * m, w, k - i);
    let fkm = |i: int| x[i] * twc(y, 2 * m, w, k + m - i);
    lemma_fsum_concat(mm, mm, fk);
    lemma_fsum_concat(mm, mm, fkm);
    assert(twp(x, y, 2 * m, w, k) == fsum(mm + mm, fk));
    assert(twp(x, y, 2 * m, w, k + m) == fsum(mm + mm, fkm));
    let g1 = |i: int| fk(i + m);
    let g2 = |i: int| fkm(i + m);
    lemma_fsum_ext(mm, |i: int| fk(i + mm), g1);
    lemma_fsum_ext(mm, |i: int| fkm(i + mm), g2);
    lemma_mul_is_distributive_add(z, fsum(mm, fkm), fsum(mm, g2));
    lemma_fsum_comb4(mm, fk, g1, fkm, g2, z);
    let xx = split(x, m, z);
    let yy = split(y, m, z);
    let rhs_f = |i: int| xx[i] * twc(yy, m, z, k - i);
    assert forall|i: int| 0 <= i < mm implies #[trigger] rhs_f(i) == fk(i) + g1(i) + z * fkm(i) + z * g2(i) by {
        lemma_split_coeff(y, m, z, k, i);
        let t = twc(yy, m, z, k - i);
        let a = twc(y, 2 * m, w, k - i);
        let b = twc(y, 2 * m, w, k + m - i);
        let c = twc(y, 2 * m, w, k - i - m);
        assert(fk(i) == x[i] * a);
        assert(g1(i) == x[i + m] * c);
        assert(fkm(i) == x[i] * b);
        assert(g2(i) == x[i + m] * a);
        // x_i (a + z b) + x_(i+m) (c + z a) == (x_i + z x_(i+m)) t
        lemma_mul_is_distributive_add(x[i], a, z * b);
        lemma_mul_is_distributive_add(x[i + m], c, z * a);
        lemma_mul_is_associative(x[i], z, b);
        lemma_mul_is_commutative(x[i], z);
        lemma_mul_is_associative(z, x[i], b);
        lemma_mul_is_associative(x[i + m], z, a);
        lemma_mul_is_commutative(x[i + m], z);
        lemma_mul_is_associative(z, x[i + m], a);
        lemma_mul_is_distributive_add(t, x[i], z * x[i + m]);
        lemma_mul_is_commutative(t, x[i]);
        lemma_mul_is_commutative(t, z * x[i + m]);
        lemma_mul_is_commutative(xx[i], t);
        lemma_mul_is_associative(z, x[i + m], t);
        lemma_mul_is_commutative(x[i + m], t);
        lemma_mul_is_associative(x[i + m], z, t);
        lemma_mul_is_commutative(z * x[i + m], t);
        assert(xx[i] == x[i] + z * x[i + m]);
    }
    lemma_fsum_ext(mm, rhs_f, |i: int| fk(i) + g1(i) + z * fkm(i) + z * g2(i));
}



#[verifier::rlimit(100)]
proof fn lemma_twiddle_square_0(k: int)
    requires
        1 <= k < 32,
    ensures
        (ZETAS_MONT@[k] as int * ZETAS_MONT@[k] as int * 8265825) % 8380417 == (if k == 1 {
            4186625
        } else if k % 2 == 0 {
            ZETAS_MONT@[k / 2] as int
        } else {
            8380417 - ZETAS_MONT@[k / 2] as int
        }),
{
    if k == 1 {
        assert((ZETAS_MONT@[1] as int * ZETAS_MONT@[1] as int * 8265825) % 8380417 == 4186625);
    } else if k == 2 {
        assert((ZETAS_MONT@[2] as int * ZETAS_MONT@[2] as int * 8265825) % 8380417 == ZETAS_MONT@[1] as int);
    } else if k == 3 {
        assert((ZETAS_MONT@[3] as int * ZETAS_MONT@[3] as int * 8265825) % 8380417 == 8380417 - ZETAS_MONT@[1] as int);
    } else if k == 4 {
        assert((ZETAS_MONT@[4] as int * ZETAS_MONT@[4] as int * 8265825) % 8380417 == ZETAS_MONT@[2] as int);
    } else if k == 5 {
        assert((ZETAS_MONT@[5] as int * ZETAS_MONT@[5] as int * 8265825) % 8380417 == 8380417 - ZETAS_MONT@[2] as int);
    } else if k == 6 {
        assert((ZETAS_MONT@[6] as int * ZETAS_MONT@[6] as int * 8265825) % 8380417 == ZETAS_MONT@[3] as int);
    } else if k == 7 {
        assert((ZETAS_MONT@[7] as int * ZETAS_MONT@[7] as int * 8265825) % 8380417 == 8380417 - ZETAS_MONT@[3] as int);
    } else if k == 8 {
        assert((ZETAS_MONT@[8] as int * ZETAS_MONT@[8] as int * 8265825) % 8380417 == ZETAS_MONT@[4] as int);
    } else if k == 9 {
        assert((ZETAS_MONT@[9] as int * ZETAS_MONT@[9] as int * 8265825) % 8380417 == 8380417 - ZETAS_MONT@[4] as int);
    } else if k == 10 {
        assert((ZETAS_MONT@[10] as int * ZETAS_MONT@[10] as int * 8265825) % 8380417 == ZETAS_MONT@[5] as int);
    } else if k == 11 {
        assert((ZETAS_MONT@[11] as int * ZETAS_MONT@[11] as int * 8265825) % 8380417 == 8380417 - ZETAS_MONT@[5] as int);
    } else if k == 12 {
        assert((ZETAS_MONT@[12] as int * ZETAS_MONT@[12] as int * 8265825) % 8380417 == ZETAS_MONT@[6] as int);
    } else if k == 13 {
        assert((ZETAS_MONT@[13] as int * ZETAS_MONT@[13] as int * 8265825) % 8380417 == 8380417 - ZETAS_MONT@[6] as int);
    } else if k == 14 {
        assert((ZETAS_MONT@[14] as int * ZETAS_MONT@[14] as int * 8265825) % 8380417 == ZETAS_MONT@[7] as int);
    } else if k == 15 {
        assert((ZETAS_MONT@[15] as int * ZETAS_MONT@[15] as int * 8265825) % 8380417 == 8380417 - ZETAS_MONT@[7] as int);
    } else if k == 16 {
        assert((ZETAS_MONT@[16] as int * ZETAS_MONT@[16] as int * 8265825) % 8380417 == ZETAS_MONT@[8] as int);
    } else if k == 17 {
        assert((ZETAS_MONT@[17] as int * ZETAS_MONT@[17] as int * 8265825) % 8380417 == 8380417 - ZETAS_MONT@[8] as int);
    } else if k == 18 {
        assert((ZETAS_MONT@[18] as int * ZETAS_MONT@[18] as int * 8265825) % 8380417 == ZETAS_MONT@[9] as int);
    } else if k == 19 {
        assert((ZETAS_MONT@[19] as int * ZETAS_MONT@[19] as int * 8265825) % 8380417 == 8380417 - ZETAS_MONT@[9] as int);
    } else if k == 20 {
        assert((ZETAS_MONT@[20] as int * ZETAS_MONT@[20] as int * 8265825) % 8380417 == ZETAS_MONT@[10] as int);
    } else if k == 21 {
        assert((ZETAS_MONT@[21] as int * ZETAS_MONT@[21] as int * 8265825) % 8380417 == 8380417 - ZETAS_MONT@[10] as int);
    } else if k == 22 {
        assert((ZETAS_MONT@[22] as int * ZETAS_MONT@[22] as int * 8265825) % 8380417 == ZETAS_MONT@[11] as int);
    } else if k == 23 {
        assert((ZETAS_MONT@[23] as int * ZETAS_MONT@[23] as int * 8265825) % 8380417 == 8380417 - ZETAS_MONT@[11] as int);
    } else if k == 24 {
        assert((ZETAS_MONT@[24] as int * ZETAS_MONT@[24] as int * 8265825) % 8380417 == ZETAS_MONT@[12] as int);
    } else if k == 25 {
        assert((ZETAS_MONT@[25] as int * ZETAS_MONT@[25] as int * 8265825) % 8380417 == 8380417 - ZETAS_MONT@[12] as int);
    } else if k == 26 {
        assert((ZETAS_MONT@[26] as int * ZETAS_MONT@[26] as int * 8265825) % 8380417 == ZETAS_MONT@[13] as int);
    } else if k == 27 {
        assert((ZETAS_MONT@[27] as int * ZETAS_MONT@[27] as int * 8265825) % 8380417 == 8380417 - ZETAS_MONT@[13] as int);
    } else if k == 28 {
        assert((ZETAS_MONT@[28] as int * ZETAS_MONT@[28] as int * 8265825) % 8380417 == ZETAS_MONT@[14] as int);
    } else if k == 29 {
        assert((ZETAS_MONT@[29] as int * ZETAS_MONT@[29] as int * 8265825) % 8380417 == 8380417 - ZETAS_MONT@[14] as int);
    } else if k == 30 {
        assert((ZETAS_MONT@[30] as int * ZETAS_MONT@[30] as int * 8265825) % 8380417 == ZETAS_MONT@[15] as int);
    } else if k == 31 {
        assert((ZETAS_MONT@[31] as int * ZETAS_MONT@[31] as int * 8265825) % 8380417 == 8380417 - ZETAS_MONT@[15] as int);
    }
}

#[verifier::rlimit(100)]
proof fn lemma_twiddle_square_1(k: int)
    requires
        32 <= k < 64,
    ensures
        (ZETAS_MONT@[k] as int * ZETAS_MONT@[k] as int * 8265825) % 8380417 == (if k == 1 {
            4186625
        } else if k % 2 == 0 {
            ZETAS_MONT@[k / 2] as int
        } else {
            8380417 - ZETAS_MONT@[k / 2] as int
        }),
{
    if k == 32 {
        assert((ZETAS_MONT@[32] as int * ZETAS_MONT@[32] as int * 8265825) % 8380417 == ZETAS_MONT@[16] as int);
    } else if k == 33 {
        assert((ZETAS_MONT@[33] as int * ZETAS_MONT@[33] as int * 8265825) % 8380417 == 8380417 - ZETAS_MONT@[16] as int);
    } else if k == 34 {
        assert((ZETAS_MONT@[34] as int * ZETAS_MONT@[34] as int * 8265825) % 8380417 == ZETAS_MONT@[17] as int);
    } else if k == 35 {
        assert((ZETAS_MONT@[35] as int * ZETAS_MONT@[35] as int * 8265825) % 8380417 == 8380417 - ZETAS_MONT@[17] as int);
    } else if k == 36 {
        assert((ZETAS_MONT@[36] as int * ZETAS_MONT@[36] as int * 8265825) % 8380417 == ZETAS_MONT@[18] as int);
    } else if k == 37 {
        assert((ZETAS_MONT@[37] as int * ZETAS_MONT@[37] as int * 8265825) % 8380417 == 8380417 - ZETAS_MONT@[18] as int);
    } else if k == 38 {
        assert((ZETAS_MONT@[38] as int * ZETAS_MONT@[38] as int * 8265825) % 8380417 == ZETAS_MONT@[19] as int);
    } else if k == 39 {
        assert((ZETAS_MONT@[39] as int * ZETAS_MONT@[39] as int * 8265825) % 8380417 == 8380417 - ZETAS_MONT@[19] as int);
    } else if k == 40 {
        assert((ZETAS_MONT@[40] as int * ZETAS_MONT@[40] as int * 8265825) % 8380417 == ZETAS_MONT@[20] as int);
    } else if k == 41 {
        assert((ZETAS_MONT@[41] as int * ZETAS_MONT@[41] as int * 8265825) % 8380417 == 8380417 - ZETAS_MONT@[20] as int);
    } else if k == 42 {
        assert((ZETAS_MONT@[42] as int * ZETAS_MONT@[42] as int * 8265825) % 8380417 == ZETAS_MONT@[21] as int);
    } else if k == 43 {
        assert((ZETAS_MONT@[43] as int * ZETAS_MONT@[43] as int * 8265825) % 8380417 == 8380417 - ZETAS_MONT@[21] as int);
    } else if k == 44 {
        assert((ZETAS_MONT@[44] as int * ZETAS_MONT@[44] as int * 8265825) % 8380417 == ZETAS_MONT@[22] as int);
    } else if k == 45 {
        assert((ZETAS_MONT@[45] as int * ZETAS_MONT@[45] as int * 8265825) % 8380417 == 8380417 - ZETAS_MONT@[22] as int);
    } else if k == 46 {
        assert((ZETAS_MONT@[46] as int * ZETAS_MONT@[46] as int * 8265825) % 8380417 == ZETAS_MONT@[23] as int);
    } else if k == 47 {
        assert((ZETAS_MONT@[47] as int * ZETAS_MONT@[47] as int * 8265825) % 8380417 == 8380417 - ZETAS_MONT@[23] as int);
    } else if k == 48 {
        assert((ZETAS_MONT@[48] as int * ZETAS_MONT@[48] as int * 8265825) % 8380417 == ZETAS_MONT@[24] as int);
    } else if k == 49 {
        assert((ZETAS_MONT@[49] as int * ZETAS_MONT@[49] as int * 8265825) % 8380417 == 8380417 - ZETAS_MONT@[24] as int);
    } else if k == 50 {
        assert((ZETAS_MONT@[50] as int * ZETAS_MONT@[50] as int * 8265825) % 8380417 == ZETAS_MONT@[25] as int);
    } else if k == 51 {
        assert((ZETAS_MONT@[51] as int * ZETAS_MONT@[51] as int * 8265825) % 8380417 == 8380417 - ZETAS_MONT@[25] as int);
    } else if k == 52 {
        assert((ZETAS_MONT@[52] as int * ZETAS_MONT@[52] as int * 8265825) % 8380417 == ZETAS_MONT@[26] as int);
    } else if k == 53 {
        assert((ZETAS_MONT@[53] as int * ZETAS_MONT@[53] as int * 8265825) % 8380417 == 8380417 - ZETAS_MONT@[26] as int);
    } else if k == 54 {
        assert((ZETAS_MONT@[54] as int * ZETAS_MONT@[54] as int * 8265825) % 8380417 == ZETAS_MONT@[27] as int);
    } else if k == 55 {
        assert((ZETAS_MONT@[55] as int * ZETAS_MONT@[55] as int * 8265825) % 8380417 == 8380417 - ZETAS_MONT@[27] as int);
    } else if k == 56 {
        assert((ZETAS_MONT@[56] as int * ZETAS_MONT@[56] as int * 8265825) % 8380417 == ZETAS_MONT@[28] as int);
    } else if k == 57 {
        assert((ZETAS_MONT@[57] as int * ZETAS_MONT@[57] as int * 8265825) % 8380417 == 8380417 - ZETAS_MONT@[28] as int);
    } else if k == 58 {
        assert((ZETAS_MONT@[58] as int * ZETAS_MONT@[58] as int * 8265825) % 8380417 == ZETAS_MONT@[29] as int);
    } else if k == 59 {
        assert((ZETAS_MONT@[59] as int * ZETAS_MONT@[59] as int * 8265825) % 8380417 == 8380417 - ZETAS_MONT@[29] as int);
    } else if k == 60 {
        assert((ZETAS_MONT@[60] as int * ZETAS_MONT@[60] as int * 8265825) % 8380417 == ZETAS_MONT@[30] as int);
    } else if k == 61 {
        assert((ZETAS_MONT@[61] as int * ZETAS_MONT@[61] as int * 8265825) % 8380417 == 8380417 - ZETAS_MONT@[30] as int);
    } else if k == 62 {
        assert((ZETAS_MONT@[62] as int * ZETAS_MONT@[62] as int * 8265825) % 8380417 == ZETAS_MONT@[31] as int);
    } else if k == 63 {
        assert((ZETAS_MONT@[63] as int * ZETAS_MONT@[63] as int * 8265825) % 8380417 == 8380417 - ZETAS_MONT@[31] as int);
    }
}

#[verifier::rlimit(100)]
proof fn lemma_twiddle_square_2(k: int)
    requires
        64 <= k < 96,
    ensures
        (ZETAS_MONT@[k] as int * ZETAS_MONT@[k] as int * 8265825) % 8380417 == (if k == 1 {
            4186625
        } else if k % 2 == 0 {
            ZETAS_MONT@[k / 2] as int
        } else {
            8380417 - ZETAS_MONT@[k / 2] as int
        }),
{
    if k == 64 {
        assert((ZETAS_MONT@[64] as int * ZETAS_MONT@[64] as int * 8265825) % 8380417 == ZETAS_MONT@[32] as int);
    } else if k == 65 {
        assert((ZETAS_MONT@[65] as int * ZETAS_MONT@[65] as int * 8265825) % 8380417 == 8380417 - ZETAS_MONT@[32] as int);
    } else if k == 66 {
        assert((ZETAS_MONT@[66] as int * ZETAS_MONT@[66] as int * 8265825) % 8380417 == ZETAS_MONT@[33] as int);
    } else if k == 67 {
        assert((ZETAS_MONT@[67] as int * ZETAS_MONT@[67] as int * 8265825) % 8380417 == 8380417 - ZETAS_MONT@[33] as int);
    } else if k == 68 {
        assert((ZETAS_MONT@[68] as int * ZETAS_MONT@[68] as int * 8265825) % 8380417 == ZETAS_MONT@[34] as int);
    } else if k == 69 {
        assert((ZETAS_MONT@[69] as int * ZETAS_MONT@[69] as int * 8265825) % 8380417 == 8380417 - ZETAS_MONT@[34] as int);
    } else if k == 70 {
        assert((ZETAS_MONT@[70] as int * ZETAS_MONT@[70] as int * 8265825) % 8380417 == ZETAS_MONT@[35] as int);
    } else if k == 71 {
        assert((ZETAS_MONT@[71] as int * ZETAS_MONT@[71] as int * 8265825) % 8380417 == 8380417 - ZETAS_MONT@[35] as int);
    } else if k == 72 {
        assert((ZETAS_MONT@[72] as int * ZETAS_MONT@[72] as int * 8265825) % 8380417 == ZETAS_MONT@[36] as int);
    } else if k == 73 {
        assert((ZETAS_MONT@[73] as int * ZETAS_MONT@[73] as int * 8265825) % 8380417 == 8380417 - ZETAS_MONT@[36] as int);
    } else if k == 74 {
        assert((ZETAS_MONT@[74] as int * ZETAS_MONT@[74] as int * 8265825) % 8380417 == ZETAS_MONT@[37] as int);
    } else if k == 75 {
        assert((ZETAS_MONT@[75] as int * ZETAS_MONT@[75] as int * 8265825) % 8380417 == 8380417 - ZETAS_MONT@[37] as int);
    } else if k == 76 {
        assert((ZETAS_MONT@[76] as int * ZETAS_MONT@[76] as int * 8265825) % 8380417 == ZETAS_MONT@[38] as int);
    } else if k == 77 {
        assert((ZETAS_MONT@[77] as int * ZETAS_MONT@[77] as int * 8265825) % 8380417 == 8380417 - ZETAS_MONT@[38] as int);
    } else if k == 78 {
        assert((ZETAS_MONT@[78] as int * ZETAS_MONT@[78] as int * 8265825) % 8380417 == ZETAS_MONT@[39] as int);
    } else if k == 79 {
        assert((ZETAS_MONT@[79] as int * ZETAS_MONT@[79] as int * 8265825) % 8380417 == 8380417 - ZETAS_MONT@[39] as int);
    } else if k == 80 {
        assert((ZETAS_MONT@[80] as int * ZETAS_MONT@[80] as int * 8265825) % 8380417 == ZETAS_MONT@[40] as int);
    } else if k == 81 {
        assert((ZETAS_MONT@[81] as int * ZETAS_MONT@[81] as int * 8265825) % 8380417 == 8380417 - ZETAS_MONT@[40] as int);
    } else if k == 82 {
        assert((ZETAS_MONT@[82] as int * ZETAS_MONT@[82] as int * 8265825) % 8380417 == ZETAS_MONT@[41] as int);
    } else if k == 83 {
        assert((ZETAS_MONT@[83] as int * ZETAS_MONT@[83] as int * 8265825) % 8380417 == 8380417 - ZETAS_MONT@[41] as int);
    } else if k == 84 {
        assert((ZETAS_MONT@[84] as int * ZETAS_MONT@[84] as int * 8265825) % 8380417 == ZETAS_MONT@[42] as int);
    } else if k == 85 {
        assert((ZETAS_MONT@[85] as int * ZETAS_MONT@[85] as int * 8265825) % 8380417 == 8380417 - ZETAS_MONT@[42] as int);
    } else if k == 86 {
        assert((ZETAS_MONT@[86] as int * ZETAS_MONT@[86] as int * 8265825) % 8380417 == ZETAS_MONT@[43] as int);
    } else if k == 87 {
        assert((ZETAS_MONT@[87] as int * ZETAS_MONT@[87] as int * 8265825) % 8380417 == 8380417 - ZETAS_MONT@[43] as int);
    } else if k == 88 {
        assert((ZETAS_MONT@[88] as int * ZETAS_MONT@[88] as int * 8265825) % 8380417 == ZETAS_MONT@[44] as int);
    } else if k == 89 {
        assert((ZETAS_MONT@[89] as int * ZETAS_MONT@[89] as int * 8265825) % 8380417 == 8380417 - ZETAS_MONT@[44] as int);
    } else if k == 90 {
        assert((ZETAS_MONT@[90] as int * ZETAS_MONT@[90] as int * 8265825) % 8380417 == ZETAS_MONT@[45] as int);
    } else if k == 91 {
        assert((ZETAS_MONT@[91] as int * ZETAS_MONT@[91] as int * 8265825) % 8380417 == 8380417 - ZETAS_MONT@[45] as int);
    } else if k == 92 {
        assert((ZETAS_MONT@[92] as int * ZETAS_MONT@[92] as int * 8265825) % 8380417 == ZETAS_MONT@[46] as int);
    } else if k == 93 {
        assert((ZETAS_MONT@[93] as int * ZETAS_MONT@[93] as int * 8265825) % 8380417 == 8380417 - ZETAS_MONT@[46] as int);
    } else if k == 94 {
        assert((ZETAS_MONT@[94] as int * ZETAS_MONT@[94] as int * 8265825) % 8380417 == ZETAS_MONT@[47] as int);
    } else if k == 95 {
        assert((ZETAS_MONT@[95] as int * ZETAS_MONT@[95] as int * 8265825) % 8380417 == 8380417 - ZETAS_MONT@[47] as int);
    }
}

#[verifier::rlimit(100)]
proof fn lemma_twiddle_square_3(k: int)
    requires
        96 <= k < 128,
    ensures
        (ZETAS_MONT@[k] as int * ZETAS_MONT@[k] as int * 8265825) % 8380417 == (if k == 1 {
            4186625
        } else if k % 2 == 0 {
            ZETAS_MONT@[k / 2] as int
        } else {
            8380417 - ZETAS_MONT@[k / 2] as int
        }),
{
    if k == 96 {
        assert((ZETAS_MONT@[96] as int * ZETAS_MONT@[96] as int * 8265825) % 8380417 == ZETAS_MONT@[48] as int);
    } else if k == 97 {
        assert((ZETAS_MONT@[97] as int * ZETAS_MONT@[97] as int * 8265825) % 8380417 == 8380417 - ZETAS_MONT@[48] as int);
    } else if k == 98 {
        assert((ZETAS_MONT@[98] as int * ZETAS_MONT@[98] as int * 8265825) % 8380417 == ZETAS_MONT@[49] as int);
    } else if k == 99 {
        assert((ZETAS_MONT@[99] as int * ZETAS_MONT@[99] as int * 8265825) % 8380417 == 8380417 - ZETAS_MONT@[49] as int);
    } else if k == 100 {
        assert((ZETAS_MONT@[100] as int * ZETAS_MONT@[100] as int * 8265825) % 8380417 == ZETAS_MONT@[50] as int);
    } else if k == 101 {
        assert((ZETAS_MONT@[101] as int * ZETAS_MONT@[101] as int * 8265825) % 8380417 == 8380417 - ZETAS_MONT@[50] as int);
    } else if k == 102 {
        assert((ZETAS_MONT@[102] as int * ZETAS_MONT@[102] as int * 8265825) % 8380417 == ZETAS_MONT@[51] as int);
    } else if k == 103 {
        assert((ZETAS_MONT@[103] as int * ZETAS_MONT@[103] as int * 8265825) % 8380417 == 8380417 - ZETAS_MONT@[51] as int);
    } else if k == 104 {
        assert((ZETAS_MONT@[104] as int * ZETAS_MONT@[104] as int * 8265825) % 8380417 == ZETAS_MONT@[52] as int);
    } else if k == 105 {
        assert((ZETAS_MONT@[105] as int * ZETAS_MONT@[105] as int * 8265825) % 8380417 == 8380417 - ZETAS_MONT@[52] as int);
    } else if k == 106 {
        assert((ZETAS_MONT@[106] as int * ZETAS_MONT@[106] as int * 8265825) % 8380417 == ZETAS_MONT@[53] as int);
    } else if k == 107 {
        assert((ZETAS_MONT@[107] as int * ZETAS_MONT@[107] as int * 8265825) % 8380417 == 8380417 - ZETAS_MONT@[53] as int);
    } else if k == 108 {
        assert((ZETAS_MONT@[108] as int * ZETAS_MONT@[108] as int * 8265825) % 8380417 == ZETAS_MONT@[54] as int);
    } else if k == 109 {
        assert((ZETAS_MONT@[109] as int * ZETAS_MONT@[109] as int * 8265825) % 8380417 == 8380417 - ZETAS_MONT@[54] as int);
    } else if k == 110 {
        assert((ZETAS_MONT@[110] as int * ZETAS_MONT@[110] as int * 8265825) % 8380417 == ZETAS_MONT@[55] as int);
    } else if k == 111 {
        assert((ZETAS_MONT@[111] as int * ZETAS_MONT@[111] as int * 8265825) % 8380417 == 8380417 - ZETAS_MONT@[55] as int);
    } else if k == 112 {
        assert((ZETAS_MONT@[112] as int * ZETAS_MONT@[112] as int * 8265825) % 8380417 == ZETAS_MONT@[56] as int);
    } else if k == 113 {
        assert((ZETAS_MONT@[113] as int * ZETAS_MONT@[113] as int * 8265825) % 8380417 == 8380417 - ZETAS_MONT@[56] as int);
    } else if k == 114 {
        assert((ZETAS_MONT@[114] as int * ZETAS_MONT@[114] as int * 8265825) % 8380417 == ZETAS_MONT@[57] as int);
    } else if k == 115 {
        assert((ZETAS_MONT@[115] as int * ZETAS_MONT@[115] as int * 8265825) % 8380417 == 8380417 - ZETAS_MONT@[57] as int);
    } else if k == 116 {
        assert((ZETAS_MONT@[116] as int * ZETAS_MONT@[116] as int * 8265825) % 8380417 == ZETAS_MONT@[58] as int);
    } else if k == 117 {
        assert((ZETAS_MONT@[117] as int * ZETAS_MONT@[117] as int * 8265825) % 8380417 == 8380417 - ZETAS_MONT@[58] as int);
    } else if k == 118 {
        assert((ZETAS_MONT@[118] as int * ZETAS_MONT@[118] as int * 8265825) % 8380417 == ZETAS_MONT@[59] as int);
    } else if k == 119 {
        assert((ZETAS_MONT@[119] as int * ZETAS_MONT@[119] as int * 8265825) % 8380417 == 8380417 - ZETAS_MONT@[59] as int);
    } else if k == 120 {
        assert((ZETAS_MONT@[120] as int * ZETAS_MONT@[120] as int * 8265825) % 8380417 == ZETAS_MONT@[60] as int);
    } else if k == 121 {
        assert((ZETAS_MONT@[121] as int * ZETAS_MONT@[121] as int * 8265825) % 8380417 == 8380417 - ZETAS_MONT@[60] as int);
    } else if k == 122 {
        assert((ZETAS_MONT@[122] as int * ZETAS_MONT@[122] as int * 8265825) % 8380417 == ZETAS_MONT@[61] as int);
    } else if k == 123 {
        assert((ZETAS_MONT@[123] as int * ZETAS_MONT@[123] as int * 8265825) % 8380417 == 8380417 - ZETAS_MONT@[61] as int);
    } else if k == 124 {
        assert((ZETAS_MONT@[124] as int * ZETAS_MONT@[124] as int * 8265825) % 8380417 == ZETAS_MONT@[62] as int);
    } else if k == 125 {
        assert((ZETAS_MONT@[125] as int * ZETAS_MONT@[125] as int * 8265825) % 8380417 == 8380417 - ZETAS_MONT@[62] as int);
    } else if k == 126 {
        assert((ZETAS_MONT@[126] as int * ZETAS_MONT@[126] as int * 8265825) % 8380417 == ZETAS_MONT@[63] as int);
    } else if k == 127 {
        assert((ZETAS_MONT@[127] as int * ZETAS_MONT@[127] as int * 8265825) % 8380417 == 8380417 - ZETAS_MONT@[63] as int);
    }
}

#[verifier::rlimit(100)]
proof fn lemma_twiddle_square_4(k: int)
    requires
        128 <= k < 160,
    ensures
        (ZETAS_MONT@[k] as int * ZETAS_MONT@[k] as int * 8265825) % 8380417 == (if k == 1 {
            4186625
        } else if k % 2 == 0 {
            ZETAS_MONT@[k / 2] as int
        } else {
            8380417 - ZETAS_MONT@[k / 2] as int
        }),
{
    if k == 128 {
        assert((ZETAS_MONT@[128] as int * ZETAS_MONT@[128] as int * 8265825) % 8380417 == ZETAS_MONT@[64] as int);
    } else if k == 129 {
        assert((ZETAS_MONT@[129] as int * ZETAS_MONT@[129] as int * 8265825) % 8380417 == 8380417 - ZETAS_MONT@[64] as int);
    } else if k == 130 {
        assert((ZETAS_MONT@[130] as int * ZETAS_MONT@[130] as int * 8265825) % 8380417 == ZETAS_MONT@[65] as int);
    } else if k == 131 {
        assert((ZETAS_MONT@[131] as int * ZETAS_MONT@[131] as int * 8265825) % 8380417 == 8380417 - ZETAS_MONT@[65] as int);
    } else if k == 132 {
        assert((ZETAS_MONT@[132] as int * ZETAS_MONT@[132] as int * 8265825) % 8380417 == ZETAS_MONT@[66] as int);
    } else if k == 133 {
        assert((ZETAS_MONT@[133] as int * ZETAS_MONT@[133] as int * 8265825) % 8380417 == 8380417 - ZETAS_MONT@[66] as int);
    } else if k == 134 {
        assert((ZETAS_MONT@[134] as int * ZETAS_MONT@[134] as int * 8265825) % 8380417 == ZETAS_MONT@[67] as int);
    } else if k == 135 {
        assert((ZETAS_MONT@[135] as int * ZETAS_MONT@[135] as int * 8265825) % 8380417 == 8380417 - ZETAS_MONT@[67] as int);
    } else if k == 136 {
        assert((ZETAS_MONT@[136] as int * ZETAS_MONT@[136] as int * 8265825) % 8380417 == ZETAS_MONT@[68] as int);
    } else if k == 137 {
        assert((ZETAS_MONT@[137] as int * ZETAS_MONT@[137] as int * 8265825) % 8380417 == 8380417 - ZETAS_MONT@[68] as int);
    } else if k == 138 {
        assert((ZETAS_MONT@[138] as int * ZETAS_MONT@[138] as int * 8265825) % 8380417 == ZETAS_MONT@[69] as int);
    } else if k == 139 {
        assert((ZETAS_MONT@[139] as int * ZETAS_MONT@[139] as int * 8265825) % 8380417 == 8380417 - ZETAS_MONT@[69] as int);
    } else if k == 140 {
        assert((ZETAS_MONT@[140] as int * ZETAS_MONT@[140] as int * 8265825) % 8380417 == ZETAS_MONT@[70] as int);
    } else if k == 141 {
        assert((ZETAS_MONT@[141] as int * ZETAS_MONT@[141] as int * 8265825) % 8380417 == 8380417 - ZETAS_MONT@[70] as int);
    } else if k == 142 {
        assert((ZETAS_MONT@[142] as int * ZETAS_MONT@[142] as int * 8265825) % 8380417 == ZETAS_MONT@[71] as int);
    } else if k == 143 {
        assert((ZETAS_MONT@[143] as int * ZETAS_MONT@[143] as int * 8265825) % 8380417 == 8380417 - ZETAS_MONT@[71] as int);
    } else if k == 144 {
        assert((ZETAS_MONT@[144] as int * ZETAS_MONT@[144] as int * 8265825) % 8380417 == ZETAS_MONT@[72] as int);
    } else if k == 145 {
        assert((ZETAS_MONT@[145] as int * ZETAS_MONT@[145] as int * 8265825) % 8380417 == 8380417 - ZETAS_MONT@[72] as int);
    } else if k == 146 {
        assert((ZETAS_MONT@[146] as int * ZETAS_MONT@[146] as int * 8265825) % 8380417 == ZETAS_MONT@[73] as int);
    } else if k == 147 {
        assert((ZETAS_MONT@[147] as int * ZETAS_MONT@[147] as int * 8265825) % 8380417 == 8380417 - ZETAS_MONT@[73] as int);
    } else if k == 148 {
        assert((ZETAS_MONT@[148] as int * ZETAS_MONT@[148] as int * 8265825) % 8380417 == ZETAS_MONT@[74] as int);
    } else if k == 149 {
        assert((ZETAS_MONT@[149] as int * ZETAS_MONT@[149] as int * 8265825) % 8380417 == 8380417 - ZETAS_MONT@[74] as int);
    } else if k == 150 {
        assert((ZETAS_MONT@[150] as int * ZETAS_MONT@[150] as int * 8265825) % 8380417 == ZETAS_MONT@[75] as int);
    } else if k == 151 {
        assert((ZETAS_MONT@[151] as int * ZETAS_MONT@[151] as int * 8265825) % 8380417 == 8380417 - ZETAS_MONT@[75] as int);
    } else if k == 152 {
        assert((ZETAS_MONT@[152] as int * ZETAS_MONT@[152] as int * 8265825) % 8380417 == ZETAS_MONT@[76] as int);
    } else if k == 153 {
        assert((ZETAS_MONT@[153] as int * ZETAS_MONT@[153] as int * 8265825) % 8380417 == 8380417 - ZETAS_MONT@[76] as int);
    } else if k == 154 {
        assert((ZETAS_MONT@[154] as int * ZETAS_MONT@[154] as int * 8265825) % 8380417 == ZETAS_MONT@[77] as int);
    } else if k == 155 {
        assert((ZETAS_MONT@[155] as int * ZETAS_MONT@[155] as int * 8265825) % 8380417 == 8380417 - ZETAS_MONT@[77] as int);
    } else if k == 156 {
        assert((ZETAS_MONT@[156] as int * ZETAS_MONT@[156] as int * 8265825) % 8380417 == ZETAS_MONT@[78] as int);
    } else if k == 157 {
        assert((ZETAS_MONT@[157] as int * ZETAS_MONT@[157] as int * 8265825) % 8380417 == 8380417 - ZETAS_MONT@[78] as int);
    } else if k == 158 {
        assert((ZETAS_MONT@[158] as int * ZETAS_MONT@[158] as int * 8265825) % 8380417 == ZETAS_MONT@[79] as int);
    } else if k == 159 {
        assert((ZETAS_MONT@[159] as int * ZETAS_MONT@[159] as int * 8265825) % 8380417 == 8380417 - ZETAS_MONT@[79] as int);
    }
}

#[verifier::rlimit(100)]
proof fn lemma_twiddle_square_5(k: int)
    requires
        160 <= k < 192,
    ensures
        (ZETAS_MONT@[k] as int * ZETAS_MONT@[k] as int * 8265825) % 8380417 == (if k == 1 {
            4186625
        } else if k % 2 == 0 {
            ZETAS_MONT@[k / 2] as int
        } else {
            8380417 - ZETAS_MONT@[k / 2] as int
        }),
{
    if k == 160 {
        assert((ZETAS_MONT@[160] as int * ZETAS_MONT@[160] as int * 8265825) % 8380417 == ZETAS_MONT@[80] as int);
    } else if k == 161 {
        assert((ZETAS_MONT@[161] as int * ZETAS_MONT@[161] as int * 8265825) % 8380417 == 8380417 - ZETAS_MONT@[80] as int);
    } else if k == 162 {
        assert((ZETAS_MONT@[162] as int * ZETAS_MONT@[162] as int * 8265825) % 8380417 == ZETAS_MONT@[81] as int);
    } else if k == 163 {
        assert((ZETAS_MONT@[163] as int * ZETAS_MONT@[163] as int * 8265825) % 8380417 == 8380417 - ZETAS_MONT@[81] as int);
    } else if k == 164 {
        assert((ZETAS_MONT@[164] as int * ZETAS_MONT@[164] as int * 8265825) % 8380417 == ZETAS_MONT@[82] as int);
    } else if k == 165 {
        assert((ZETAS_MONT@[165] as int * ZETAS_MONT@[165] as int * 8265825) % 8380417 == 8380417 - ZETAS_MONT@[82] as int);
    } else if k == 166 {
        assert((ZETAS_MONT@[166] as int * ZETAS_MONT@[166] as int * 8265825) % 8380417 == ZETAS_MONT@[83] as int);
    } else if k == 167 {
        assert((ZETAS_MONT@[167] as int * ZETAS_MONT@[167] as int * 8265825) % 8380417 == 8380417 - ZETAS_MONT@[83] as int);
    } else if k == 168 {
        assert((ZETAS_MONT@[168] as int * ZETAS_MONT@[168] as int * 8265825) % 8380417 == ZETAS_MONT@[84] as int);
    } else if k == 169 {
        assert((ZETAS_MONT@[169] as int * ZETAS_MONT@[169] as int * 8265825) % 8380417 == 8380417 - ZETAS_MONT@[84] as int);
    } else if k == 170 {
        assert((ZETAS_MONT@[170] as int * ZETAS_MONT@[170] as int * 8265825) % 8380417 == ZETAS_MONT@[85] as int);
    } else if k == 171 {
        assert((ZETAS_MONT@[171] as int * ZETAS_MONT@[171] as int * 8265825) % 8380417 == 8380417 - ZETAS_MONT@[85] as int);
    } else if k == 172 {
        assert((ZETAS_MONT@[172] as int * ZETAS_MONT@[172] as int * 8265825) % 8380417 == ZETAS_MONT@[86] as int);
    } else if k == 173 {
        assert((ZETAS_MONT@[173] as int * ZETAS_MONT@[173] as int * 8265825) % 8380417 == 8380417 - ZETAS_MONT@[86] as int);
    } else if k == 174 {
        assert((ZETAS_MONT@[174] as int * ZETAS_MONT@[174] as int * 8265825) % 8380417 == ZETAS_MONT@[87] as int);
    } else if k == 175 {
        assert((ZETAS_MONT@[175] as int * ZETAS_MONT@[175] as int * 8265825) % 8380417 == 8380417 - ZETAS_MONT@[87] as int);
    } else if k == 176 {
        assert((ZETAS_MONT@[176] as int * ZETAS_MONT@[176] as int * 8265825) % 8380417 == ZETAS_MONT@[88] as int);
    } else if k == 177 {
        assert((ZETAS_MONT@[177] as int * ZETAS_MONT@[177] as int * 8265825) % 8380417 == 8380417 - ZETAS_MONT@[88] as int);
    } else if k == 178 {
        assert((ZETAS_MONT@[178] as int * ZETAS_MONT@[178] as int * 8265825) % 8380417 == ZETAS_MONT@[89] as int);
    } else if k == 179 {
        assert((ZETAS_MONT@[179] as int * ZETAS_MONT@[179] as int * 8265825) % 8380417 == 8380417 - ZETAS_MONT@[89] as int);
    } else if k == 180 {
        assert((ZETAS_MONT@[180] as int * ZETAS_MONT@[180] as int * 8265825) % 8380417 == ZETAS_MONT@[90] as int);
    } else if k == 181 {
        assert((ZETAS_MONT@[181] as int * ZETAS_MONT@[181] as int * 8265825) % 8380417 == 8380417 - ZETAS_MONT@[90] as int);
    } else if k == 182 {
        assert((ZETAS_MONT@[182] as int * ZETAS_MONT@[182] as int * 8265825) % 8380417 == ZETAS_MONT@[91] as int);
    } else if k == 183 {
        assert((ZETAS_MONT@[183] as int * ZETAS_MONT@[183] as int * 8265825) % 8380417 == 8380417 - ZETAS_MONT@[91] as int);
    } else if k == 184 {
        assert((ZETAS_MONT@[184] as int * ZETAS_MONT@[184] as int * 8265825) % 8380417 == ZETAS_MONT@[92] as int);
    } else if k == 185 {
        assert((ZETAS_MONT@[185] as int * ZETAS_MONT@[185] as int * 8265825) % 8380417 == 8380417 - ZETAS_MONT@[92] as int);
    } else if k == 186 {
        assert((ZETAS_MONT@[186] as int * ZETAS_MONT@[186] as int * 8265825) % 8380417 == ZETAS_MONT@[93] as int);
    } else if k == 187 {
        assert((ZETAS_MONT@[187] as int * ZETAS_MONT@[187] as int * 8265825) % 8380417 == 8380417 - ZETAS_MONT@[93] as int);
    } else if k == 188 {
        assert((ZETAS_MONT@[188] as int * ZETAS_MONT@[188] as int * 8265825) % 8380417 == ZETAS_MONT@[94] as int);
    } else if k == 189 {
        assert((ZETAS_MONT@[189] as int * ZETAS_MONT@[189] as int * 8265825) % 8380417 == 8380417 - ZETAS_MONT@[94] as int);
    } else if k == 190 {
        assert((ZETAS_MONT@[190] as int * ZETAS_MONT@[190] as int * 8265825) % 8380417 == ZETAS_MONT@[95] as int);
    } else if k == 191 {
        assert((ZETAS_MONT@[191] as int * ZETAS_MONT@[191] as int * 8265825) % 8380417 == 8380417 - ZETAS_MONT@[95] as int);
    }
}

#[verifier::rlimit(100)]
proof fn lemma_twiddle_square_6(k: int)
    requires
        192 <= k < 224,
    ensures
        (ZETAS_MONT@[k] as int * ZETAS_MONT@[k] as int * 8265825) % 8380417 == (if k == 1 {
            4186625
        } else if k % 2 == 0 {
            ZETAS_MONT@[k / 2] as int
        } else {
            8380417 - ZETAS_MONT@[k / 2] as int
        }),
{
    if k == 192 {
        assert((ZETAS_MONT@[192] as int * ZETAS_MONT@[192] as int * 8265825) % 8380417 == ZETAS_MONT@[96] as int);
    } else if k == 193 {
        assert((ZETAS_MONT@[193] as int * ZETAS_MONT@[193] as int * 8265825) % 8380417 == 8380417 - ZETAS_MONT@[96] as int);
    } else if k == 194 {
        assert((ZETAS_MONT@[194] as int * ZETAS_MONT@[194] as int * 8265825) % 8380417 == ZETAS_MONT@[97] as int);
    } else if k == 195 {
        assert((ZETAS_MONT@[195] as int * ZETAS_MONT@[195] as int * 8265825) % 8380417 == 8380417 - ZETAS_MONT@[97] as int);
    } else if k == 196 {
        assert((ZETAS_MONT@[196] as int * ZETAS_MONT@[196] as int * 8265825) % 8380417 == ZETAS_MONT@[98] as int);
    } else if k == 197 {
        assert((ZETAS_MONT@[197] as int * ZETAS_MONT@[197] as int * 8265825) % 8380417 == 8380417 - ZETAS_MONT@[98] as int);
    } else if k == 198 {
        assert((ZETAS_MONT@[198] as int * ZETAS_MONT@[198] as int * 8265825) % 8380417 == ZETAS_MONT@[99] as int);
    } else if k == 199 {
        assert((ZETAS_MONT@[199] as int * ZETAS_MONT@[199] as int * 8265825) % 8380417 == 8380417 - ZETAS_MONT@[99] as int);
    } else if k == 200 {
        assert((ZETAS_MONT@[200] as int * ZETAS_MONT@[200] as int * 8265825) % 8380417 == ZETAS_MONT@[100] as int);
    } else if k == 201 {
        assert((ZETAS_MONT@[201] as int * ZETAS_MONT@[201] as int * 8265825) % 8380417 == 8380417 - ZETAS_MONT@[100] as int);
    } else if k == 202 {
        assert((ZETAS_MONT@[202] as int * ZETAS_MONT@[202] as int * 8265825) % 8380417 == ZETAS_MONT@[101] as int);
    } else if k == 203 {
        assert((ZETAS_MONT@[203] as int * ZETAS_MONT@[203] as int * 8265825) % 8380417 == 8380417 - ZETAS_MONT@[101] as int);
    } else if k == 204 {
        assert((ZETAS_MONT@[204] as int * ZETAS_MONT@[204] as int * 8265825) % 8380417 == ZETAS_MONT@[102] as int);
    } else if k == 205 {
        assert((ZETAS_MONT@[205] as int * ZETAS_MONT@[205] as int * 8265825) % 8380417 == 8380417 - ZETAS_MONT@[102] as int);
    } else if k == 206 {
        assert((ZETAS_MONT@[206] as int * ZETAS_MONT@[206] as int * 8265825) % 8380417 == ZETAS_MONT@[103] as int);
    } else if k == 207 {
        assert((ZETAS_MONT@[207] as int * ZETAS_MONT@[207] as int * 8265825) % 8380417 == 8380417 - ZETAS_MONT@[103] as int);
    } else if k == 208 {
        assert((ZETAS_MONT@[208] as int * ZETAS_MONT@[208] as int * 8265825) % 8380417 == ZETAS_MONT@[104] as int);
    } else if k == 209 {
        assert((ZETAS_MONT@[209] as int * ZETAS_MONT@[209] as int * 8265825) % 8380417 == 8380417 - ZETAS_MONT@[104] as int);
    } else if k == 210 {
        assert((ZETAS_MONT@[210] as int * ZETAS_MONT@[210] as int * 8265825) % 8380417 == ZETAS_MONT@[105] as int);
    } else if k == 211 {
        assert((ZETAS_MONT@[211] as int * ZETAS_MONT@[211] as int * 8265825) % 8380417 == 8380417 - ZETAS_MONT@[105] as int);
    } else if k == 212 {
        assert((ZETAS_MONT@[212] as int * ZETAS_MONT@[212] as int * 8265825) % 8380417 == ZETAS_MONT@[106] as int);
    } else if k == 213 {
        assert((ZETAS_MONT@[213] as int * ZETAS_MONT@[213] as int * 8265825) % 8380417 == 8380417 - ZETAS_MONT@[106] as int);
    } else if k == 214 {
        assert((ZETAS_MONT@[214] as int * ZETAS_MONT@[214] as int * 8265825) % 8380417 == ZETAS_MONT@[107] as int);
    } else if k == 215 {
        assert((ZETAS_MONT@[215] as int * ZETAS_MONT@[215] as int * 8265825) % 8380417 == 8380417 - ZETAS_MONT@[107] as int);
    } else if k == 216 {
        assert((ZETAS_MONT@[216] as int * ZETAS_MONT@[216] as int * 8265825) % 8380417 == ZETAS_MONT@[108] as int);
    } else if k == 217 {
        assert((ZETAS_MONT@[217] as int * ZETAS_MONT@[217] as int * 8265825) % 8380417 == 8380417 - ZETAS_MONT@[108] as int);
    } else if k == 218 {
        assert((ZETAS_MONT@[218] as int * ZETAS_MONT@[218] as int * 8265825) % 8380417 == ZETAS_MONT@[109] as int);
    } else if k == 219 {
        assert((ZETAS_MONT@[219] as int * ZETAS_MONT@[219] as int * 8265825) % 8380417 == 8380417 - ZETAS_MONT@[109] as int);
    } else if k == 220 {
        assert((ZETAS_MONT@[220] as int * ZETAS_MONT@[220] as int * 8265825) % 8380417 == ZETAS_MONT@[110] as int);
    } else if k == 221 {
        assert((ZETAS_MONT@[221] as int * ZETAS_MONT@[221] as int * 8265825) % 8380417 == 8380417 - ZETAS_MONT@[110] as int);
    } else if k == 222 {
        assert((ZETAS_MONT@[222] as int * ZETAS_MONT@[222] as int * 8265825) % 8380417 == ZETAS_MONT@[111] as int);
    } else if k == 223 {
        assert((ZETAS_MONT@[223] as int * ZETAS_MONT@[223] as int * 8265825) % 8380417 == 8380417 - ZETAS_MONT@[111] as int);
    }
}

#[verifier::rlimit(100)]
proof fn lemma_twiddle_square_7(k: int)
    requires
        224 <= k < 256,
    ensures
        (ZETAS_MONT@[k] as int * ZETAS_MONT@[k] as int * 8265825) % 8380417 == (if k == 1 {
            4186625
        } else if k % 2 == 0 {
            ZETAS_MONT@[k / 2] as int
        } else {
            8380417 - ZETAS_MONT@[k / 2] as int
        }),
{
    if k == 224 {
        assert((ZETAS_MONT@[224] as int * ZETAS_MONT@[224] as int * 8265825) % 8380417 == ZETAS_MONT@[112] as int);
    } else if k == 225 {
        assert((ZETAS_MONT@[225] as int * ZETAS_MONT@[225] as int * 8265825) % 8380417 == 8380417 - ZETAS_MONT@[112] as int);
    } else if k == 226 {
        assert((ZETAS_MONT@[226] as int * ZETAS_MONT@[226] as int * 8265825) % 8380417 == ZETAS_MONT@[113] as int);
    } else if k == 227 {
        assert((ZETAS_MONT@[227] as int * ZETAS_MONT@[227] as int * 8265825) % 8380417 == 8380417 - ZETAS_MONT@[113] as int);
    } else if k == 228 {
        assert((ZETAS_MONT@[228] as int * ZETAS_MONT@[228] as int * 8265825) % 8380417 == ZETAS_MONT@[114] as int);
    } else if k == 229 {
        assert((ZETAS_MONT@[229] as int * ZETAS_MONT@[229] as int * 8265825) % 8380417 == 8380417 - ZETAS_MONT@[114] as int);
    } else if k == 230 {
        assert((ZETAS_MONT@[230] as int * ZETAS_MONT@[230] as int * 8265825) % 8380417 == ZETAS_MONT@[115] as int);
    } else if k == 231 {
        assert((ZETAS_MONT@[231] as int * ZETAS_MONT@[231] as int * 8265825) % 8380417 == 8380417 - ZETAS_MONT@[115] as int);
    } else if k == 232 {
        assert((ZETAS_MONT@[232] as int * ZETAS_MONT@[232] as int * 8265825) % 8380417 == ZETAS_MONT@[116] as int);
    } else if k == 233 {
        assert((ZETAS_MONT@[233] as int * ZETAS_MONT@[233] as int * 8265825) % 8380417 == 8380417 - ZETAS_MONT@[116] as int);
    } else if k == 234 {
        assert((ZETAS_MONT@[234] as int * ZETAS_MONT@[234] as int * 8265825) % 8380417 == ZETAS_MONT@[117] as int);
    } else if k == 235 {
        assert((ZETAS_MONT@[235] as int * ZETAS_MONT@[235] as int * 8265825) % 8380417 == 8380417 - ZETAS_MONT@[117] as int);
    } else if k == 236 {
        assert((ZETAS_MONT@[236] as int * ZETAS_MONT@[236] as int * 8265825) % 8380417 == ZETAS_MONT@[118] as int);
    } else if k == 237 {
        assert((ZETAS_MONT@[237] as int * ZETAS_MONT@[237] as int * 8265825) % 8380417 == 8380417 - ZETAS_MONT@[118] as int);
    } else if k == 238 {
        assert((ZETAS_MONT@[238] as int * ZETAS_MONT@[238] as int * 8265825) % 8380417 == ZETAS_MONT@[119] as int);
    } else if k == 239 {
        assert((ZETAS_MONT@[239] as int * ZETAS_MONT@[239] as int * 8265825) % 8380417 == 8380417 - ZETAS_MONT@[119] as int);
    } else if k == 240 {
        assert((ZETAS_MONT@[240] as int * ZETAS_MONT@[240] as int * 8265825) % 8380417 == ZETAS_MONT@[120] as int);
    } else if k == 241 {
        assert((ZETAS_MONT@[241] as int * ZETAS_MONT@[241] as int * 8265825) % 8380417 == 8380417 - ZETAS_MONT@[120] as int);
    } else if k == 242 {
        assert((ZETAS_MONT@[242] as int * ZETAS_MONT@[242] as int * 8265825) % 8380417 == ZETAS_MONT@[121] as int);
    } else if k == 243 {
        assert((ZETAS_MONT@[243] as int * ZETAS_MONT@[243] as int * 8265825) % 8380417 == 8380417 - ZETAS_MONT@[121] as int);
    } else if k == 244 {
        assert((ZETAS_MONT@[244] as int * ZETAS_MONT@[244] as int * 8265825) % 8380417 == ZETAS_MONT@[122] as int);
    } else if k == 245 {
        assert((ZETAS_MONT@[245] as int * ZETAS_MONT@[245] as int * 8265825) % 8380417 == 8380417 - ZETAS_MONT@[122] as int);
    } else if k == 246 {
        assert((ZETAS_MONT@[246] as int * ZETAS_MONT@[246] as int * 8265825) % 8380417 == ZETAS_MONT@[123] as int);
    } else if k == 247 {
        assert((ZETAS_MONT@[247] as int * ZETAS_MONT@[247] as int * 8265825) % 8380417 == 8380417 - ZETAS_MONT@[123] as int);
    } else if k == 248 {
        assert((ZETAS_MONT@[248] as int * ZETAS_MONT@[248] as int * 8265825) % 8380417 == ZETAS_MONT@[124] as int);
    } else if k == 249 {
        assert((ZETAS_MONT@[249] as int * ZETAS_MONT@[249] as int * 8265825) % 8380417 == 8380417 - ZETAS_MONT@[124] as int);
    } else if k == 250 {
        assert((ZETAS_MONT@[250] as int * ZETAS_MONT@[250] as int * 8265825) % 8380417 == ZETAS_MONT@[125] as int);
    } else if k == 251 {
        assert((ZETAS_MONT@[251] as int * ZETAS_MONT@[251] as int * 8265825) % 8380417 == 8380417 - ZETAS_MONT@[125] as int);
    } else if k == 252 {
        assert((ZETAS_MONT@[252] as int * ZETAS_MONT@[252] as int * 8265825) % 8380417 == ZETAS_MONT@[126] as int);
    } else if k == 253 {
        assert((ZETAS_MONT@[253] as int * ZETAS_MONT@[253] as int * 8265825) % 8380417 == 8380417 - ZETAS_MONT@[126] as int);
    } else if k == 254 {
        assert((ZETAS_MONT@[254] as int * ZETAS_MONT@[254] as int * 8265825) % 8380417 == ZETAS_MONT@[127] as int);
    } else if k == 255 {
        assert((ZETAS_MONT@[255] as int * ZETAS_MONT@[255] as int * 8265825) % 8380417 == 8380417 - ZETAS_MONT@[127] as int);
    }
}

/// The twiddle of index `k` squares to the twist of the block it splits:
/// `ZM[1]^2 = -R` and `ZM[k]^2 = +-R ZM[k/2]` (sign by the parity of `k`),
/// in Montgomery form.
proof fn lemma_twiddle_square_table(k: int)
    requires
        1 <= k < 256,
    ensures
        (ZETAS_MONT@[k] as int * ZETAS_MONT@[k] as int * 8265825) % 8380417 == (if k == 1 {
            4186625
        } else if k % 2 == 0 {
            ZETAS_MONT@[k / 2] as int
        } else {
            8380417 - ZETAS_MONT@[k / 2] as int
        }),
{
    if k < 32 {
        lemma_twiddle_square_0(k);
    } else if k < 64 {
        lemma_twiddle_square_1(k);
    } else if k < 96 {
        lemma_twiddle_square_2(k);
    } else if k < 128 {
        lemma_twiddle_square_3(k);
    } else if k < 160 {
        lemma_twiddle_square_4(k);
    } else if k < 192 {
        lemma_twiddle_square_5(k);
    } else if k < 224 {
        lemma_twiddle_square_6(k);
    } else if k < 256 {
        lemma_twiddle_square_7(k);
    }
}


/// The field value of the twiddle of index `k` (its Montgomery form
/// times `R^-1`).
pub open spec fn tw_z(k: int) -> int {
    ZETAS_MONT@[k] as int * r_inv(Q as int)
}

/// The twist `w` of block `t` of size `s` after the layers above it:
/// the block holds a residue modulo `X^s - w`. The whole polynomial
/// (`s = 256`) lives modulo `X^256 + 1`; the layer of twiddle index `k`
/// splits its block into twists `tw_z(k)` and `-tw_z(k)`.
pub open spec fn twist(s: int, t: int) -> int {
    if s >= 256 {
        -1
    } else {
        let k = 128int / s + t / 2;
        if t % 2 == 0 {
            tw_z(k)
        } else {
            -tw_z(k)
        }
    }
}

/// The twiddle of the layer of half-length `len` at block `b` squares to
/// the twist of that block.
proof fn lemma_twist_square(len: int, b: int)
    requires
        layer_len(len),
        0 <= b,
        2 * len * b < 256,
    ensures
        (tw_z(128int / len + b) * tw_z(128int / len + b)) % (Q as int) == twist(2 * len, b) % (Q as int),
{
    let q = Q as int;
    let ri = r_inv(q);
    assert(ri == 8265825);
    lemma_layer_counts(len, b);
    let kk = 128int / len + b;
    let zm = ZETAS_MONT@[kk] as int;
    lemma_twiddle_square_table(kk);
    assert(tw_z(kk) * tw_z(kk) == (zm * zm * ri) * ri) by (nonlinear_arith)
        requires
            tw_z(kk) == zm * ri,
    ;
    lemma_mul_mod_noop_left(zm * zm * ri, ri, q);
    if len == 128 {
        assert(128int / 128 == 1);
        assert(b == 0) by (nonlinear_arith)
            requires
                2 * len * b < 256,
                len == 128,
                0 <= b,
        ;
        assert((4186625int * 8265825) % 8380417 == 8380416);
        assert((-1int) % q == 8380416);
    } else {
        let half = 128int / (2 * len);
        if len == 64 {
            assert(128int / 64 == 2 && 128int / 128 == 1);
        } else if len == 32 {
            assert(128int / 32 == 4 && 128int / 64 == 2);
        } else if len == 16 {
            assert(128int / 16 == 8 && 128int / 32 == 4);
        } else if len == 8 {
            assert(128int / 8 == 16 && 128int / 16 == 8);
        } else if len == 4 {
            assert(128int / 4 == 32 && 128int / 8 == 16);
        } else if len == 2 {
            assert(128int / 2 == 64 && 128int / 4 == 32);
        } else {
            assert(128int / 1 == 128 && 128int / 2 == 64);
        }
        assert(kk / 2 == half + b / 2);
        assert(kk % 2 == b % 2);
        let zp = ZETAS_MONT@[kk / 2] as int;
        if b % 2 == 0 {
            assert(twist(2 * len, b) == tw_z(half + b / 2));
        } else {
            assert(twist(2 * len, b) == -tw_z(half + b / 2));
            lemma_mul_mod_noop_left(q - zp, ri, q);
            assert((q - zp) * ri == q * ri + (-(zp * ri))) by (nonlinear_arith);
            lemma_mod_multiples_vanish(ri, -(zp * ri), q);
        }
    }
}

/// Products modulo `X^n - w` depend only on the residues modulo `q` of
/// the factors and of `w`.
proof fn lemma_twp_mod(x: Seq<int>, x2: Seq<int>, y: Seq<int>, y2: Seq<int>, n: int, w: int, w2: int, k: int)
    requires
        0 <= k < n,
        forall|i: int| 0 <= i < n ==> #[trigger] x[i] % (Q as int) == x2[i] % (Q as int),
        forall|i: int| 0 <= i < n ==> #[trigger] y[i] % (Q as int) == y2[i] % (Q as int),
        w % (Q as int) == w2 % (Q as int),
    ensures
        twp(x, y, n, w, k) % (Q as int) == twp(x2, y2, n, w2, k) % (Q as int),
{
    let q = Q as int;
    let f = |i: int| x[i] * twc(y, n, w, k - i);
    let g = |i: int| x2[i] * twc(y2, n, w2, k - i);
    assert forall|i: int| 0 <= i < n implies #[trigger] f(i) % q == g(i) % q by {
        let t = k - i;
        if t >= 0 {
            assert(y[t] % q == y2[t] % q);
        } else {
            assert(y[t + n] % q == y2[t + n] % q);
            lemma_mul_mod_noop(w, y[t + n], q);
            lemma_mul_mod_noop(w2, y2[t + n], q);
        }
        lemma_mul_mod_noop(x[i], twc(y, n, w, t), q);
        lemma_mul_mod_noop(x2[i], twc(y2, n, w2, t), q);
    }
    lemma_fsum_mod(n as nat, f, g, q);
}


/// Block `t` of size `s` of `a`.
pub open spec fn blk(a: Seq<int>, s: int, t: int) -> Seq<int> {
    a.subrange(s * t, s * t + s)
}

/// Coefficient `j` of the blockwise product of `a` and `b` with blocks
/// of size `s`: block `t` is multiplied modulo `X^s - twist(s, t)`.
pub open spec fn bp(s: int, a: Seq<int>, b: Seq<int>, j: int) -> int {
    twp(blk(a, s, j / s), blk(b, s, j / s), s, twist(s, j / s), j % s)
}

/// Position `j` lies in block `t` of size `s`, at offset `j - s t`.
pub(crate) proof fn lemma_in_block(j: int, s: int, t: int)
    requires
        s > 0,
        s * t <= j < s * t + s,
    ensures
        j / s == t,
        j % s == j - s * t,
{
    assert(t * s == s * t) by (nonlinear_arith);
    lemma_fundamental_div_mod_converse(j, s, t, j - s * t);
}

/// A Montgomery product with a table twiddle is the product with its
/// field value.
proof fn lemma_mont_tw(zm: int, x: int)
    ensures
        mont_mul_spec(zm, x, Q as int) == ((zm * r_inv(Q as int)) * x) % (Q as int),
{
    assert(zm * x * r_inv(Q as int) == (zm * r_inv(Q as int)) * x) by (nonlinear_arith);
}


/// The basic facts about position `j` in the layer of half-length `len`:
/// its block `b0` of size `2 len` and the twiddle index of that block.
pub(crate) proof fn lemma_layer_position(len: int, j: int) -> (b0: int)
    requires
        layer_len(len),
        0 <= j < 256,
    ensures
        b0 == j / (2 * len),
        0 <= b0,
        2 * len * b0 <= j < 2 * len * b0 + 2 * len,
        2 * len * b0 + 2 * len <= 256,
        1 <= 128int / len + b0 < 256,
{
    let b0 = j / (2 * len);
    lemma_fundamental_div_mod(j, 2 * len);
    assert(0 <= b0) by {
        lemma_div_pos_is_pos(j, 2 * len);
    }
    assert(2 * len * b0 <= j < 2 * len * b0 + 2 * len) by (nonlinear_arith)
        requires
            j == (2 * len) * b0 + j % (2 * len),
            0 <= j % (2 * len) < 2 * len,
    ;
    lemma_layer_counts(len, b0);
    assert(2 * len * b0 + 2 * len <= 256) by {
        if len == 1 {
        } else if len == 2 {
        } else if len == 4 {
        } else if len == 8 {
        } else if len == 16 {
        } else if len == 32 {
        } else if len == 64 {
        } else {
        }
    }
    b0
}

/// The lower child block of block `b0` after the layer is the residue
/// of the block modulo `X^len - z`.
#[verifier::spinoff_prover]
proof fn lemma_child_lower(len: int, a: Seq<int>, b0: int)
    requires
        layer_len(len),
        a.len() == 256,
        0 <= b0,
        2 * len * b0 + 2 * len <= 256,
        1 <= 128int / len + b0 < 256,
    ensures
        forall|i: int|
            0 <= i < len ==> #[trigger] blk(ct_layer(a, len), len, 2 * b0)[i] % (Q as int) == split(
                blk(a, 2 * len, b0),
                len,
                tw_z(128int / len + b0),
            )[i] % (Q as int),
{
    let q = Q as int;
    let base = 2 * len * b0;
    let zm = ZETAS_MONT@[128int / len + b0] as int;
    let z = tw_z(128int / len + b0);
    assert(len * (2 * b0) == base) by (nonlinear_arith)
        requires
            base == 2 * len * b0,
    ;
    assert forall|i: int| 0 <= i < len implies #[trigger] blk(ct_layer(a, len), len, 2 * b0)[i] % q == split(
        blk(a, 2 * len, b0),
        len,
        z,
    )[i] % q by {
        lemma_block(base + i, len, b0);
        lemma_mont_tw(zm, a[base + i + len]);
        lemma_mod_twice(a[base + i] + z * a[base + i + len], q);
        lemma_add_mod_noop(a[base + i], (z * a[base + i + len]) % q, q);
        lemma_add_mod_noop(a[base + i], z * a[base + i + len], q);
        lemma_mod_twice(z * a[base + i + len], q);
    }
}

/// The upper child block of block `b0` after the layer is the residue
/// of the block modulo `X^len + z`.
#[verifier::spinoff_prover]
proof fn lemma_child_upper(len: int, a: Seq<int>, b0: int)
    requires
        layer_len(len),
        a.len() == 256,
        0 <= b0,
        2 * len * b0 + 2 * len <= 256,
        1 <= 128int / len + b0 < 256,
    ensures
        forall|i: int|
            0 <= i < len ==> #[trigger] blk(ct_layer(a, len), len, 2 * b0 + 1)[i] % (Q as int) == split(
                blk(a, 2 * len, b0),
                len,
                -tw_z(128int / len + b0),
            )[i] % (Q as int),
{
    let q = Q as int;
    let base = 2 * len * b0;
    let zm = ZETAS_MONT@[128int / len + b0] as int;
    let z = tw_z(128int / len + b0);
    let nz = -z;
    assert(len * (2 * b0 + 1) == base + len) by (nonlinear_arith)
        requires
            base == 2 * len * b0,
    ;
    assert forall|i: int| 0 <= i < len implies #[trigger] blk(ct_layer(a, len), len, 2 * b0 + 1)[i] % q == split(
        blk(a, 2 * len, b0),
        len,
        nz,
    )[i] % q by {
        lemma_block(base + len + i, len, b0);
        lemma_mont_tw(zm, a[base + len + i]);
        assert(nz * a[base + i + len] == -(z * a[base + i + len])) by (nonlinear_arith)
            requires
                nz == -z,
        ;
        lemma_mod_twice(a[base + i] - z * a[base + i + len], q);
        lemma_sub_mod_noop(a[base + i], (z * a[base + i + len]) % q, q);
        lemma_sub_mod_noop(a[base + i], z * a[base + i + len], q);
        lemma_mod_twice(z * a[base + i + len], q);
    }
}

/// `(x + mont(zm, y)) mod q` and `(x - mont(zm, y)) mod q` depend on `x`,
/// `y` modulo `q` only, as `x +- z y`.
proof fn lemma_butterfly_mod(x: int, y: int, x2: int, y2: int, zm: int, z: int)
    requires
        z == zm * r_inv(Q as int),
        x % (Q as int) == x2 % (Q as int),
        y % (Q as int) == y2 % (Q as int),
    ensures
        (x + mont_mul_spec(zm, y, Q as int)) % (Q as int) == (x2 + z * y2) % (Q as int),
        (x - mont_mul_spec(zm, y, Q as int)) % (Q as int) == (x2 + (-z) * y2) % (Q as int),
{
    let q = Q as int;
    lemma_mont_tw(zm, y);
    lemma_mul_mod_noop_right(z, y, q);
    lemma_mul_mod_noop_right(z, y2, q);
    lemma_add_mod_noop(x, (z * y) % q, q);
    lemma_add_mod_noop(x2, z * y2, q);
    lemma_mod_twice(z * y2, q);
    lemma_sub_mod_noop(x, (z * y) % q, q);
    lemma_sub_mod_noop(x2, z * y2, q);
    assert((-z) * y2 == -(z * y2)) by (nonlinear_arith);
}

/// One Cooley-Tukey layer maps blockwise products with blocks of size
/// `2 len` to blockwise products with blocks of size `len`.
#[verifier::spinoff_prover]
proof fn lemma_layer_step(len: int, a: Seq<int>, b: Seq<int>, c: Seq<int>, j: int)
    requires
        layer_len(len),
        a.len() == 256,
        b.len() == 256,
        c.len() == 256,
        0 <= j < 256,
        forall|i: int| 0 <= i < 256 ==> #[trigger] c[i] % (Q as int) == bp(2 * len, a, b, i) % (Q as int),
    ensures
        ct_layer(c, len)[j] == bp(len, ct_layer(a, len), ct_layer(b, len), j) % (Q as int),
{
    let q = Q as int;
    let b0 = lemma_layer_position(len, j);
    let base = 2 * len * b0;
    let kk = 128int / len + b0;
    let zm = ZETAS_MONT@[kk] as int;
    let z = tw_z(kk);
    lemma_twist_square(len, b0);
    let w = twist(2 * len, b0);
    let aa = blk(a, 2 * len, b0);
    let bb = blk(b, 2 * len, b0);
    let ca = ct_layer(a, len);
    let cb = ct_layer(b, len);
    if j - base < len {
        let k = j - base;
        lemma_block(j, len, b0);
        lemma_block(j + len, len, b0);
        assert(len * (2 * b0) == base) by (nonlinear_arith)
            requires
                base == 2 * len * b0,
        ;
        lemma_in_block(j, len, 2 * b0);
        assert(bp(2 * len, a, b, j) == twp(aa, bb, 2 * len, w, k));
        assert(bp(2 * len, a, b, j + len) == twp(aa, bb, 2 * len, w, k + len));
        lemma_twp_mod(aa, aa, bb, bb, 2 * len, w, z * z, k);
        lemma_twp_mod(aa, aa, bb, bb, 2 * len, w, z * z, k + len);
        lemma_split_product(aa, bb, len, z, k);
        let p0 = twp(aa, bb, 2 * len, z * z, k);
        let p1 = twp(aa, bb, 2 * len, z * z, k + len);
        assert(c[j] % q == p0 % q);
        assert(c[j + len] % q == p1 % q);
        lemma_butterfly_mod(c[j], c[j + len], p0, p1, zm, z);
        assert(ct_layer(c, len)[j] == (c[j] + mont_mul_spec(zm, c[j + len], q)) % q);
        assert(twist(len, 2 * b0) == z);
        lemma_child_lower(len, a, b0);
        lemma_child_lower(len, b, b0);
        lemma_twp_mod(blk(ca, len, 2 * b0), split(aa, len, z), blk(cb, len, 2 * b0), split(bb, len, z), len, z, z, k);
    } else {
        let k = j - base - len;
        lemma_block(j, len, b0);
        lemma_block(j - len, len, b0);
        assert(len * (2 * b0 + 1) == base + len) by (nonlinear_arith)
            requires
                base == 2 * len * b0,
        ;
        lemma_in_block(j, len, 2 * b0 + 1);
        assert(bp(2 * len, a, b, j - len) == twp(aa, bb, 2 * len, w, k));
        assert(bp(2 * len, a, b, j) == twp(aa, bb, 2 * len, w, k + len));
        let nz = -z;
        assert(nz * nz == z * z) by (nonlinear_arith)
            requires
                nz == -z,
        ;
        lemma_twp_mod(aa, aa, bb, bb, 2 * len, w, nz * nz, k);
        lemma_twp_mod(aa, aa, bb, bb, 2 * len, w, nz * nz, k + len);
        lemma_split_product(aa, bb, len, nz, k);
        let p0 = twp(aa, bb, 2 * len, nz * nz, k);
        let p1 = twp(aa, bb, 2 * len, nz * nz, k + len);
        assert(c[j - len] % q == p0 % q);
        assert(c[j] % q == p1 % q);
        lemma_butterfly_mod(c[j - len], c[j], p0, p1, zm, z);
        assert(ct_layer(c, len)[j] == (c[j - len] - mont_mul_spec(zm, c[j], q)) % q);
        assert(twist(len, 2 * b0 + 1) == nz);
        lemma_child_upper(len, a, b0);
        lemma_child_upper(len, b, b0);
        lemma_twp_mod(
            blk(ca, len, 2 * b0 + 1),
            split(aa, len, nz),
            blk(cb, len, 2 * b0 + 1),
            split(bb, len, nz),
            len,
            nz,
            nz,
            k,
        );
    }
}


/// The remaining layers `len, ..., 1` map blockwise products with blocks
/// of size `2 len` to coefficient-wise products.
proof fn lemma_layers_mult(len: nat, a: Seq<int>, b: Seq<int>, c: Seq<int>)
    requires
        layer_len(len as int),
        a.len() == 256,
        b.len() == 256,
        c.len() == 256,
        forall|i: int| 0 <= i < 256 ==> #[trigger] c[i] % (Q as int) == bp(2 * len as int, a, b, i) % (Q as int),
    ensures
        forall|j: int|
            0 <= j < 256 ==> #[trigger] ct_layers(c, len)[j] == (ct_layers(a, len)[j] * ct_layers(b, len)[j]) % (
            Q as int),
    decreases len,
{
    let q = Q as int;
    let a1 = ct_layer(a, len as int);
    let b1 = ct_layer(b, len as int);
    let c1 = ct_layer(c, len as int);
    assert forall|j: int| 0 <= j < 256 implies #[trigger] c1[j] % q == bp(len as int, a1, b1, j) % q by {
        lemma_layer_step(len as int, a, b, c, j);
        lemma_mod_twice(bp(len as int, a1, b1, j), q);
    }
    assert(ct_layers(a, len) == ct_layers(a1, len / 2));
    assert(ct_layers(b, len) == ct_layers(b1, len / 2));
    assert(ct_layers(c, len) == ct_layers(c1, len / 2));
    if len == 1 {
        assert forall|j: int| 0 <= j < 256 implies #[trigger] ct_layers(c, len)[j] == (ct_layers(a, len)[j]
            * ct_layers(b, len)[j]) % q by {
            lemma_in_block(j, 1, j);
            let x = blk(a1, 1, j);
            let y = blk(b1, 1, j);
            assert(bp(1, a1, b1, j) == twp(x, y, 1, twist(1, j), 0));
            assert(twp(x, y, 1, twist(1, j), 0) == fsum(0, |i: int| x[i] * twc(y, 1, twist(1, j), 0 - i))
                + x[0] * twc(y, 1, twist(1, j), 0));
            assert(x[0] == a1[j] && y[0] == b1[j]);
            lemma_mod_twice(c1[j], q);
        }
    } else {
        assert(layer_len((len / 2) as int));
        assert(2 * (len / 2) == len);
        lemma_layers_mult(len / 2, a1, b1, c1);
    }
}

/// One row of the schoolbook product: the only `j` with a nonzero term
/// is `k - i` (or `k - i + N` with a sign flip).
proof fn lemma_nega_row(a: Seq<u32>, b: Seq<u32>, i: int, jn: int, k: int)
    requires
        0 <= i < 256,
        0 <= k < 256,
        0 <= jn <= 256,
    ensures
        nega_row(a, b, i, jn, k) == (if 0 <= k - i < jn {
            a[i] * b[k - i]
        } else if 0 <= k - i + 256 < jn {
            -(a[i] * b[k - i + 256])
        } else {
            0
        }),
    decreases jn,
{
    if jn > 0 {
        lemma_nega_row(a, b, i, jn - 1, k);
    }
}

/// The schoolbook coefficient as a product modulo `X^256 + 1`.
pub(crate) proof fn lemma_nega_rows(a: Seq<u32>, b: Seq<u32>, n: int, k: int)
    requires
        a.len() == 256,
        b.len() == 256,
        0 <= n <= 256,
        0 <= k < 256,
    ensures
        nega_rows(a, b, n, k) == fsum(n as nat, |i: int| as_ints(a)[i] * twc(as_ints(b), 256, -1, k - i)),
    decreases n,
{
    if n > 0 {
        let i = n - 1;
        lemma_nega_rows(a, b, i, k);
        lemma_nega_row(a, b, i, 256, k);
        let f = |i: int| as_ints(a)[i] * twc(as_ints(b), 256, -1, k - i);
        assert(fsum(n as nat, f) == fsum(i as nat, f) + f(i));
        if k - i >= 0 {
            assert(f(i) == a[i] * b[k - i]);
        } else {
            assert(f(i) == (a[i] as int) * (-1 * (b[k - i + 256] as int)));
            assert((a[i] as int) * (-1 * (b[k - i + 256] as int)) == -((a[i] as int) * (b[k - i + 256] as int)))
                by (nonlinear_arith);
        }
        assert(nega_rows(a, b, n, k) == nega_rows(a, b, i, k) + nega_row(a, b, i, N as int, k));
    }
}


/// The Cooley-Tukey layers yield canonical residues.
proof fn lemma_ct_layers_canonical(a: Seq<int>, len: nat)
    requires
        layer_len(len as int),
        a.len() == 256,
    ensures
        ct_layers(a, len).len() == 256,
        forall|j: int| 0 <= j < 256 ==> 0 <= #[trigger] ct_layers(a, len)[j] < Q,
    decreases len,
{
    let c = ct_layer(a, len as int);
    assert(ct_layers(a, len) == ct_layers(c, len / 2));
    if len / 2 >= 1 {
        assert(layer_len((len / 2) as int));
        lemma_ct_layers_canonical(c, len / 2);
    } else {
        assert(ct_layers(c, 0) == c);
    }
}

/// Scaling both factors scales a product modulo `X^n - w` by the
/// product of the scales.
pub(crate) proof fn lemma_twp_scale(x: Seq<int>, y: Seq<int>, n: int, w: int, k: int, l: int, m: int)
    requires
        0 <= k < n,
    ensures
        twp(Seq::new(n as nat, |i: int| l * x[i]), Seq::new(n as nat, |i: int| m * y[i]), n, w, k) == (l * m)
            * twp(x, y, n, w, k),
{
    let sx = Seq::new(n as nat, |i: int| l * x[i]);
    let sy = Seq::new(n as nat, |i: int| m * y[i]);
    let f = |i: int| x[i] * twc(y, n, w, k - i);
    let g = |i: int| sx[i] * twc(sy, n, w, k - i);
    assert forall|i: int| 0 <= i < n implies #[trigger] g(i) == (l * m) * f(i) by {
        let t = k - i;
        if t >= 0 {
            assert(twc(sy, n, w, t) == m * y[t]);
            assert((l * x[i]) * (m * y[t]) == (l * m) * (x[i] * y[t])) by (nonlinear_arith);
        } else {
            assert(twc(sy, n, w, t) == w * (m * y[t + n]));
            assert((l * x[i]) * (w * (m * y[t + n])) == (l * m) * (x[i] * (w * y[t + n])))
                by (nonlinear_arith);
        }
    }
    lemma_fsum_ext(n as nat, g, |i: int| (l * m) * f(i));
    lemma_fsum_scale(n as nat, l * m, f);
}

/// The negacyclic product of `a` and `b` modulo `q`, coefficient by
/// coefficient.
pub open spec fn nega_mod(a: Seq<u32>, b: Seq<u32>) -> Seq<u32> {
    Seq::new(256, |k: int| (negacyclic_coeff(a, b, k) % (Q as int)) as u32)
}

/// The NTT turns products in `R_q` into coefficient-wise Montgomery
/// products: `NTT(a * b) == NTT(a) o NTT(b)`, where `o` is what
/// [`crate::ntt::mul_ntt`] computes.
pub proof fn lemma_ntt_mul(a: Seq<u32>, b: Seq<u32>)
    requires
        a.len() == 256,
        b.len() == 256,
    ensures
        forall|j: int|
            0 <= j < 256 ==> #[trigger] ntt_spec(nega_mod(a, b))[j] == mont_mul_spec(
                ntt_spec(a)[j],
                ntt_spec(b)[j],
                Q as int,
            ),
{
    let q = Q as int;
    let r = mont_r();
    let ri = r_inv(q);
    let c = nega_mod(a, b);
    let aa = mont_seq(a);
    let bb = mont_seq(b);
    let cc = mont_seq(c);
    let c2 = scale_mod(r, cc, q);
    let ra = Seq::new(256, |i: int| r * as_ints(a)[i]);
    let rb = Seq::new(256, |i: int| r * as_ints(b)[i]);
    assert forall|k: int| 0 <= k < 256 implies #[trigger] c2[k] % q == bp(256, aa, bb, k) % q by {
        lemma_in_block(k, 256, 0);
        assert(blk(aa, 256, 0) =~= aa);
        assert(blk(bb, 256, 0) =~= bb);
        assert(bp(256, aa, bb, k) == twp(aa, bb, 256, -1, k));
        assert forall|i: int| 0 <= i < 256 implies #[trigger] aa[i] % q == ra[i] % q by {
            lemma_mod_twice(a[i] * r, q);
            assert(a[i] * r == r * a[i]) by (nonlinear_arith);
        }
        assert forall|i: int| 0 <= i < 256 implies #[trigger] bb[i] % q == rb[i] % q by {
            lemma_mod_twice(b[i] * r, q);
            assert(b[i] * r == r * b[i]) by (nonlinear_arith);
        }
        lemma_twp_mod(aa, ra, bb, rb, 256, -1, -1, k);
        lemma_twp_scale(as_ints(a), as_ints(b), 256, -1, k, r, r);
        lemma_nega_rows(a, b, 256, k);
        let nk = negacyclic_coeff(a, b, k);
        assert(twp(as_ints(a), as_ints(b), 256, -1, k) == nk);
        // c2[k] == R (R (nk mod q) mod q) == R^2 nk  (mod q)
        lemma_mod_bound(nk, q);
        assert(c[k] as int == nk % q);
        lemma_mul_mod_noop_right(r, c[k] * r, q);
        assert(r * (c[k] * r) == (r * r) * c[k]) by (nonlinear_arith);
        lemma_mul_mod_noop_right(r * r, nk, q);
    }
    lemma_layers_mult(128, aa, bb, c2);
    lemma_ct_layers_linear(r, cc, 128);
    lemma_ct_layers_canonical(cc, 128);
    lemma_ct_layers_canonical(aa, 128);
    lemma_ct_layers_canonical(bb, 128);
    assert forall|j: int| 0 <= j < 256 implies #[trigger] ntt_spec(c)[j] == mont_mul_spec(
        ntt_spec(a)[j],
        ntt_spec(b)[j],
        q,
    ) by {
        let nc = ntt_spec(c)[j];
        let na = ntt_spec(a)[j];
        let nb = ntt_spec(b)[j];
        assert(ntt_spec(c) == ct_layers(cc, 128));
        assert(ntt_spec(a) == ct_layers(aa, 128));
        assert(ntt_spec(b) == ct_layers(bb, 128));
        assert(ct_layers(c2, 128)[j] == (ct_layers(aa, 128)[j] * ct_layers(bb, 128)[j]) % q);
        assert(ct_layers(c2, 128)[j] == scale_mod(r, ct_layers(cc, 128), q)[j]);
        assert((r * nc) % q == (na * nb) % q);
        lemma_mul_mod_noop_left(na * nb, ri, q);
        lemma_mul_mod_noop_left(r * nc, ri, q);
        assert(r * nc * ri == nc * (r * ri)) by (nonlinear_arith);
        assert((r * ri) % q == 1);
        lemma_mul_mod_noop_right(nc, r * ri, q);
        lemma_small_mod(nc as nat, q as nat);
    }
}

/// Multiplication through the NTT is the product in `R_q`:
/// `NTT^-1(NTT(a) o NTT(b)) == a * b mod (X^256 + 1, q)`.
pub proof fn lemma_ntt_mul_inverse(a: Seq<u32>, b: Seq<u32>)
    requires
        a.len() == 256,
        b.len() == 256,
    ensures
        inv_ntt_spec(Seq::new(256, |j: int| mont_mul_spec(ntt_spec(a)[j], ntt_spec(b)[j], Q as int)))
            == Seq::new(256, |k: int| negacyclic_coeff(a, b, k) % (Q as int)),
{
    let q = Q as int;
    let c = nega_mod(a, b);
    lemma_ntt_mul(a, b);
    lemma_ct_layers_canonical(mont_seq(c), 128);
    assert(Seq::new(256, |j: int| mont_mul_spec(ntt_spec(a)[j], ntt_spec(b)[j], q)) =~= ntt_spec(c));
    assert forall|i: int| 0 <= i < 256 implies #[trigger] c[i] < Q by {
        lemma_mod_bound(negacyclic_coeff(a, b, i), q);
    }
    lemma_ntt_roundtrip(c);
    assert(as_ints(c) =~= Seq::new(256, |k: int| negacyclic_coeff(a, b, k) % q));
}

} // verus!

//! The inverse NTT undoes the forward NTT (FIPS 203): the argument of
//! the ML-DSA transform, for the seven layers of half-lengths `128` down
//! to `2` and the twiddle table of `q = 3329`.

use vstd::arithmetic::div_mod::*;
use vstd::prelude::*;

use crate::field::{mont_mul_spec, mont_r, r_inv};
use crate::mlkem::ntt::{
    kem_ct_layer, kem_ct_layers, kem_gs_layer, kem_gs_layers, kem_inv_ntt_spec, kem_ntt_spec,
    mont_seq_kem, N_INV_128, ZETAS_MONT,
};
use crate::mlkem::params::{N, Q};
use crate::mlkem::pke::add_q;
use crate::ntt::{as_ints, layer_len, lemma_block, lemma_layer_counts};
use crate::ntt_inverse::{
    lemma_lin_lower, lemma_pair_index, lemma_scale_compose, lemma_upper, scale_mod, twiddle_mirror,
};

verus! {

/// `zeta_mirror(k) * zeta_k == -1` in the field, for the Montgomery forms
/// in the table: `ZM[mirror(k)] * ZM[k] == -R^2 mod q`.
#[verifier::rlimit(100)]
proof fn lemma_twiddle_pair(k: int)
    requires
        1 <= k < 128,
    ensures
        (ZETAS_MONT@[twiddle_mirror(k)] * ZETAS_MONT@[k]) % (Q as int) == 341,
{
    if k == 1 {
        assert((ZETAS_MONT@[1] * ZETAS_MONT@[1]) % (Q as int) == 341);
    } else if k == 2 {
        assert((ZETAS_MONT@[3] * ZETAS_MONT@[2]) % (Q as int) == 341);
    } else if k == 3 {
        assert((ZETAS_MONT@[2] * ZETAS_MONT@[3]) % (Q as int) == 341);
    } else if k == 4 {
        assert((ZETAS_MONT@[7] * ZETAS_MONT@[4]) % (Q as int) == 341);
    } else if k == 5 {
        assert((ZETAS_MONT@[6] * ZETAS_MONT@[5]) % (Q as int) == 341);
    } else if k == 6 {
        assert((ZETAS_MONT@[5] * ZETAS_MONT@[6]) % (Q as int) == 341);
    } else if k == 7 {
        assert((ZETAS_MONT@[4] * ZETAS_MONT@[7]) % (Q as int) == 341);
    } else if k == 8 {
        assert((ZETAS_MONT@[15] * ZETAS_MONT@[8]) % (Q as int) == 341);
    } else if k == 9 {
        assert((ZETAS_MONT@[14] * ZETAS_MONT@[9]) % (Q as int) == 341);
    } else if k == 10 {
        assert((ZETAS_MONT@[13] * ZETAS_MONT@[10]) % (Q as int) == 341);
    } else if k == 11 {
        assert((ZETAS_MONT@[12] * ZETAS_MONT@[11]) % (Q as int) == 341);
    } else if k == 12 {
        assert((ZETAS_MONT@[11] * ZETAS_MONT@[12]) % (Q as int) == 341);
    } else if k == 13 {
        assert((ZETAS_MONT@[10] * ZETAS_MONT@[13]) % (Q as int) == 341);
    } else if k == 14 {
        assert((ZETAS_MONT@[9] * ZETAS_MONT@[14]) % (Q as int) == 341);
    } else if k == 15 {
        assert((ZETAS_MONT@[8] * ZETAS_MONT@[15]) % (Q as int) == 341);
    } else if k == 16 {
        assert((ZETAS_MONT@[31] * ZETAS_MONT@[16]) % (Q as int) == 341);
    } else if k == 17 {
        assert((ZETAS_MONT@[30] * ZETAS_MONT@[17]) % (Q as int) == 341);
    } else if k == 18 {
        assert((ZETAS_MONT@[29] * ZETAS_MONT@[18]) % (Q as int) == 341);
    } else if k == 19 {
        assert((ZETAS_MONT@[28] * ZETAS_MONT@[19]) % (Q as int) == 341);
    } else if k == 20 {
        assert((ZETAS_MONT@[27] * ZETAS_MONT@[20]) % (Q as int) == 341);
    } else if k == 21 {
        assert((ZETAS_MONT@[26] * ZETAS_MONT@[21]) % (Q as int) == 341);
    } else if k == 22 {
        assert((ZETAS_MONT@[25] * ZETAS_MONT@[22]) % (Q as int) == 341);
    } else if k == 23 {
        assert((ZETAS_MONT@[24] * ZETAS_MONT@[23]) % (Q as int) == 341);
    } else if k == 24 {
        assert((ZETAS_MONT@[23] * ZETAS_MONT@[24]) % (Q as int) == 341);
    } else if k == 25 {
        assert((ZETAS_MONT@[22] * ZETAS_MONT@[25]) % (Q as int) == 341);
    } else if k == 26 {
        assert((ZETAS_MONT@[21] * ZETAS_MONT@[26]) % (Q as int) == 341);
    } else if k == 27 {
        assert((ZETAS_MONT@[20] * ZETAS_MONT@[27]) % (Q as int) == 341);
    } else if k == 28 {
        assert((ZETAS_MONT@[19] * ZETAS_MONT@[28]) % (Q as int) == 341);
    } else if k == 29 {
        assert((ZETAS_MONT@[18] * ZETAS_MONT@[29]) % (Q as int) == 341);
    } else if k == 30 {
        assert((ZETAS_MONT@[17] * ZETAS_MONT@[30]) % (Q as int) == 341);
    } else if k == 31 {
        assert((ZETAS_MONT@[16] * ZETAS_MONT@[31]) % (Q as int) == 341);
    } else if k == 32 {
        assert((ZETAS_MONT@[63] * ZETAS_MONT@[32]) % (Q as int) == 341);
    } else if k == 33 {
        assert((ZETAS_MONT@[62] * ZETAS_MONT@[33]) % (Q as int) == 341);
    } else if k == 34 {
        assert((ZETAS_MONT@[61] * ZETAS_MONT@[34]) % (Q as int) == 341);
    } else if k == 35 {
        assert((ZETAS_MONT@[60] * ZETAS_MONT@[35]) % (Q as int) == 341);
    } else if k == 36 {
        assert((ZETAS_MONT@[59] * ZETAS_MONT@[36]) % (Q as int) == 341);
    } else if k == 37 {
        assert((ZETAS_MONT@[58] * ZETAS_MONT@[37]) % (Q as int) == 341);
    } else if k == 38 {
        assert((ZETAS_MONT@[57] * ZETAS_MONT@[38]) % (Q as int) == 341);
    } else if k == 39 {
        assert((ZETAS_MONT@[56] * ZETAS_MONT@[39]) % (Q as int) == 341);
    } else if k == 40 {
        assert((ZETAS_MONT@[55] * ZETAS_MONT@[40]) % (Q as int) == 341);
    } else if k == 41 {
        assert((ZETAS_MONT@[54] * ZETAS_MONT@[41]) % (Q as int) == 341);
    } else if k == 42 {
        assert((ZETAS_MONT@[53] * ZETAS_MONT@[42]) % (Q as int) == 341);
    } else if k == 43 {
        assert((ZETAS_MONT@[52] * ZETAS_MONT@[43]) % (Q as int) == 341);
    } else if k == 44 {
        assert((ZETAS_MONT@[51] * ZETAS_MONT@[44]) % (Q as int) == 341);
    } else if k == 45 {
        assert((ZETAS_MONT@[50] * ZETAS_MONT@[45]) % (Q as int) == 341);
    } else if k == 46 {
        assert((ZETAS_MONT@[49] * ZETAS_MONT@[46]) % (Q as int) == 341);
    } else if k == 47 {
        assert((ZETAS_MONT@[48] * ZETAS_MONT@[47]) % (Q as int) == 341);
    } else if k == 48 {
        assert((ZETAS_MONT@[47] * ZETAS_MONT@[48]) % (Q as int) == 341);
    } else if k == 49 {
        assert((ZETAS_MONT@[46] * ZETAS_MONT@[49]) % (Q as int) == 341);
    } else if k == 50 {
        assert((ZETAS_MONT@[45] * ZETAS_MONT@[50]) % (Q as int) == 341);
    } else if k == 51 {
        assert((ZETAS_MONT@[44] * ZETAS_MONT@[51]) % (Q as int) == 341);
    } else if k == 52 {
        assert((ZETAS_MONT@[43] * ZETAS_MONT@[52]) % (Q as int) == 341);
    } else if k == 53 {
        assert((ZETAS_MONT@[42] * ZETAS_MONT@[53]) % (Q as int) == 341);
    } else if k == 54 {
        assert((ZETAS_MONT@[41] * ZETAS_MONT@[54]) % (Q as int) == 341);
    } else if k == 55 {
        assert((ZETAS_MONT@[40] * ZETAS_MONT@[55]) % (Q as int) == 341);
    } else if k == 56 {
        assert((ZETAS_MONT@[39] * ZETAS_MONT@[56]) % (Q as int) == 341);
    } else if k == 57 {
        assert((ZETAS_MONT@[38] * ZETAS_MONT@[57]) % (Q as int) == 341);
    } else if k == 58 {
        assert((ZETAS_MONT@[37] * ZETAS_MONT@[58]) % (Q as int) == 341);
    } else if k == 59 {
        assert((ZETAS_MONT@[36] * ZETAS_MONT@[59]) % (Q as int) == 341);
    } else if k == 60 {
        assert((ZETAS_MONT@[35] * ZETAS_MONT@[60]) % (Q as int) == 341);
    } else if k == 61 {
        assert((ZETAS_MONT@[34] * ZETAS_MONT@[61]) % (Q as int) == 341);
    } else if k == 62 {
        assert((ZETAS_MONT@[33] * ZETAS_MONT@[62]) % (Q as int) == 341);
    } else if k == 63 {
        assert((ZETAS_MONT@[32] * ZETAS_MONT@[63]) % (Q as int) == 341);
    } else if k == 64 {
        assert((ZETAS_MONT@[127] * ZETAS_MONT@[64]) % (Q as int) == 341);
    } else if k == 65 {
        assert((ZETAS_MONT@[126] * ZETAS_MONT@[65]) % (Q as int) == 341);
    } else if k == 66 {
        assert((ZETAS_MONT@[125] * ZETAS_MONT@[66]) % (Q as int) == 341);
    } else if k == 67 {
        assert((ZETAS_MONT@[124] * ZETAS_MONT@[67]) % (Q as int) == 341);
    } else if k == 68 {
        assert((ZETAS_MONT@[123] * ZETAS_MONT@[68]) % (Q as int) == 341);
    } else if k == 69 {
        assert((ZETAS_MONT@[122] * ZETAS_MONT@[69]) % (Q as int) == 341);
    } else if k == 70 {
        assert((ZETAS_MONT@[121] * ZETAS_MONT@[70]) % (Q as int) == 341);
    } else if k == 71 {
        assert((ZETAS_MONT@[120] * ZETAS_MONT@[71]) % (Q as int) == 341);
    } else if k == 72 {
        assert((ZETAS_MONT@[119] * ZETAS_MONT@[72]) % (Q as int) == 341);
    } else if k == 73 {
        assert((ZETAS_MONT@[118] * ZETAS_MONT@[73]) % (Q as int) == 341);
    } else if k == 74 {
        assert((ZETAS_MONT@[117] * ZETAS_MONT@[74]) % (Q as int) == 341);
    } else if k == 75 {
        assert((ZETAS_MONT@[116] * ZETAS_MONT@[75]) % (Q as int) == 341);
    } else if k == 76 {
        assert((ZETAS_MONT@[115] * ZETAS_MONT@[76]) % (Q as int) == 341);
    } else if k == 77 {
        assert((ZETAS_MONT@[114] * ZETAS_MONT@[77]) % (Q as int) == 341);
    } else if k == 78 {
        assert((ZETAS_MONT@[113] * ZETAS_MONT@[78]) % (Q as int) == 341);
    } else if k == 79 {
        assert((ZETAS_MONT@[112] * ZETAS_MONT@[79]) % (Q as int) == 341);
    } else if k == 80 {
        assert((ZETAS_MONT@[111] * ZETAS_MONT@[80]) % (Q as int) == 341);
    } else if k == 81 {
        assert((ZETAS_MONT@[110] * ZETAS_MONT@[81]) % (Q as int) == 341);
    } else if k == 82 {
        assert((ZETAS_MONT@[109] * ZETAS_MONT@[82]) % (Q as int) == 341);
    } else if k == 83 {
        assert((ZETAS_MONT@[108] * ZETAS_MONT@[83]) % (Q as int) == 341);
    } else if k == 84 {
        assert((ZETAS_MONT@[107] * ZETAS_MONT@[84]) % (Q as int) == 341);
    } else if k == 85 {
        assert((ZETAS_MONT@[106] * ZETAS_MONT@[85]) % (Q as int) == 341);
    } else if k == 86 {
        assert((ZETAS_MONT@[105] * ZETAS_MONT@[86]) % (Q as int) == 341);
    } else if k == 87 {
        assert((ZETAS_MONT@[104] * ZETAS_MONT@[87]) % (Q as int) == 341);
    } else if k == 88 {
        assert((ZETAS_MONT@[103] * ZETAS_MONT@[88]) % (Q as int) == 341);
    } else if k == 89 {
        assert((ZETAS_MONT@[102] * ZETAS_MONT@[89]) % (Q as int) == 341);
    } else if k == 90 {
        assert((ZETAS_MONT@[101] * ZETAS_MONT@[90]) % (Q as int) == 341);
    } else if k == 91 {
        assert((ZETAS_MONT@[100] * ZETAS_MONT@[91]) % (Q as int) == 341);
    } else if k == 92 {
        assert((ZETAS_MONT@[99] * ZETAS_MONT@[92]) % (Q as int) == 341);
    } else if k == 93 {
        assert((ZETAS_MONT@[98] * ZETAS_MONT@[93]) % (Q as int) == 341);
    } else if k == 94 {
        assert((ZETAS_MONT@[97] * ZETAS_MONT@[94]) % (Q as int) == 341);
    } else if k == 95 {
        assert((ZETAS_MONT@[96] * ZETAS_MONT@[95]) % (Q as int) == 341);
    } else if k == 96 {
        assert((ZETAS_MONT@[95] * ZETAS_MONT@[96]) % (Q as int) == 341);
    } else if k == 97 {
        assert((ZETAS_MONT@[94] * ZETAS_MONT@[97]) % (Q as int) == 341);
    } else if k == 98 {
        assert((ZETAS_MONT@[93] * ZETAS_MONT@[98]) % (Q as int) == 341);
    } else if k == 99 {
        assert((ZETAS_MONT@[92] * ZETAS_MONT@[99]) % (Q as int) == 341);
    } else if k == 100 {
        assert((ZETAS_MONT@[91] * ZETAS_MONT@[100]) % (Q as int) == 341);
    } else if k == 101 {
        assert((ZETAS_MONT@[90] * ZETAS_MONT@[101]) % (Q as int) == 341);
    } else if k == 102 {
        assert((ZETAS_MONT@[89] * ZETAS_MONT@[102]) % (Q as int) == 341);
    } else if k == 103 {
        assert((ZETAS_MONT@[88] * ZETAS_MONT@[103]) % (Q as int) == 341);
    } else if k == 104 {
        assert((ZETAS_MONT@[87] * ZETAS_MONT@[104]) % (Q as int) == 341);
    } else if k == 105 {
        assert((ZETAS_MONT@[86] * ZETAS_MONT@[105]) % (Q as int) == 341);
    } else if k == 106 {
        assert((ZETAS_MONT@[85] * ZETAS_MONT@[106]) % (Q as int) == 341);
    } else if k == 107 {
        assert((ZETAS_MONT@[84] * ZETAS_MONT@[107]) % (Q as int) == 341);
    } else if k == 108 {
        assert((ZETAS_MONT@[83] * ZETAS_MONT@[108]) % (Q as int) == 341);
    } else if k == 109 {
        assert((ZETAS_MONT@[82] * ZETAS_MONT@[109]) % (Q as int) == 341);
    } else if k == 110 {
        assert((ZETAS_MONT@[81] * ZETAS_MONT@[110]) % (Q as int) == 341);
    } else if k == 111 {
        assert((ZETAS_MONT@[80] * ZETAS_MONT@[111]) % (Q as int) == 341);
    } else if k == 112 {
        assert((ZETAS_MONT@[79] * ZETAS_MONT@[112]) % (Q as int) == 341);
    } else if k == 113 {
        assert((ZETAS_MONT@[78] * ZETAS_MONT@[113]) % (Q as int) == 341);
    } else if k == 114 {
        assert((ZETAS_MONT@[77] * ZETAS_MONT@[114]) % (Q as int) == 341);
    } else if k == 115 {
        assert((ZETAS_MONT@[76] * ZETAS_MONT@[115]) % (Q as int) == 341);
    } else if k == 116 {
        assert((ZETAS_MONT@[75] * ZETAS_MONT@[116]) % (Q as int) == 341);
    } else if k == 117 {
        assert((ZETAS_MONT@[74] * ZETAS_MONT@[117]) % (Q as int) == 341);
    } else if k == 118 {
        assert((ZETAS_MONT@[73] * ZETAS_MONT@[118]) % (Q as int) == 341);
    } else if k == 119 {
        assert((ZETAS_MONT@[72] * ZETAS_MONT@[119]) % (Q as int) == 341);
    } else if k == 120 {
        assert((ZETAS_MONT@[71] * ZETAS_MONT@[120]) % (Q as int) == 341);
    } else if k == 121 {
        assert((ZETAS_MONT@[70] * ZETAS_MONT@[121]) % (Q as int) == 341);
    } else if k == 122 {
        assert((ZETAS_MONT@[69] * ZETAS_MONT@[122]) % (Q as int) == 341);
    } else if k == 123 {
        assert((ZETAS_MONT@[68] * ZETAS_MONT@[123]) % (Q as int) == 341);
    } else if k == 124 {
        assert((ZETAS_MONT@[67] * ZETAS_MONT@[124]) % (Q as int) == 341);
    } else if k == 125 {
        assert((ZETAS_MONT@[66] * ZETAS_MONT@[125]) % (Q as int) == 341);
    } else if k == 126 {
        assert((ZETAS_MONT@[65] * ZETAS_MONT@[126]) % (Q as int) == 341);
    } else if k == 127 {
        assert((ZETAS_MONT@[64] * ZETAS_MONT@[127]) % (Q as int) == 341);
    }
}


/// A butterfly followed by its inverse on the lower output: `2 y`, when
/// the two twiddles multiply to `-1` (`zr zc = -R^2` in Montgomery form).
proof fn lemma_lower(x: int, y: int, zc: int, zr: int)
    requires
        (zr * zc) % (Q as int) == 341,
    ensures
        mont_mul_spec(
            zr,
            ((x - mont_mul_spec(zc, y, Q as int)) % (Q as int) - (x + mont_mul_spec(zc, y, Q as int)) % (
            Q as int)) % (Q as int),
            Q as int,
        ) == (2 * y) % (Q as int),
{
    let q = Q as int;
    let ri = r_inv(q);
    assert(ri == 1929);
    let m = (zc * y * ri) % q;
    assert(mont_mul_spec(zc, y, q) == m);
    let d = ((x - m) % q - (x + m) % q) % q;
    lemma_sub_mod_noop(x - m, x + m, q);
    assert(d == (0 - 2 * m) % q);
    lemma_mul_mod_noop_right(zr, 0 - 2 * m, q);
    lemma_mul_mod_noop_left(zr * d, ri, q);
    lemma_mul_mod_noop_left(zr * (0 - 2 * m), ri, q);
    assert((zr * d * ri) % q == (zr * (0 - 2 * m) * ri) % q);
    let a = zr * (0 - 2) * ri;
    assert(zr * (0 - 2 * m) * ri == a * m) by (nonlinear_arith)
        requires
            a == zr * (0 - 2) * ri,
    ;
    lemma_mul_mod_noop_right(a, zc * y * ri, q);
    let t = zr * zc;
    let k = 2 * y * ri * ri;
    assert(a * (zc * y * ri) == k * (0 - t)) by (nonlinear_arith)
        requires
            a == zr * (0 - 2) * ri,
            t == zr * zc,
            k == 2 * y * ri * ri,
    ;
    lemma_sub_mod_noop(0, t, q);
    assert((0 - t) % q == 2988);
    lemma_mul_mod_noop_right(k, 0 - t, q);
    assert((k * (0 - t)) % q == (k * 2988) % q);
    assert(k * 2988 == (2 * y) * (ri * ri * 2988)) by (nonlinear_arith)
        requires
            k == 2 * y * ri * ri,
    ;
    assert((ri * ri * 2988) % q == 1);
    lemma_mul_mod_noop_right(2 * y, ri * ri * 2988, q);
}

/// The Gentleman-Sande layer undoes the Cooley-Tukey layer of the same
/// half-length, up to a factor 2.
proof fn lemma_layer_inverse(a: Seq<int>, len: int)
    requires
        layer_len(len),
        len >= 2,
        a.len() == 256,
    ensures
        kem_gs_layer(kem_ct_layer(a, len), len) == scale_mod(2, a, Q as int),
{
    let c = kem_ct_layer(a, len);
    let g = kem_gs_layer(c, len);
    assert forall|j: int| 0 <= j < 256 implies #[trigger] g[j] == scale_mod(2, a, Q as int)[j] by {
        let b = j / (2 * len);
        lemma_fundamental_div_mod(j, 2 * len);
        assert(0 <= b) by {
            lemma_div_pos_is_pos(j, 2 * len);
        }
        assert(2 * len * b <= j < 2 * len * b + 2 * len) by (nonlinear_arith)
            requires
                j == (2 * len) * b + j % (2 * len),
                0 <= j % (2 * len) < 2 * len,
        ;
        lemma_layer_counts(len, b);
        lemma_pair_index(len, b);
        let k = 128int / len + b;
        let z = ZETAS_MONT@[k] as int;
        lemma_twiddle_pair(k);
        if j % (2 * len) < len {
            lemma_block(j + len, len, b);
            lemma_upper(a[j], mont_mul_spec(z, a[j + len], Q as int), Q as int);
        } else {
            lemma_block(j - len, len, b);
            lemma_lower(a[j - len], a[j], z, ZETAS_MONT@[256int / len - 1 - b] as int);
        }
    }
    assert(g =~= scale_mod(2, a, Q as int));
}

/// Gentleman-Sande layers commute with scaling.
proof fn lemma_gs_layer_linear(c: int, a: Seq<int>, len: int)
    requires
        layer_len(len),
        len >= 2,
        a.len() == 256,
    ensures
        kem_gs_layer(scale_mod(c, a, Q as int), len) == scale_mod(c, kem_gs_layer(a, len), Q as int),
{
    let q = Q as int;
    let sa = scale_mod(c, a, q);
    let lhs = kem_gs_layer(sa, len);
    let rhs = scale_mod(c, kem_gs_layer(a, len), q);
    assert forall|j: int| 0 <= j < 256 implies #[trigger] lhs[j] == rhs[j] by {
        let b = j / (2 * len);
        lemma_fundamental_div_mod(j, 2 * len);
        assert(0 <= b) by {
            lemma_div_pos_is_pos(j, 2 * len);
        }
        assert(2 * len * b <= j < 2 * len * b + 2 * len) by (nonlinear_arith)
            requires
                j == (2 * len) * b + j % (2 * len),
                0 <= j % (2 * len) < 2 * len,
        ;
        lemma_layer_counts(len, b);
        if j % (2 * len) < len {
            let s = a[j] + a[j + len];
            lemma_add_mod_noop(c * a[j], c * a[j + len], q);
            assert(c * a[j] + c * a[j + len] == c * s) by (nonlinear_arith)
                requires
                    s == a[j] + a[j + len],
            ;
            lemma_mul_mod_noop_right(c, s, q);
        } else {
            let z = ZETAS_MONT@[256int / len - 1 - j / (2 * len)] as int;
            lemma_lin_lower(c, z, a[j], a[j - len], q);
        }
    }
    assert(lhs =~= rhs);
}

/// The Gentleman-Sande layers with half-lengths `2, 4, ..., hi`, in that
/// order.
pub open spec fn kem_gs_upto(y: Seq<int>, hi: nat) -> Seq<int>
    decreases hi,
{
    if hi < 2 {
        y
    } else {
        kem_gs_layer(kem_gs_upto(y, hi / 2), hi as int)
    }
}

/// Cooley-Tukey layers `len, ..., 2` followed by Gentleman-Sande layers
/// `2, ..., len` scale by `len`.
proof fn lemma_layers_inverse(a: Seq<int>, len: nat)
    requires
        layer_len(len as int),
        len >= 2,
        a.len() == 256,
    ensures
        kem_gs_upto(kem_ct_layers(a, len), len) == scale_mod(len as int, a, Q as int),
        kem_ct_layers(a, len).len() == 256,
    decreases len,
{
    if len == 2 {
        reveal_with_fuel(kem_ct_layers, 2);
        reveal_with_fuel(kem_gs_upto, 2);
        assert(kem_ct_layers(a, 2) == kem_ct_layers(kem_ct_layer(a, 2), 1));
        assert(kem_ct_layers(a, 2) == kem_ct_layer(a, 2));
        assert(kem_gs_upto(kem_ct_layer(a, 2), 2) == kem_gs_layer(kem_gs_upto(kem_ct_layer(a, 2), 1), 2));
        assert(kem_gs_upto(kem_ct_layer(a, 2), 2) == kem_gs_layer(kem_ct_layer(a, 2), 2));
        lemma_layer_inverse(a, 2);
    } else {
        let half = len / 2;
        assert(layer_len(half as int));
        let c = kem_ct_layer(a, len as int);
        assert(kem_ct_layers(a, len) == kem_ct_layers(c, half));
        lemma_layers_inverse(c, half);
        assert(kem_gs_upto(kem_ct_layers(a, len), len) == kem_gs_layer(
            scale_mod(half as int, c, Q as int),
            len as int,
        ));
        lemma_gs_layer_linear(half as int, c, len as int);
        lemma_layer_inverse(a, len as int);
        lemma_scale_compose(half as int, 2, a, Q as int);
        assert(half * 2 == len);
    }
}

/// Applying the remaining Gentleman-Sande layers from `l` on to the
/// result of the ones below `l` is applying all of them.
proof fn lemma_gs_layers_upto(y: Seq<int>, l: nat)
    requires
        l == 2 || l == 4 || l == 8 || l == 16 || l == 32 || l == 64 || l == 128 || l == 256,
    ensures
        kem_gs_layers(kem_gs_upto(y, l / 2), l) == kem_gs_upto(y, 128),
    decreases 256 - l,
{
    if l < 256 {
        assert(kem_gs_layers(kem_gs_upto(y, l / 2), l) == kem_gs_layers(
            kem_gs_layer(kem_gs_upto(y, l / 2), l as int),
            2 * l,
        ));
        assert(kem_gs_upto(y, l) == kem_gs_layer(kem_gs_upto(y, l / 2), l as int));
        lemma_gs_layers_upto(y, 2 * l);
        assert((2 * l) / 2 == l);
    } else {
        assert(l / 2 == 128);
    }
}

/// The inverse NTT undoes the forward NTT: for canonical coefficients
/// `a`, `inv_ntt(ntt(a)) == a`.
#[verifier::spinoff_prover]
pub proof fn lemma_kem_ntt_roundtrip(a: Seq<u32>)
    requires
        a.len() == 256,
        forall|i: int| 0 <= i < 256 ==> #[trigger] a[i] < Q,
    ensures
        kem_inv_ntt_spec(kem_ntt_spec(a)) == as_ints(a),
{
    let q = Q as int;
    let m = mont_seq_kem(a);
    let x = kem_ntt_spec(a);
    lemma_layers_inverse(m, 128);
    lemma_gs_layers_upto(x, 2);
    assert(kem_gs_upto(x, 1) == x);
    let g = kem_gs_layers(x, 2);
    assert(g == scale_mod(128, m, q));
    let ri = r_inv(q);
    assert forall|i: int| 0 <= i < 256 implies #[trigger] kem_inv_ntt_spec(x)[i] == as_ints(a)[i] by {
        let ai = a[i] as int;
        assert(g[i] == (128 * ((ai * mont_r()) % q)) % q);
        lemma_mul_mod_noop_right(128, ai * mont_r(), q);
        lemma_mul_mod_noop_right(N_INV_128 as int, 128 * (ai * mont_r()), q);
        lemma_mul_mod_noop_left((N_INV_128 as int) * g[i], ri, q);
        lemma_mul_mod_noop_left((N_INV_128 as int) * (128 * (ai * mont_r())), ri, q);
        assert((N_INV_128 as int) * (128 * (ai * mont_r())) * ri == ai * ((N_INV_128 as int) * 128 * (
        mont_r() * ri))) by (nonlinear_arith);
        assert(((N_INV_128 as int) * 128 * (mont_r() * ri)) % q == 1);
        lemma_mul_mod_noop_right(ai, (N_INV_128 as int) * 128 * (mont_r() * ri), q);
        lemma_small_mod(ai as nat, q as nat);
    }
    assert(kem_inv_ntt_spec(x) =~= as_ints(a));
}


/// Two Montgomery products with a mirrored twiddle pair negate:
/// `zc (zr d) = -d` in the field when `zr zc = -R^2`.
proof fn lemma_mirror_product(zc: int, zr: int, d: int)
    requires
        (zr * zc) % (Q as int) == 341,
    ensures
        mont_mul_spec(zc, mont_mul_spec(zr, d, Q as int), Q as int) == (0 - d) % (Q as int),
{
    let q = Q as int;
    let ri = r_inv(q);
    assert(ri == 1929);
    let m = (zr * d * ri) % q;
    lemma_mul_mod_noop_right(zc, zr * d * ri, q);
    lemma_mul_mod_noop_left(zc * m, ri, q);
    lemma_mul_mod_noop_left(zc * (zr * d * ri), ri, q);
    assert(zc * (zr * d * ri) * ri == (zr * zc) * (d * ri * ri)) by (nonlinear_arith);
    lemma_mul_mod_noop_left(zr * zc, d * ri * ri, q);
    assert(341 * (d * ri * ri) == d * (341 * ri * ri)) by (nonlinear_arith);
    assert((341 * ri * ri) % q == q - 1);
    lemma_mul_mod_noop_right(d, 341 * ri * ri, q);
    assert(d * (q - 1) == q * d + (0 - d)) by (nonlinear_arith);
    lemma_mod_multiples_vanish(d, 0 - d, q);
}

/// The Cooley-Tukey layer undoes the Gentleman-Sande layer of the same
/// half-length, up to a factor 2.
proof fn lemma_layer_inverse_rev(a: Seq<int>, len: int)
    requires
        layer_len(len),
        len >= 2,
        a.len() == 256,
    ensures
        kem_ct_layer(kem_gs_layer(a, len), len) == scale_mod(2, a, Q as int),
{
    let q = Q as int;
    let g = kem_gs_layer(a, len);
    let c = kem_ct_layer(g, len);
    assert forall|j: int| 0 <= j < 256 implies #[trigger] c[j] == scale_mod(2, a, q)[j] by {
        let b = j / (2 * len);
        lemma_fundamental_div_mod(j, 2 * len);
        assert(0 <= b) by {
            lemma_div_pos_is_pos(j, 2 * len);
        }
        assert(2 * len * b <= j < 2 * len * b + 2 * len) by (nonlinear_arith)
            requires
                j == (2 * len) * b + j % (2 * len),
                0 <= j % (2 * len) < 2 * len,
        ;
        lemma_layer_counts(len, b);
        lemma_pair_index(len, b);
        let k = 128int / len + b;
        let zc = ZETAS_MONT@[k] as int;
        let zr = ZETAS_MONT@[256int / len - 1 - b] as int;
        lemma_twiddle_pair(k);
        if j % (2 * len) < len {
            lemma_block(j + len, len, b);
            let x = a[j] + a[j + len];
            let d = (a[j + len] - a[j]) % q;
            assert(g[j] == x % q);
            assert(g[j + len] == mont_mul_spec(zr, d, q));
            lemma_mirror_product(zc, zr, d);
            lemma_sub_mod_noop(0, a[j + len] - a[j], q);
            assert((0 - d) % q == (0 - (a[j + len] - a[j])) % q);
            lemma_add_mod_noop(x, 0 - (a[j + len] - a[j]), q);
        } else {
            lemma_block(j - len, len, b);
            let x = a[j - len] + a[j];
            let d = (a[j] - a[j - len]) % q;
            assert(g[j - len] == x % q);
            assert(g[j] == mont_mul_spec(zr, d, q));
            lemma_mirror_product(zc, zr, d);
            lemma_sub_mod_noop(0, a[j] - a[j - len], q);
            lemma_sub_mod_noop(x, 0 - (a[j] - a[j - len]), q);
        }
    }
    assert(c =~= scale_mod(2, a, q));
}

/// A Montgomery product commutes with scaling its second operand.
proof fn lemma_mont_scale(z: int, c: int, y: int)
    ensures
        mont_mul_spec(z, (c * y) % (Q as int), Q as int) == (c * mont_mul_spec(z, y, Q as int)) % (
        Q as int),
{
    let q = Q as int;
    let ri = r_inv(q);
    lemma_mul_mod_noop_right(z, c * y, q);
    lemma_mul_mod_noop_left(z * ((c * y) % q), ri, q);
    lemma_mul_mod_noop_left(z * (c * y), ri, q);
    lemma_mul_mod_noop_right(c, z * y * ri, q);
    assert(z * (c * y) * ri == c * (z * y * ri)) by (nonlinear_arith);
}

/// Cooley-Tukey layers commute with scaling.
proof fn lemma_ct_layer_linear(c: int, a: Seq<int>, len: int)
    requires
        layer_len(len),
        len >= 2,
        a.len() == 256,
    ensures
        kem_ct_layer(scale_mod(c, a, Q as int), len) == scale_mod(c, kem_ct_layer(a, len), Q as int),
{
    let q = Q as int;
    let sa = scale_mod(c, a, q);
    let lhs = kem_ct_layer(sa, len);
    let rhs = scale_mod(c, kem_ct_layer(a, len), q);
    assert forall|j: int| 0 <= j < 256 implies #[trigger] lhs[j] == rhs[j] by {
        let b = j / (2 * len);
        lemma_fundamental_div_mod(j, 2 * len);
        assert(0 <= b) by {
            lemma_div_pos_is_pos(j, 2 * len);
        }
        assert(2 * len * b <= j < 2 * len * b + 2 * len) by (nonlinear_arith)
            requires
                j == (2 * len) * b + j % (2 * len),
                0 <= j % (2 * len) < 2 * len,
        ;
        lemma_layer_counts(len, b);
        let z = ZETAS_MONT@[128int / len + j / (2 * len)] as int;
        if j % (2 * len) < len {
            let m = mont_mul_spec(z, a[j + len], q);
            lemma_mont_scale(z, c, a[j + len]);
            lemma_add_mod_noop(c * a[j], c * m, q);
            assert(c * a[j] + c * m == c * (a[j] + m)) by (nonlinear_arith);
            lemma_mul_mod_noop_right(c, a[j] + m, q);
        } else {
            let m = mont_mul_spec(z, a[j], q);
            lemma_mont_scale(z, c, a[j]);
            lemma_sub_mod_noop(c * a[j - len], c * m, q);
            assert(c * a[j - len] - c * m == c * (a[j - len] - m)) by (nonlinear_arith);
            lemma_mul_mod_noop_right(c, a[j - len] - m, q);
        }
    }
    assert(lhs =~= rhs);
}

/// The Cooley-Tukey layers commute with scaling.
pub(crate) proof fn lemma_ct_layers_linear(c: int, a: Seq<int>, len: nat)
    requires
        layer_len(len as int),
        len >= 2,
        a.len() == 256,
    ensures
        kem_ct_layers(scale_mod(c, a, Q as int), len) == scale_mod(c, kem_ct_layers(a, len), Q as int),
        kem_ct_layers(a, len).len() == 256,
    decreases len,
{
    lemma_ct_layer_linear(c, a, len as int);
    let half = len / 2;
    if half < 2 {
        assert(kem_ct_layers(kem_ct_layer(a, len as int), half) == kem_ct_layer(a, len as int));
        assert(kem_ct_layers(kem_ct_layer(scale_mod(c, a, Q as int), len as int), half)
            == kem_ct_layer(scale_mod(c, a, Q as int), len as int));
    } else {
        assert(layer_len(half as int));
        lemma_ct_layers_linear(c, kem_ct_layer(a, len as int), half);
    }
}

/// Gentleman-Sande layers `2, ..., len` followed by Cooley-Tukey layers
/// `len, ..., 2` scale by `len`.
proof fn lemma_layers_inverse_rev(y: Seq<int>, len: nat)
    requires
        layer_len(len as int),
        len >= 2,
        y.len() == 256,
    ensures
        kem_ct_layers(kem_gs_upto(y, len), len) == scale_mod(len as int, y, Q as int),
        kem_gs_upto(y, len).len() == 256,
    decreases len,
{
    let half = len / 2;
    let w = kem_gs_upto(y, half);
    assert(kem_gs_upto(y, len) == kem_gs_layer(w, len as int));
    if len == 2 {
        assert(w == y);
        lemma_layer_inverse_rev(y, 2);
        assert(kem_ct_layers(kem_gs_layer(y, 2), 2) == kem_ct_layers(
            kem_ct_layer(kem_gs_layer(y, 2), 2),
            1,
        ));
    } else {
        assert(layer_len(half as int));
        lemma_layers_inverse_rev(y, half);
        lemma_layer_inverse_rev(w, len as int);
        assert(kem_ct_layers(kem_gs_layer(w, len as int), len) == kem_ct_layers(
            scale_mod(2, w, Q as int),
            half,
        ));
        lemma_ct_layers_linear(2, w, half);
        lemma_scale_compose(2, half as int, y, Q as int);
        assert(2 * half == len);
    }
}

/// The forward NTT undoes the inverse NTT: for canonical `x` in the
/// transform domain, `ntt(inv_ntt(x)) == x`.
pub proof fn lemma_kem_inv_ntt_roundtrip(x: Seq<int>)
    requires
        x.len() == 256,
        forall|i: int| 0 <= i < 256 ==> 0 <= #[trigger] x[i] < Q,
    ensures
        forall|i: int| 0 <= i < 256 ==> 0 <= #[trigger] kem_inv_ntt_spec(x)[i] < Q,
        kem_ntt_spec(Seq::new(256, |i: int| kem_inv_ntt_spec(x)[i] as u32)) == x,
{
    let q = Q as int;
    let ri = r_inv(q);
    lemma_gs_layers_upto(x, 2);
    assert(kem_gs_upto(x, 1) == x);
    let g = kem_gs_layers(x, 2);
    lemma_layers_inverse_rev(x, 128);
    assert(g == kem_gs_upto(x, 128));
    let inv = kem_inv_ntt_spec(x);
    assert forall|i: int| 0 <= i < 256 implies 0 <= #[trigger] inv[i] < Q by {
        lemma_mod_bound((N_INV_128 as int) * g[i] * ri, q);
    }
    let a = Seq::new(256, |i: int| inv[i] as u32);
    let m = mont_seq_kem(a);
    let nv = N_INV_128 as int;
    assert forall|i: int| 0 <= i < 256 implies #[trigger] m[i] == scale_mod(nv, g, q)[i] by {
        lemma_mod_bound(nv * g[i] * ri, q);
        assert(a[i] as int == (nv * g[i] * ri) % q);
        lemma_mul_mod_noop_left(nv * g[i] * ri, mont_r(), q);
        assert(nv * g[i] * ri * mont_r() == (nv * g[i]) * (ri * mont_r())) by (nonlinear_arith);
        assert((ri * mont_r()) % q == 1);
        lemma_mul_mod_noop_right(nv * g[i], ri * mont_r(), q);
    }
    assert(m =~= scale_mod(nv, g, q));
    lemma_ct_layers_linear(nv, g, 128);
    lemma_scale_compose(nv, 128, x, q);
    assert forall|i: int| 0 <= i < 256 implies #[trigger] scale_mod(nv * 128, x, q)[i] == x[i] by {
        lemma_mul_mod_noop_left(nv * 128, x[i], q);
        assert((nv * 128) % q == 1);
        lemma_small_mod(x[i] as nat, q as nat);
    }
    assert(scale_mod(nv * 128, x, q) =~= x);
}


/// A Montgomery product with a fixed factor is additive.
proof fn lemma_mont_add(z: int, x: int, x1: int, x2: int)
    requires
        x % (Q as int) == (x1 + x2) % (Q as int),
    ensures
        mont_mul_spec(z, x, Q as int) == (mont_mul_spec(z, x1, Q as int) + mont_mul_spec(z, x2, Q as int))
            % (Q as int),
{
    let q = Q as int;
    let ri = r_inv(q);
    lemma_mul_mod_noop_right(z * ri, x, q);
    lemma_mul_mod_noop_right(z * ri, x1 + x2, q);
    assert(z * x * ri == (z * ri) * x) by (nonlinear_arith);
    assert((z * ri) * (x1 + x2) == z * x1 * ri + z * x2 * ri) by (nonlinear_arith);
    lemma_add_mod_noop(z * x1 * ri, z * x2 * ri, q);
}

/// One Gentleman-Sande layer is additive.
proof fn lemma_gs_layer_add(a: Seq<int>, b: Seq<int>, len: int)
    requires
        layer_len(len),
        len >= 2,
        a.len() == 256,
        b.len() == 256,
    ensures
        kem_gs_layer(add_q(a, b), len) == add_q(kem_gs_layer(a, len), kem_gs_layer(b, len)),
{
    let q = Q as int;
    let s = add_q(a, b);
    let lhs = kem_gs_layer(s, len);
    let rhs = add_q(kem_gs_layer(a, len), kem_gs_layer(b, len));
    assert forall|j: int| 0 <= j < 256 implies #[trigger] lhs[j] == rhs[j] by {
        let bk = j / (2 * len);
        lemma_fundamental_div_mod(j, 2 * len);
        assert(0 <= bk) by {
            lemma_div_pos_is_pos(j, 2 * len);
        }
        assert(2 * len * bk <= j < 2 * len * bk + 2 * len) by (nonlinear_arith)
            requires
                j == (2 * len) * bk + j % (2 * len),
                0 <= j % (2 * len) < 2 * len,
        ;
        lemma_layer_counts(len, bk);
        if j % (2 * len) < len {
            lemma_block(j + len, len, bk);
            lemma_add_mod_noop(a[j] + b[j], a[j + len] + b[j + len], q);
            lemma_add_mod_noop(a[j] + a[j + len], b[j] + b[j + len], q);
        } else {
            lemma_block(j - len, len, bk);
            let z = ZETAS_MONT@[256int / len - 1 - j / (2 * len)] as int;
            let d = (s[j] - s[j - len]) % q;
            lemma_sub_mod_noop(a[j] + b[j], a[j - len] + b[j - len], q);
            lemma_add_mod_noop(a[j] - a[j - len], b[j] - b[j - len], q);
            lemma_mont_add(z, d, (a[j] - a[j - len]) % q, (b[j] - b[j - len]) % q);
        }
    }
    assert(lhs =~= rhs);
}

/// One Cooley-Tukey layer is additive.
proof fn lemma_ct_layer_add(a: Seq<int>, b: Seq<int>, len: int)
    requires
        layer_len(len),
        len >= 2,
        a.len() == 256,
        b.len() == 256,
    ensures
        kem_ct_layer(add_q(a, b), len) == add_q(kem_ct_layer(a, len), kem_ct_layer(b, len)),
{
    let q = Q as int;
    let s = add_q(a, b);
    let lhs = kem_ct_layer(s, len);
    let rhs = add_q(kem_ct_layer(a, len), kem_ct_layer(b, len));
    assert forall|j: int| 0 <= j < 256 implies #[trigger] lhs[j] == rhs[j] by {
        let bk = j / (2 * len);
        lemma_fundamental_div_mod(j, 2 * len);
        assert(0 <= bk) by {
            lemma_div_pos_is_pos(j, 2 * len);
        }
        assert(2 * len * bk <= j < 2 * len * bk + 2 * len) by (nonlinear_arith)
            requires
                j == (2 * len) * bk + j % (2 * len),
                0 <= j % (2 * len) < 2 * len,
        ;
        lemma_layer_counts(len, bk);
        let z = ZETAS_MONT@[128int / len + j / (2 * len)] as int;
        if j % (2 * len) < len {
            lemma_block(j + len, len, bk);
            let ma = mont_mul_spec(z, a[j + len], q);
            let mb = mont_mul_spec(z, b[j + len], q);
            lemma_mont_add(z, s[j + len], a[j + len], b[j + len]);
            lemma_add_mod_noop(s[j], mont_mul_spec(z, s[j + len], q), q);
            lemma_add_mod_noop(a[j] + b[j], ma + mb, q);
            lemma_add_mod_noop(a[j] + ma, b[j] + mb, q);
        } else {
            lemma_block(j - len, len, bk);
            let ma = mont_mul_spec(z, a[j], q);
            let mb = mont_mul_spec(z, b[j], q);
            lemma_mont_add(z, s[j], a[j], b[j]);
            lemma_sub_mod_noop(s[j - len], mont_mul_spec(z, s[j], q), q);
            lemma_sub_mod_noop(a[j - len] + b[j - len], ma + mb, q);
            lemma_add_mod_noop(a[j - len] - ma, b[j - len] - mb, q);
        }
    }
    assert(lhs =~= rhs);
}

/// The Cooley-Tukey layers are additive.
proof fn lemma_ct_layers_add(a: Seq<int>, b: Seq<int>, len: nat)
    requires
        layer_len(len as int),
        len >= 2,
        a.len() == 256,
        b.len() == 256,
    ensures
        kem_ct_layers(add_q(a, b), len) == add_q(kem_ct_layers(a, len), kem_ct_layers(b, len)),
    decreases len,
{
    lemma_ct_layer_add(a, b, len as int);
    let half = len / 2;
    if half >= 2 {
        assert(layer_len(half as int));
        lemma_ct_layers_add(kem_ct_layer(a, len as int), kem_ct_layer(b, len as int), half);
    } else {
        assert(kem_ct_layers(kem_ct_layer(add_q(a, b), len as int), half) == kem_ct_layer(
            add_q(a, b),
            len as int,
        ));
        assert(kem_ct_layers(kem_ct_layer(a, len as int), half) == kem_ct_layer(a, len as int));
        assert(kem_ct_layers(kem_ct_layer(b, len as int), half) == kem_ct_layer(b, len as int));
    }
}

/// The Gentleman-Sande layers are additive.
proof fn lemma_gs_layers_add(a: Seq<int>, b: Seq<int>, len: nat)
    requires
        len == 2 || len == 4 || len == 8 || len == 16 || len == 32 || len == 64 || len == 128 || len
            == 256,
        a.len() == 256,
        b.len() == 256,
    ensures
        kem_gs_layers(add_q(a, b), len) == add_q(kem_gs_layers(a, len), kem_gs_layers(b, len)),
        kem_gs_layers(a, len).len() == 256,
        kem_gs_layers(b, len).len() == 256,
    decreases 256 - len,
{
    if len <= 128 {
        assert(layer_len(len as int));
        lemma_gs_layer_add(a, b, len as int);
        lemma_gs_layers_add(kem_gs_layer(a, len as int), kem_gs_layer(b, len as int), 2 * len);
    } else {
        assert(add_q(a, b) =~= add_q(a, b));
    }
}

/// The inverse NTT is additive.
pub proof fn lemma_kem_inv_ntt_add(a: Seq<int>, b: Seq<int>)
    requires
        a.len() == 256,
        b.len() == 256,
    ensures
        kem_inv_ntt_spec(add_q(a, b)) == add_q(kem_inv_ntt_spec(a), kem_inv_ntt_spec(b)),
{
    let q = Q as int;
    lemma_gs_layers_add(a, b, 2);
    let ga = kem_gs_layers(a, 2);
    let gb = kem_gs_layers(b, 2);
    let gs = kem_gs_layers(add_q(a, b), 2);
    let lhs = kem_inv_ntt_spec(add_q(a, b));
    let rhs = add_q(kem_inv_ntt_spec(a), kem_inv_ntt_spec(b));
    assert(gs == add_q(ga, gb));
    assert(ga.len() == 256 && gb.len() == 256);
    assert forall|i: int| 0 <= i < 256 implies #[trigger] lhs[i] == rhs[i] by {
        assert(gs[i] == (ga[i] + gb[i]) % q);
        lemma_mod_twice(ga[i] + gb[i], q);
        lemma_mont_add(N_INV_128 as int, gs[i], ga[i], gb[i]);
        assert(kem_inv_ntt_spec(a)[i] == mont_mul_spec(N_INV_128 as int, ga[i], q));
        assert(kem_inv_ntt_spec(b)[i] == mont_mul_spec(N_INV_128 as int, gb[i], q));
        assert(lhs[i] == mont_mul_spec(N_INV_128 as int, gs[i], q));
    }
    assert(lhs =~= rhs);
}

/// The forward NTT depends only on the residues of its input, and is
/// additive: if `c == a + b (mod q)` entrywise then
/// `ntt(c) == ntt(a) + ntt(b)`.
pub proof fn lemma_kem_ntt_add(a: Seq<u32>, b: Seq<u32>, c: Seq<u32>)
    requires
        a.len() == 256,
        b.len() == 256,
        c.len() == 256,
        forall|i: int| 0 <= i < 256 ==> #[trigger] (c[i] as int) % (Q as int) == (a[i] + b[i]) % (
        Q as int),
    ensures
        kem_ntt_spec(c) == add_q(kem_ntt_spec(a), kem_ntt_spec(b)),
{
    let q = Q as int;
    let r = mont_r();
    let mc = mont_seq_kem(c);
    let s = add_q(mont_seq_kem(a), mont_seq_kem(b));
    assert forall|i: int| 0 <= i < 256 implies #[trigger] mc[i] == s[i] by {
        lemma_mul_mod_noop_left(c[i] as int, r, q);
        lemma_mul_mod_noop_left(a[i] + b[i], r, q);
        assert((a[i] + b[i]) * r == a[i] * r + b[i] * r) by (nonlinear_arith);
        lemma_add_mod_noop(a[i] * r, b[i] * r, q);
    }
    assert(mc =~= s);
    lemma_ct_layers_add(mont_seq_kem(a), mont_seq_kem(b), 128);
}

} // verus!

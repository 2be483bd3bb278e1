//! The ML-KEM NTT turns products in `R_q = Z_q[X]/(X^256 + 1)` into the
//! base-case products of MultiplyNTTs: the seven Cooley-Tukey layers split
//! the ring into 128 factors `Z_q[X]/(X^2 - gamma_i)` (Chinese
//! remaindering), compatibly with multiplication.

use vstd::arithmetic::div_mod::*;
use vstd::prelude::*;

use crate::field::{mont_mul_spec, mont_r, r_inv};
use crate::mlkem::algebra::{gam, lemma_mul_ntt_slot, pair0, pair1};
use crate::mlkem::correctness::{canonical, lemma_ct_layers_canonical};
use crate::mlkem::ntt::{
    kem_ct_layer, kem_ct_layers, kem_inv_ntt_spec, kem_ntt_spec, mont_seq_kem, mul_ntt_spec,
    GAMMAS_MONT, ZETAS_MONT,
};
use crate::mlkem::ntt_inverse::{lemma_ct_layers_linear, lemma_kem_ntt_roundtrip};
use crate::mlkem::params::Q;
use crate::ntt::{as_ints, layer_len, lemma_block, lemma_layer_counts};
use crate::ntt_inverse::scale_mod;
use crate::ntt_mul::{
    blk, lemma_in_block, lemma_layer_position, lemma_nega_rows, lemma_split_product, lemma_twp_scale,
    split, twc, twp,
};
use crate::poly::negacyclic_coeff;
use crate::sums::{fsum, lemma_fsum_mod};

verus! {

#[verifier::rlimit(100)]
proof fn lemma_twiddle_square_0(k: int)
    requires
        1 <= k < 32,
    ensures
        (ZETAS_MONT@[k] as int * ZETAS_MONT@[k] as int * 1929) % 3329 == (if k == 1 {
            1976
        } else if k % 2 == 0 {
            ZETAS_MONT@[k / 2] as int
        } else {
            3329 - ZETAS_MONT@[k / 2] as int
        }),
{
    if k == 1 {
        assert((ZETAS_MONT@[1] as int * ZETAS_MONT@[1] as int * 1929) % 3329 == 1976);
    } else if k == 2 {
        assert((ZETAS_MONT@[2] as int * ZETAS_MONT@[2] as int * 1929) % 3329 == ZETAS_MONT@[1] as int);
    } else if k == 3 {
        assert((ZETAS_MONT@[3] as int * ZETAS_MONT@[3] as int * 1929) % 3329 == 3329 - ZETAS_MONT@[1] as int);
    } else if k == 4 {
        assert((ZETAS_MONT@[4] as int * ZETAS_MONT@[4] as int * 1929) % 3329 == ZETAS_MONT@[2] as int);
    } else if k == 5 {
        assert((ZETAS_MONT@[5] as int * ZETAS_MONT@[5] as int * 1929) % 3329 == 3329 - ZETAS_MONT@[2] as int);
    } else if k == 6 {
        assert((ZETAS_MONT@[6] as int * ZETAS_MONT@[6] as int * 1929) % 3329 == ZETAS_MONT@[3] as int);
    } else if k == 7 {
        assert((ZETAS_MONT@[7] as int * ZETAS_MONT@[7] as int * 1929) % 3329 == 3329 - ZETAS_MONT@[3] as int);
    } else if k == 8 {
        assert((ZETAS_MONT@[8] as int * ZETAS_MONT@[8] as int * 1929) % 3329 == ZETAS_MONT@[4] as int);
    } else if k == 9 {
        assert((ZETAS_MONT@[9] as int * ZETAS_MONT@[9] as int * 1929) % 3329 == 3329 - ZETAS_MONT@[4] as int);
    } else if k == 10 {
        assert((ZETAS_MONT@[10] as int * ZETAS_MONT@[10] as int * 1929) % 3329 == ZETAS_MONT@[5] as int);
    } else if k == 11 {
        assert((ZETAS_MONT@[11] as int * ZETAS_MONT@[11] as int * 1929) % 3329 == 3329 - ZETAS_MONT@[5] as int);
    } else if k == 12 {
        assert((ZETAS_MONT@[12] as int * ZETAS_MONT@[12] as int * 1929) % 3329 == ZETAS_MONT@[6] as int);
    } else if k == 13 {
        assert((ZETAS_MONT@[13] as int * ZETAS_MONT@[13] as int * 1929) % 3329 == 3329 - ZETAS_MONT@[6] as int);
    } else if k == 14 {
        assert((ZETAS_MONT@[14] as int * ZETAS_MONT@[14] as int * 1929) % 3329 == ZETAS_MONT@[7] as int);
    } else if k == 15 {
        assert((ZETAS_MONT@[15] as int * ZETAS_MONT@[15] as int * 1929) % 3329 == 3329 - ZETAS_MONT@[7] as int);
    } else if k == 16 {
        assert((ZETAS_MONT@[16] as int * ZETAS_MONT@[16] as int * 1929) % 3329 == ZETAS_MONT@[8] as int);
    } else if k == 17 {
        assert((ZETAS_MONT@[17] as int * ZETAS_MONT@[17] as int * 1929) % 3329 == 3329 - ZETAS_MONT@[8] as int);
    } else if k == 18 {
        assert((ZETAS_MONT@[18] as int * ZETAS_MONT@[18] as int * 1929) % 3329 == ZETAS_MONT@[9] as int);
    } else if k == 19 {
        assert((ZETAS_MONT@[19] as int * ZETAS_MONT@[19] as int * 1929) % 3329 == 3329 - ZETAS_MONT@[9] as int);
    } else if k == 20 {
        assert((ZETAS_MONT@[20] as int * ZETAS_MONT@[20] as int * 1929) % 3329 == ZETAS_MONT@[10] as int);
    } else if k == 21 {
        assert((ZETAS_MONT@[21] as int * ZETAS_MONT@[21] as int * 1929) % 3329 == 3329 - ZETAS_MONT@[10] as int);
    } else if k == 22 {
        assert((ZETAS_MONT@[22] as int * ZETAS_MONT@[22] as int * 1929) % 3329 == ZETAS_MONT@[11] as int);
    } else if k == 23 {
        assert((ZETAS_MONT@[23] as int * ZETAS_MONT@[23] as int * 1929) % 3329 == 3329 - ZETAS_MONT@[11] as int);
    } else if k == 24 {
        assert((ZETAS_MONT@[24] as int * ZETAS_MONT@[24] as int * 1929) % 3329 == ZETAS_MONT@[12] as int);
    } else if k == 25 {
        assert((ZETAS_MONT@[25] as int * ZETAS_MONT@[25] as int * 1929) % 3329 == 3329 - ZETAS_MONT@[12] as int);
    } else if k == 26 {
        assert((ZETAS_MONT@[26] as int * ZETAS_MONT@[26] as int * 1929) % 3329 == ZETAS_MONT@[13] as int);
    } else if k == 27 {
        assert((ZETAS_MONT@[27] as int * ZETAS_MONT@[27] as int * 1929) % 3329 == 3329 - ZETAS_MONT@[13] as int);
    } else if k == 28 {
        assert((ZETAS_MONT@[28] as int * ZETAS_MONT@[28] as int * 1929) % 3329 == ZETAS_MONT@[14] as int);
    } else if k == 29 {
        assert((ZETAS_MONT@[29] as int * ZETAS_MONT@[29] as int * 1929) % 3329 == 3329 - ZETAS_MONT@[14] as int);
    } else if k == 30 {
        assert((ZETAS_MONT@[30] as int * ZETAS_MONT@[30] as int * 1929) % 3329 == ZETAS_MONT@[15] as int);
    } else if k == 31 {
        assert((ZETAS_MONT@[31] as int * ZETAS_MONT@[31] as int * 1929) % 3329 == 3329 - ZETAS_MONT@[15] as int);
    }
}

#[verifier::rlimit(100)]
proof fn lemma_twiddle_square_1(k: int)
    requires
        32 <= k < 64,
    ensures
        (ZETAS_MONT@[k] as int * ZETAS_MONT@[k] as int * 1929) % 3329 == (if k == 1 {
            1976
        } else if k % 2 == 0 {
            ZETAS_MONT@[k / 2] as int
        } else {
            3329 - ZETAS_MONT@[k / 2] as int
        }),
{
    if k == 32 {
        assert((ZETAS_MONT@[32] as int * ZETAS_MONT@[32] as int * 1929) % 3329 == ZETAS_MONT@[16] as int);
    } else if k == 33 {
        assert((ZETAS_MONT@[33] as int * ZETAS_MONT@[33] as int * 1929) % 3329 == 3329 - ZETAS_MONT@[16] as int);
    } else if k == 34 {
        assert((ZETAS_MONT@[34] as int * ZETAS_MONT@[34] as int * 1929) % 3329 == ZETAS_MONT@[17] as int);
    } else if k == 35 {
        assert((ZETAS_MONT@[35] as int * ZETAS_MONT@[35] as int * 1929) % 3329 == 3329 - ZETAS_MONT@[17] as int);
    } else if k == 36 {
        assert((ZETAS_MONT@[36] as int * ZETAS_MONT@[36] as int * 1929) % 3329 == ZETAS_MONT@[18] as int);
    } else if k == 37 {
        assert((ZETAS_MONT@[37] as int * ZETAS_MONT@[37] as int * 1929) % 3329 == 3329 - ZETAS_MONT@[18] as int);
    } else if k == 38 {
        assert((ZETAS_MONT@[38] as int * ZETAS_MONT@[38] as int * 1929) % 3329 == ZETAS_MONT@[19] as int);
    } else if k == 39 {
        assert((ZETAS_MONT@[39] as int * ZETAS_MONT@[39] as int * 1929) % 3329 == 3329 - ZETAS_MONT@[19] as int);
    } else if k == 40 {
        assert((ZETAS_MONT@[40] as int * ZETAS_MONT@[40] as int * 1929) % 3329 == ZETAS_MONT@[20] as int);
    } else if k == 41 {
        assert((ZETAS_MONT@[41] as int * ZETAS_MONT@[41] as int * 1929) % 3329 == 3329 - ZETAS_MONT@[20] as int);
    } else if k == 42 {
        assert((ZETAS_MONT@[42] as int * ZETAS_MONT@[42] as int * 1929) % 3329 == ZETAS_MONT@[21] as int);
    } else if k == 43 {
        assert((ZETAS_MONT@[43] as int * ZETAS_MONT@[43] as int * 1929) % 3329 == 3329 - ZETAS_MONT@[21] as int);
    } else if k == 44 {
        assert((ZETAS_MONT@[44] as int * ZETAS_MONT@[44] as int * 1929) % 3329 == ZETAS_MONT@[22] as int);
    } else if k == 45 {
        assert((ZETAS_MONT@[45] as int * ZETAS_MONT@[45] as int * 1929) % 3329 == 3329 - ZETAS_MONT@[22] as int);
    } else if k == 46 {
        assert((ZETAS_MONT@[46] as int * ZETAS_MONT@[46] as int * 1929) % 3329 == ZETAS_MONT@[23] as int);
    } else if k == 47 {
        assert((ZETAS_MONT@[47] as int * ZETAS_MONT@[47] as int * 1929) % 3329 == 3329 - ZETAS_MONT@[23] as int);
    } else if k == 48 {
        assert((ZETAS_MONT@[48] as int * ZETAS_MONT@[48] as int * 1929) % 3329 == ZETAS_MONT@[24] as int);
    } else if k == 49 {
        assert((ZETAS_MONT@[49] as int * ZETAS_MONT@[49] as int * 1929) % 3329 == 3329 - ZETAS_MONT@[24] as int);
    } else if k == 50 {
        assert((ZETAS_MONT@[50] as int * ZETAS_MONT@[50] as int * 1929) % 3329 == ZETAS_MONT@[25] as int);
    } else if k == 51 {
        assert((ZETAS_MONT@[51] as int * ZETAS_MONT@[51] as int * 1929) % 3329 == 3329 - ZETAS_MONT@[25] as int);
    } else if k == 52 {
        assert((ZETAS_MONT@[52] as int * ZETAS_MONT@[52] as int * 1929) % 3329 == ZETAS_MONT@[26] as int);
    } else if k == 53 {
        assert((ZETAS_MONT@[53] as int * ZETAS_MONT@[53] as int * 1929) % 3329 == 3329 - ZETAS_MONT@[26] as int);
    } else if k == 54 {
        assert((ZETAS_MONT@[54] as int * ZETAS_MONT@[54] as int * 1929) % 3329 == ZETAS_MONT@[27] as int);
    } else if k == 55 {
        assert((ZETAS_MONT@[55] as int * ZETAS_MONT@[55] as int * 1929) % 3329 == 3329 - ZETAS_MONT@[27] as int);
    } else if k == 56 {
        assert((ZETAS_MONT@[56] as int * ZETAS_MONT@[56] as int * 1929) % 3329 == ZETAS_MONT@[28] as int);
    } else if k == 57 {
        assert((ZETAS_MONT@[57] as int * ZETAS_MONT@[57] as int * 1929) % 3329 == 3329 - ZETAS_MONT@[28] as int);
    } else if k == 58 {
        assert((ZETAS_MONT@[58] as int * ZETAS_MONT@[58] as int * 1929) % 3329 == ZETAS_MONT@[29] as int);
    } else if k == 59 {
        assert((ZETAS_MONT@[59] as int * ZETAS_MONT@[59] as int * 1929) % 3329 == 3329 - ZETAS_MONT@[29] as int);
    } else if k == 60 {
        assert((ZETAS_MONT@[60] as int * ZETAS_MONT@[60] as int * 1929) % 3329 == ZETAS_MONT@[30] as int);
    } else if k == 61 {
        assert((ZETAS_MONT@[61] as int * ZETAS_MONT@[61] as int * 1929) % 3329 == 3329 - ZETAS_MONT@[30] as int);
    } else if k == 62 {
        assert((ZETAS_MONT@[62] as int * ZETAS_MONT@[62] as int * 1929) % 3329 == ZETAS_MONT@[31] as int);
    } else if k == 63 {
        assert((ZETAS_MONT@[63] as int * ZETAS_MONT@[63] as int * 1929) % 3329 == 3329 - ZETAS_MONT@[31] as int);
    }
}

#[verifier::rlimit(100)]
proof fn lemma_twiddle_square_2(k: int)
    requires
        64 <= k < 96,
    ensures
        (ZETAS_MONT@[k] as int * ZETAS_MONT@[k] as int * 1929) % 3329 == (if k == 1 {
            1976
        } else if k % 2 == 0 {
            ZETAS_MONT@[k / 2] as int
        } else {
            3329 - ZETAS_MONT@[k / 2] as int
        }),
{
    if k == 64 {
        assert((ZETAS_MONT@[64] as int * ZETAS_MONT@[64] as int * 1929) % 3329 == ZETAS_MONT@[32] as int);
    } else if k == 65 {
        assert((ZETAS_MONT@[65] as int * ZETAS_MONT@[65] as int * 1929) % 3329 == 3329 - ZETAS_MONT@[32] as int);
    } else if k == 66 {
        assert((ZETAS_MONT@[66] as int * ZETAS_MONT@[66] as int * 1929) % 3329 == ZETAS_MONT@[33] as int);
    } else if k == 67 {
        assert((ZETAS_MONT@[67] as int * ZETAS_MONT@[67] as int * 1929) % 3329 == 3329 - ZETAS_MONT@[33] as int);
    } else if k == 68 {
        assert((ZETAS_MONT@[68] as int * ZETAS_MONT@[68] as int * 1929) % 3329 == ZETAS_MONT@[34] as int);
    } else if k == 69 {
        assert((ZETAS_MONT@[69] as int * ZETAS_MONT@[69] as int * 1929) % 3329 == 3329 - ZETAS_MONT@[34] as int);
    } else if k == 70 {
        assert((ZETAS_MONT@[70] as int * ZETAS_MONT@[70] as int * 1929) % 3329 == ZETAS_MONT@[35] as int);
    } else if k == 71 {
        assert((ZETAS_MONT@[71] as int * ZETAS_MONT@[71] as int * 1929) % 3329 == 3329 - ZETAS_MONT@[35] as int);
    } else if k == 72 {
        assert((ZETAS_MONT@[72] as int * ZETAS_MONT@[72] as int * 1929) % 3329 == ZETAS_MONT@[36] as int);
    } else if k == 73 {
        assert((ZETAS_MONT@[73] as int * ZETAS_MONT@[73] as int * 1929) % 3329 == 3329 - ZETAS_MONT@[36] as int);
    } else if k == 74 {
        assert((ZETAS_MONT@[74] as int * ZETAS_MONT@[74] as int * 1929) % 3329 == ZETAS_MONT@[37] as int);
    } else if k == 75 {
        assert((ZETAS_MONT@[75] as int * ZETAS_MONT@[75] as int * 1929) % 3329 == 3329 - ZETAS_MONT@[37] as int);
    } else if k == 76 {
        assert((ZETAS_MONT@[76] as int * ZETAS_MONT@[76] as int * 1929) % 3329 == ZETAS_MONT@[38] as int);
    } else if k == 77 {
        assert((ZETAS_MONT@[77] as int * ZETAS_MONT@[77] as int * 1929) % 3329 == 3329 - ZETAS_MONT@[38] as int);
    } else if k == 78 {
        assert((ZETAS_MONT@[78] as int * ZETAS_MONT@[78] as int * 1929) % 3329 == ZETAS_MONT@[39] as int);
    } else if k == 79 {
        assert((ZETAS_MONT@[79] as int * ZETAS_MONT@[79] as int * 1929) % 3329 == 3329 - ZETAS_MONT@[39] as int);
    } else if k == 80 {
        assert((ZETAS_MONT@[80] as int * ZETAS_MONT@[80] as int * 1929) % 3329 == ZETAS_MONT@[40] as int);
    } else if k == 81 {
        assert((ZETAS_MONT@[81] as int * ZETAS_MONT@[81] as int * 1929) % 3329 == 3329 - ZETAS_MONT@[40] as int);
    } else if k == 82 {
        assert((ZETAS_MONT@[82] as int * ZETAS_MONT@[82] as int * 1929) % 3329 == ZETAS_MONT@[41] as int);
    } else if k == 83 {
        assert((ZETAS_MONT@[83] as int * ZETAS_MONT@[83] as int * 1929) % 3329 == 3329 - ZETAS_MONT@[41] as int);
    } else if k == 84 {
        assert((ZETAS_MONT@[84] as int * ZETAS_MONT@[84] as int * 1929) % 3329 == ZETAS_MONT@[42] as int);
    } else if k == 85 {
        assert((ZETAS_MONT@[85] as int * ZETAS_MONT@[85] as int * 1929) % 3329 == 3329 - ZETAS_MONT@[42] as int);
    } else if k == 86 {
        assert((ZETAS_MONT@[86] as int * ZETAS_MONT@[86] as int * 1929) % 3329 == ZETAS_MONT@[43] as int);
    } else if k == 87 {
        assert((ZETAS_MONT@[87] as int * ZETAS_MONT@[87] as int * 1929) % 3329 == 3329 - ZETAS_MONT@[43] as int);
    } else if k == 88 {
        assert((ZETAS_MONT@[88] as int * ZETAS_MONT@[88] as int * 1929) % 3329 == ZETAS_MONT@[44] as int);
    } else if k == 89 {
        assert((ZETAS_MONT@[89] as int * ZETAS_MONT@[89] as int * 1929) % 3329 == 3329 - ZETAS_MONT@[44] as int);
    } else if k == 90 {
        assert((ZETAS_MONT@[90] as int * ZETAS_MONT@[90] as int * 1929) % 3329 == ZETAS_MONT@[45] as int);
    } else if k == 91 {
        assert((ZETAS_MONT@[91] as int * ZETAS_MONT@[91] as int * 1929) % 3329 == 3329 - ZETAS_MONT@[45] as int);
    } else if k == 92 {
        assert((ZETAS_MONT@[92] as int * ZETAS_MONT@[92] as int * 1929) % 3329 == ZETAS_MONT@[46] as int);
    } else if k == 93 {
        assert((ZETAS_MONT@[93] as int * ZETAS_MONT@[93] as int * 1929) % 3329 == 3329 - ZETAS_MONT@[46] as int);
    } else if k == 94 {
        assert((ZETAS_MONT@[94] as int * ZETAS_MONT@[94] as int * 1929) % 3329 == ZETAS_MONT@[47] as int);
    } else if k == 95 {
        assert((ZETAS_MONT@[95] as int * ZETAS_MONT@[95] as int * 1929) % 3329 == 3329 - ZETAS_MONT@[47] as int);
    }
}

#[verifier::rlimit(100)]
proof fn lemma_twiddle_square_3(k: int)
    requires
        96 <= k < 128,
    ensures
        (ZETAS_MONT@[k] as int * ZETAS_MONT@[k] as int * 1929) % 3329 == (if k == 1 {
            1976
        } else if k % 2 == 0 {
            ZETAS_MONT@[k / 2] as int
        } else {
            3329 - ZETAS_MONT@[k / 2] as int
        }),
{
    if k == 96 {
        assert((ZETAS_MONT@[96] as int * ZETAS_MONT@[96] as int * 1929) % 3329 == ZETAS_MONT@[48] as int);
    } else if k == 97 {
        assert((ZETAS_MONT@[97] as int * ZETAS_MONT@[97] as int * 1929) % 3329 == 3329 - ZETAS_MONT@[48] as int);
    } else if k == 98 {
        assert((ZETAS_MONT@[98] as int * ZETAS_MONT@[98] as int * 1929) % 3329 == ZETAS_MONT@[49] as int);
    } else if k == 99 {
        assert((ZETAS_MONT@[99] as int * ZETAS_MONT@[99] as int * 1929) % 3329 == 3329 - ZETAS_MONT@[49] as int);
    } else if k == 100 {
        assert((ZETAS_MONT@[100] as int * ZETAS_MONT@[100] as int * 1929) % 3329 == ZETAS_MONT@[50] as int);
    } else if k == 101 {
        assert((ZETAS_MONT@[101] as int * ZETAS_MONT@[101] as int * 1929) % 3329 == 3329 - ZETAS_MONT@[50] as int);
    } else if k == 102 {
        assert((ZETAS_MONT@[102] as int * ZETAS_MONT@[102] as int * 1929) % 3329 == ZETAS_MONT@[51] as int);
    } else if k == 103 {
        assert((ZETAS_MONT@[103] as int * ZETAS_MONT@[103] as int * 1929) % 3329 == 3329 - ZETAS_MONT@[51] as int);
    } else if k == 104 {
        assert((ZETAS_MONT@[104] as int * ZETAS_MONT@[104] as int * 1929) % 3329 == ZETAS_MONT@[52] as int);
    } else if k == 105 {
        assert((ZETAS_MONT@[105] as int * ZETAS_MONT@[105] as int * 1929) % 3329 == 3329 - ZETAS_MONT@[52] as int);
    } else if k == 106 {
        assert((ZETAS_MONT@[106] as int * ZETAS_MONT@[106] as int * 1929) % 3329 == ZETAS_MONT@[53] as int);
    } else if k == 107 {
        assert((ZETAS_MONT@[107] as int * ZETAS_MONT@[107] as int * 1929) % 3329 == 3329 - ZETAS_MONT@[53] as int);
    } else if k == 108 {
        assert((ZETAS_MONT@[108] as int * ZETAS_MONT@[108] as int * 1929) % 3329 == ZETAS_MONT@[54] as int);
    } else if k == 109 {
        assert((ZETAS_MONT@[109] as int * ZETAS_MONT@[109] as int * 1929) % 3329 == 3329 - ZETAS_MONT@[54] as int);
    } else if k == 110 {
        assert((ZETAS_MONT@[110] as int * ZETAS_MONT@[110] as int * 1929) % 3329 == ZETAS_MONT@[55] as int);
    } else if k == 111 {
        assert((ZETAS_MONT@[111] as int * ZETAS_MONT@[111] as int * 1929) % 3329 == 3329 - ZETAS_MONT@[55] as int);
    } else if k == 112 {
        assert((ZETAS_MONT@[112] as int * ZETAS_MONT@[112] as int * 1929) % 3329 == ZETAS_MONT@[56] as int);
    } else if k == 113 {
        assert((ZETAS_MONT@[113] as int * ZETAS_MONT@[113] as int * 1929) % 3329 == 3329 - ZETAS_MONT@[56] as int);
    } else if k == 114 {
        assert((ZETAS_MONT@[114] as int * ZETAS_MONT@[114] as int * 1929) % 3329 == ZETAS_MONT@[57] as int);
    } else if k == 115 {
        assert((ZETAS_MONT@[115] as int * ZETAS_MONT@[115] as int * 1929) % 3329 == 3329 - ZETAS_MONT@[57] as int);
    } else if k == 116 {
        assert((ZETAS_MONT@[116] as int * ZETAS_MONT@[116] as int * 1929) % 3329 == ZETAS_MONT@[58] as int);
    } else if k == 117 {
        assert((ZETAS_MONT@[117] as int * ZETAS_MONT@[117] as int * 1929) % 3329 == 3329 - ZETAS_MONT@[58] as int);
    } else if k == 118 {
        assert((ZETAS_MONT@[118] as int * ZETAS_MONT@[118] as int * 1929) % 3329 == ZETAS_MONT@[59] as int);
    } else if k == 119 {
        assert((ZETAS_MONT@[119] as int * ZETAS_MONT@[119] as int * 1929) % 3329 == 3329 - ZETAS_MONT@[59] as int);
    } else if k == 120 {
        assert((ZETAS_MONT@[120] as int * ZETAS_MONT@[120] as int * 1929) % 3329 == ZETAS_MONT@[60] as int);
    } else if k == 121 {
        assert((ZETAS_MONT@[121] as int * ZETAS_MONT@[121] as int * 1929) % 3329 == 3329 - ZETAS_MONT@[60] as int);
    } else if k == 122 {
        assert((ZETAS_MONT@[122] as int * ZETAS_MONT@[122] as int * 1929) % 3329 == ZETAS_MONT@[61] as int);
    } else if k == 123 {
        assert((ZETAS_MONT@[123] as int * ZETAS_MONT@[123] as int * 1929) % 3329 == 3329 - ZETAS_MONT@[61] as int);
    } else if k == 124 {
        assert((ZETAS_MONT@[124] as int * ZETAS_MONT@[124] as int * 1929) % 3329 == ZETAS_MONT@[62] as int);
    } else if k == 125 {
        assert((ZETAS_MONT@[125] as int * ZETAS_MONT@[125] as int * 1929) % 3329 == 3329 - ZETAS_MONT@[62] as int);
    } else if k == 126 {
        assert((ZETAS_MONT@[126] as int * ZETAS_MONT@[126] as int * 1929) % 3329 == ZETAS_MONT@[63] as int);
    } else if k == 127 {
        assert((ZETAS_MONT@[127] as int * ZETAS_MONT@[127] as int * 1929) % 3329 == 3329 - ZETAS_MONT@[63] as int);
    }
}

/// The twiddle of index `k` squares to the twist of the block it splits:
/// `ZM[1]^2 = -R` and `ZM[k]^2 = +-R ZM[k/2]` (sign by the parity of `k`),
/// in Montgomery form.
proof fn lemma_twiddle_square_table(k: int)
    requires
        1 <= k < 128,
    ensures
        (ZETAS_MONT@[k] as int * ZETAS_MONT@[k] as int * 1929) % 3329 == (if k == 1 {
            1976
        } else if k % 2 == 0 {
            ZETAS_MONT@[k / 2] as int
        } else {
            3329 - ZETAS_MONT@[k / 2] as int
        }),
{
    if k < 32 {
        lemma_twiddle_square_0(k);
    } else if k < 64 {
        lemma_twiddle_square_1(k);
    } else if k < 96 {
        lemma_twiddle_square_2(k);
    } else if k < 128 {
        lemma_twiddle_square_3(k);
    }
}

/// The base-case modulus of slot `p` is the twist of the last block:
/// `GAMMAS_MONT[p] == +-ZETAS_MONT[64 + p/2]` (sign by the parity of `p`).
#[verifier::rlimit(100)]
proof fn lemma_gammas_table(p: int)
    requires
        0 <= p < 128,
    ensures
        GAMMAS_MONT@[p] as int == (if p % 2 == 0 {
            ZETAS_MONT@[64 + p / 2] as int
        } else {
            3329 - ZETAS_MONT@[64 + p / 2] as int
        }),
{
    if p == 0 {
        assert(GAMMAS_MONT@[0] as int == ZETAS_MONT@[64] as int);
    } else if p == 1 {
        assert(GAMMAS_MONT@[1] as int == 3329 - ZETAS_MONT@[64] as int);
    } else if p == 2 {
        assert(GAMMAS_MONT@[2] as int == ZETAS_MONT@[65] as int);
    } else if p == 3 {
        assert(GAMMAS_MONT@[3] as int == 3329 - ZETAS_MONT@[65] as int);
    } else if p == 4 {
        assert(GAMMAS_MONT@[4] as int == ZETAS_MONT@[66] as int);
    } else if p == 5 {
        assert(GAMMAS_MONT@[5] as int == 3329 - ZETAS_MONT@[66] as int);
    } else if p == 6 {
        assert(GAMMAS_MONT@[6] as int == ZETAS_MONT@[67] as int);
    } else if p == 7 {
        assert(GAMMAS_MONT@[7] as int == 3329 - ZETAS_MONT@[67] as int);
    } else if p == 8 {
        assert(GAMMAS_MONT@[8] as int == ZETAS_MONT@[68] as int);
    } else if p == 9 {
        assert(GAMMAS_MONT@[9] as int == 3329 - ZETAS_MONT@[68] as int);
    } else if p == 10 {
        assert(GAMMAS_MONT@[10] as int == ZETAS_MONT@[69] as int);
    } else if p == 11 {
        assert(GAMMAS_MONT@[11] as int == 3329 - ZETAS_MONT@[69] as int);
    } else if p == 12 {
        assert(GAMMAS_MONT@[12] as int == ZETAS_MONT@[70] as int);
    } else if p == 13 {
        assert(GAMMAS_MONT@[13] as int == 3329 - ZETAS_MONT@[70] as int);
    } else if p == 14 {
        assert(GAMMAS_MONT@[14] as int == ZETAS_MONT@[71] as int);
    } else if p == 15 {
        assert(GAMMAS_MONT@[15] as int == 3329 - ZETAS_MONT@[71] as int);
    } else if p == 16 {
        assert(GAMMAS_MONT@[16] as int == ZETAS_MONT@[72] as int);
    } else if p == 17 {
        assert(GAMMAS_MONT@[17] as int == 3329 - ZETAS_MONT@[72] as int);
    } else if p == 18 {
        assert(GAMMAS_MONT@[18] as int == ZETAS_MONT@[73] as int);
    } else if p == 19 {
        assert(GAMMAS_MONT@[19] as int == 3329 - ZETAS_MONT@[73] as int);
    } else if p == 20 {
        assert(GAMMAS_MONT@[20] as int == ZETAS_MONT@[74] as int);
    } else if p == 21 {
        assert(GAMMAS_MONT@[21] as int == 3329 - ZETAS_MONT@[74] as int);
    } else if p == 22 {
        assert(GAMMAS_MONT@[22] as int == ZETAS_MONT@[75] as int);
    } else if p == 23 {
        assert(GAMMAS_MONT@[23] as int == 3329 - ZETAS_MONT@[75] as int);
    } else if p == 24 {
        assert(GAMMAS_MONT@[24] as int == ZETAS_MONT@[76] as int);
    } else if p == 25 {
        assert(GAMMAS_MONT@[25] as int == 3329 - ZETAS_MONT@[76] as int);
    } else if p == 26 {
        assert(GAMMAS_MONT@[26] as int == ZETAS_MONT@[77] as int);
    } else if p == 27 {
        assert(GAMMAS_MONT@[27] as int == 3329 - ZETAS_MONT@[77] as int);
    } else if p == 28 {
        assert(GAMMAS_MONT@[28] as int == ZETAS_MONT@[78] as int);
    } else if p == 29 {
        assert(GAMMAS_MONT@[29] as int == 3329 - ZETAS_MONT@[78] as int);
    } else if p == 30 {
        assert(GAMMAS_MONT@[30] as int == ZETAS_MONT@[79] as int);
    } else if p == 31 {
        assert(GAMMAS_MONT@[31] as int == 3329 - ZETAS_MONT@[79] as int);
    } else if p == 32 {
        assert(GAMMAS_MONT@[32] as int == ZETAS_MONT@[80] as int);
    } else if p == 33 {
        assert(GAMMAS_MONT@[33] as int == 3329 - ZETAS_MONT@[80] as int);
    } else if p == 34 {
        assert(GAMMAS_MONT@[34] as int == ZETAS_MONT@[81] as int);
    } else if p == 35 {
        assert(GAMMAS_MONT@[35] as int == 3329 - ZETAS_MONT@[81] as int);
    } else if p == 36 {
        assert(GAMMAS_MONT@[36] as int == ZETAS_MONT@[82] as int);
    } else if p == 37 {
        assert(GAMMAS_MONT@[37] as int == 3329 - ZETAS_MONT@[82] as int);
    } else if p == 38 {
        assert(GAMMAS_MONT@[38] as int == ZETAS_MONT@[83] as int);
    } else if p == 39 {
        assert(GAMMAS_MONT@[39] as int == 3329 - ZETAS_MONT@[83] as int);
    } else if p == 40 {
        assert(GAMMAS_MONT@[40] as int == ZETAS_MONT@[84] as int);
    } else if p == 41 {
        assert(GAMMAS_MONT@[41] as int == 3329 - ZETAS_MONT@[84] as int);
    } else if p == 42 {
        assert(GAMMAS_MONT@[42] as int == ZETAS_MONT@[85] as int);
    } else if p == 43 {
        assert(GAMMAS_MONT@[43] as int == 3329 - ZETAS_MONT@[85] as int);
    } else if p == 44 {
        assert(GAMMAS_MONT@[44] as int == ZETAS_MONT@[86] as int);
    } else if p == 45 {
        assert(GAMMAS_MONT@[45] as int == 3329 - ZETAS_MONT@[86] as int);
    } else if p == 46 {
        assert(GAMMAS_MONT@[46] as int == ZETAS_MONT@[87] as int);
    } else if p == 47 {
        assert(GAMMAS_MONT@[47] as int == 3329 - ZETAS_MONT@[87] as int);
    } else if p == 48 {
        assert(GAMMAS_MONT@[48] as int == ZETAS_MONT@[88] as int);
    } else if p == 49 {
        assert(GAMMAS_MONT@[49] as int == 3329 - ZETAS_MONT@[88] as int);
    } else if p == 50 {
        assert(GAMMAS_MONT@[50] as int == ZETAS_MONT@[89] as int);
    } else if p == 51 {
        assert(GAMMAS_MONT@[51] as int == 3329 - ZETAS_MONT@[89] as int);
    } else if p == 52 {
        assert(GAMMAS_MONT@[52] as int == ZETAS_MONT@[90] as int);
    } else if p == 53 {
        assert(GAMMAS_MONT@[53] as int == 3329 - ZETAS_MONT@[90] as int);
    } else if p == 54 {
        assert(GAMMAS_MONT@[54] as int == ZETAS_MONT@[91] as int);
    } else if p == 55 {
        assert(GAMMAS_MONT@[55] as int == 3329 - ZETAS_MONT@[91] as int);
    } else if p == 56 {
        assert(GAMMAS_MONT@[56] as int == ZETAS_MONT@[92] as int);
    } else if p == 57 {
        assert(GAMMAS_MONT@[57] as int == 3329 - ZETAS_MONT@[92] as int);
    } else if p == 58 {
        assert(GAMMAS_MONT@[58] as int == ZETAS_MONT@[93] as int);
    } else if p == 59 {
        assert(GAMMAS_MONT@[59] as int == 3329 - ZETAS_MONT@[93] as int);
    } else if p == 60 {
        assert(GAMMAS_MONT@[60] as int == ZETAS_MONT@[94] as int);
    } else if p == 61 {
        assert(GAMMAS_MONT@[61] as int == 3329 - ZETAS_MONT@[94] as int);
    } else if p == 62 {
        assert(GAMMAS_MONT@[62] as int == ZETAS_MONT@[95] as int);
    } else if p == 63 {
        assert(GAMMAS_MONT@[63] as int == 3329 - ZETAS_MONT@[95] as int);
    } else if p == 64 {
        assert(GAMMAS_MONT@[64] as int == ZETAS_MONT@[96] as int);
    } else if p == 65 {
        assert(GAMMAS_MONT@[65] as int == 3329 - ZETAS_MONT@[96] as int);
    } else if p == 66 {
        assert(GAMMAS_MONT@[66] as int == ZETAS_MONT@[97] as int);
    } else if p == 67 {
        assert(GAMMAS_MONT@[67] as int == 3329 - ZETAS_MONT@[97] as int);
    } else if p == 68 {
        assert(GAMMAS_MONT@[68] as int == ZETAS_MONT@[98] as int);
    } else if p == 69 {
        assert(GAMMAS_MONT@[69] as int == 3329 - ZETAS_MONT@[98] as int);
    } else if p == 70 {
        assert(GAMMAS_MONT@[70] as int == ZETAS_MONT@[99] as int);
    } else if p == 71 {
        assert(GAMMAS_MONT@[71] as int == 3329 - ZETAS_MONT@[99] as int);
    } else if p == 72 {
        assert(GAMMAS_MONT@[72] as int == ZETAS_MONT@[100] as int);
    } else if p == 73 {
        assert(GAMMAS_MONT@[73] as int == 3329 - ZETAS_MONT@[100] as int);
    } else if p == 74 {
        assert(GAMMAS_MONT@[74] as int == ZETAS_MONT@[101] as int);
    } else if p == 75 {
        assert(GAMMAS_MONT@[75] as int == 3329 - ZETAS_MONT@[101] as int);
    } else if p == 76 {
        assert(GAMMAS_MONT@[76] as int == ZETAS_MONT@[102] as int);
    } else if p == 77 {
        assert(GAMMAS_MONT@[77] as int == 3329 - ZETAS_MONT@[102] as int);
    } else if p == 78 {
        assert(GAMMAS_MONT@[78] as int == ZETAS_MONT@[103] as int);
    } else if p == 79 {
        assert(GAMMAS_MONT@[79] as int == 3329 - ZETAS_MONT@[103] as int);
    } else if p == 80 {
        assert(GAMMAS_MONT@[80] as int == ZETAS_MONT@[104] as int);
    } else if p == 81 {
        assert(GAMMAS_MONT@[81] as int == 3329 - ZETAS_MONT@[104] as int);
    } else if p == 82 {
        assert(GAMMAS_MONT@[82] as int == ZETAS_MONT@[105] as int);
    } else if p == 83 {
        assert(GAMMAS_MONT@[83] as int == 3329 - ZETAS_MONT@[105] as int);
    } else if p == 84 {
        assert(GAMMAS_MONT@[84] as int == ZETAS_MONT@[106] as int);
    } else if p == 85 {
        assert(GAMMAS_MONT@[85] as int == 3329 - ZETAS_MONT@[106] as int);
    } else if p == 86 {
        assert(GAMMAS_MONT@[86] as int == ZETAS_MONT@[107] as int);
    } else if p == 87 {
        assert(GAMMAS_MONT@[87] as int == 3329 - ZETAS_MONT@[107] as int);
    } else if p == 88 {
        assert(GAMMAS_MONT@[88] as int == ZETAS_MONT@[108] as int);
    } else if p == 89 {
        assert(GAMMAS_MONT@[89] as int == 3329 - ZETAS_MONT@[108] as int);
    } else if p == 90 {
        assert(GAMMAS_MONT@[90] as int == ZETAS_MONT@[109] as int);
    } else if p == 91 {
        assert(GAMMAS_MONT@[91] as int == 3329 - ZETAS_MONT@[109] as int);
    } else if p == 92 {
        assert(GAMMAS_MONT@[92] as int == ZETAS_MONT@[110] as int);
    } else if p == 93 {
        assert(GAMMAS_MONT@[93] as int == 3329 - ZETAS_MONT@[110] as int);
    } else if p == 94 {
        assert(GAMMAS_MONT@[94] as int == ZETAS_MONT@[111] as int);
    } else if p == 95 {
        assert(GAMMAS_MONT@[95] as int == 3329 - ZETAS_MONT@[111] as int);
    } else if p == 96 {
        assert(GAMMAS_MONT@[96] as int == ZETAS_MONT@[112] as int);
    } else if p == 97 {
        assert(GAMMAS_MONT@[97] as int == 3329 - ZETAS_MONT@[112] as int);
    } else if p == 98 {
        assert(GAMMAS_MONT@[98] as int == ZETAS_MONT@[113] as int);
    } else if p == 99 {
        assert(GAMMAS_MONT@[99] as int == 3329 - ZETAS_MONT@[113] as int);
    } else if p == 100 {
        assert(GAMMAS_MONT@[100] as int == ZETAS_MONT@[114] as int);
    } else if p == 101 {
        assert(GAMMAS_MONT@[101] as int == 3329 - ZETAS_MONT@[114] as int);
    } else if p == 102 {
        assert(GAMMAS_MONT@[102] as int == ZETAS_MONT@[115] as int);
    } else if p == 103 {
        assert(GAMMAS_MONT@[103] as int == 3329 - ZETAS_MONT@[115] as int);
    } else if p == 104 {
        assert(GAMMAS_MONT@[104] as int == ZETAS_MONT@[116] as int);
    } else if p == 105 {
        assert(GAMMAS_MONT@[105] as int == 3329 - ZETAS_MONT@[116] as int);
    } else if p == 106 {
        assert(GAMMAS_MONT@[106] as int == ZETAS_MONT@[117] as int);
    } else if p == 107 {
        assert(GAMMAS_MONT@[107] as int == 3329 - ZETAS_MONT@[117] as int);
    } else if p == 108 {
        assert(GAMMAS_MONT@[108] as int == ZETAS_MONT@[118] as int);
    } else if p == 109 {
        assert(GAMMAS_MONT@[109] as int == 3329 - ZETAS_MONT@[118] as int);
    } else if p == 110 {
        assert(GAMMAS_MONT@[110] as int == ZETAS_MONT@[119] as int);
    } else if p == 111 {
        assert(GAMMAS_MONT@[111] as int == 3329 - ZETAS_MONT@[119] as int);
    } else if p == 112 {
        assert(GAMMAS_MONT@[112] as int == ZETAS_MONT@[120] as int);
    } else if p == 113 {
        assert(GAMMAS_MONT@[113] as int == 3329 - ZETAS_MONT@[120] as int);
    } else if p == 114 {
        assert(GAMMAS_MONT@[114] as int == ZETAS_MONT@[121] as int);
    } else if p == 115 {
        assert(GAMMAS_MONT@[115] as int == 3329 - ZETAS_MONT@[121] as int);
    } else if p == 116 {
        assert(GAMMAS_MONT@[116] as int == ZETAS_MONT@[122] as int);
    } else if p == 117 {
        assert(GAMMAS_MONT@[117] as int == 3329 - ZETAS_MONT@[122] as int);
    } else if p == 118 {
        assert(GAMMAS_MONT@[118] as int == ZETAS_MONT@[123] as int);
    } else if p == 119 {
        assert(GAMMAS_MONT@[119] as int == 3329 - ZETAS_MONT@[123] as int);
    } else if p == 120 {
        assert(GAMMAS_MONT@[120] as int == ZETAS_MONT@[124] as int);
    } else if p == 121 {
        assert(GAMMAS_MONT@[121] as int == 3329 - ZETAS_MONT@[124] as int);
    } else if p == 122 {
        assert(GAMMAS_MONT@[122] as int == ZETAS_MONT@[125] as int);
    } else if p == 123 {
        assert(GAMMAS_MONT@[123] as int == 3329 - ZETAS_MONT@[125] as int);
    } else if p == 124 {
        assert(GAMMAS_MONT@[124] as int == ZETAS_MONT@[126] as int);
    } else if p == 125 {
        assert(GAMMAS_MONT@[125] as int == 3329 - ZETAS_MONT@[126] as int);
    } else if p == 126 {
        assert(GAMMAS_MONT@[126] as int == ZETAS_MONT@[127] as int);
    } else if p == 127 {
        assert(GAMMAS_MONT@[127] as int == 3329 - ZETAS_MONT@[127] as int);
    }
}
/// The field value of the twiddle of index `k` (its Montgomery form
/// times `R^-1`).
pub open spec fn kem_tw_z(k: int) -> int {
    ZETAS_MONT@[k] as int * r_inv(Q as int)
}

/// The twist `w` of block `t` of size `s` after the layers above it:
/// the block holds a residue modulo `X^s - w`. The whole polynomial
/// (`s = 256`) lives modulo `X^256 + 1`; the layer of twiddle index `k`
/// splits its block into twists `kem_tw_z(k)` and `-kem_tw_z(k)`.
pub open spec fn kem_twist(s: int, t: int) -> int {
    if s >= 256 {
        -1
    } else {
        let k = 128int / s + t / 2;
        if t % 2 == 0 {
            kem_tw_z(k)
        } else {
            -kem_tw_z(k)
        }
    }
}

/// The twiddle of the layer of half-length `len` at block `b` squares to
/// the twist of that block.
proof fn lemma_twist_square(len: int, b: int)
    requires
        layer_len(len),
        len >= 2,
        0 <= b,
        2 * len * b < 256,
    ensures
        (kem_tw_z(128int / len + b) * kem_tw_z(128int / len + b)) % (Q as int) == kem_twist(2 * len, b) % (Q as int),
{
    let q = Q as int;
    let ri = r_inv(q);
    assert(ri == 1929);
    lemma_layer_counts(len, b);
    let kk = 128int / len + b;
    let zm = ZETAS_MONT@[kk] as int;
    lemma_twiddle_square_table(kk);
    assert(kem_tw_z(kk) * kem_tw_z(kk) == (zm * zm * ri) * ri) by (nonlinear_arith)
        requires
            kem_tw_z(kk) == zm * ri,
    ;
    lemma_mul_mod_noop_left(zm * zm * ri, ri, q);
    if len == 128 {
        assert(128int / 128 == 1);
        assert(b == 0) by (nonlinear_arith)
            requires
                2 * len * b < 256,
                len == 128,
                0 <= b,
        ;
        assert((1976int * 1929) % 3329 == 3328);
        assert((-1int) % q == 3328);
    } else {
        let half = 128int / (2 * len);
        if len == 64 {
            assert(128int / 64 == 2 && 128int / 128 == 1);
        } else if len == 32 {
            assert(128int / 32 == 4 && 128int / 64 == 2);
        } else if len == 16 {
            assert(128int / 16 == 8 && 128int / 32 == 4);
        } else if len == 8 {
            assert(128int / 8 == 16 && 128int / 16 == 8);
        } else if len == 4 {
            assert(128int / 4 == 32 && 128int / 8 == 16);
        } else if len == 2 {
            assert(128int / 2 == 64 && 128int / 4 == 32);
        } else {
            assert(128int / 1 == 128 && 128int / 2 == 64);
        }
        assert(kk / 2 == half + b / 2);
        assert(kk % 2 == b % 2);
        let zp = ZETAS_MONT@[kk / 2] as int;
        if b % 2 == 0 {
            assert(kem_twist(2 * len, b) == kem_tw_z(half + b / 2));
        } else {
            assert(kem_twist(2 * len, b) == -kem_tw_z(half + b / 2));
            lemma_mul_mod_noop_left(q - zp, ri, q);
            assert((q - zp) * ri == q * ri + (-(zp * ri))) by (nonlinear_arith);
            lemma_mod_multiples_vanish(ri, -(zp * ri), q);
        }
    }
}

/// Products modulo `X^n - w` depend only on the residues modulo `q` of
/// the factors and of `w`.
proof fn lemma_twp_mod(x: Seq<int>, x2: Seq<int>, y: Seq<int>, y2: Seq<int>, n: int, w: int, w2: int, k: int)
    requires
        0 <= k < n,
        forall|i: int| 0 <= i < n ==> #[trigger] x[i] % (Q as int) == x2[i] % (Q as int),
        forall|i: int| 0 <= i < n ==> #[trigger] y[i] % (Q as int) == y2[i] % (Q as int),
        w % (Q as int) == w2 % (Q as int),
    ensures
        twp(x, y, n, w, k) % (Q as int) == twp(x2, y2, n, w2, k) % (Q as int),
{
    let q = Q as int;
    let f = |i: int| x[i] * twc(y, n, w, k - i);
    let g = |i: int| x2[i] * twc(y2, n, w2, k - i);
    assert forall|i: int| 0 <= i < n implies #[trigger] f(i) % q == g(i) % q by {
        let t = k - i;
        if t >= 0 {
            assert(y[t] % q == y2[t] % q);
        } else {
            assert(y[t + n] % q == y2[t + n] % q);
            lemma_mul_mod_noop(w, y[t + n], q);
            lemma_mul_mod_noop(w2, y2[t + n], q);
        }
        lemma_mul_mod_noop(x[i], twc(y, n, w, t), q);
        lemma_mul_mod_noop(x2[i], twc(y2, n, w2, t), q);
    }
    lemma_fsum_mod(n as nat, f, g, q);
}


/// Coefficient `j` of the blockwise product of `a` and `b` with blocks
/// of size `s`: block `t` is multiplied modulo `X^s - kem_twist(s, t)`.
pub open spec fn kem_bp(s: int, a: Seq<int>, b: Seq<int>, j: int) -> int {
    twp(blk(a, s, j / s), blk(b, s, j / s), s, kem_twist(s, j / s), j % s)
}

/// A Montgomery product with a table twiddle is the product with its
/// field value.
proof fn lemma_mont_tw(zm: int, x: int)
    ensures
        mont_mul_spec(zm, x, Q as int) == ((zm * r_inv(Q as int)) * x) % (Q as int),
{
    assert(zm * x * r_inv(Q as int) == (zm * r_inv(Q as int)) * x) by (nonlinear_arith);
}


/// The lower child block of block `b0` after the layer is the residue
/// of the block modulo `X^len - z`.
#[verifier::spinoff_prover]
proof fn lemma_child_lower(len: int, a: Seq<int>, b0: int)
    requires
        layer_len(len),
        len >= 2,
        a.len() == 256,
        0 <= b0,
        2 * len * b0 + 2 * len <= 256,
        1 <= 128int / len + b0 < 256,
    ensures
        forall|i: int|
            0 <= i < len ==> #[trigger] blk(kem_ct_layer(a, len), len, 2 * b0)[i] % (Q as int) == split(
                blk(a, 2 * len, b0),
                len,
                kem_tw_z(128int / len + b0),
            )[i] % (Q as int),
{
    let q = Q as int;
    let base = 2 * len * b0;
    let zm = ZETAS_MONT@[128int / len + b0] as int;
    let z = kem_tw_z(128int / len + b0);
    assert(len * (2 * b0) == base) by (nonlinear_arith)
        requires
            base == 2 * len * b0,
    ;
    assert forall|i: int| 0 <= i < len implies #[trigger] blk(kem_ct_layer(a, len), len, 2 * b0)[i] % q == split(
        blk(a, 2 * len, b0),
        len,
        z,
    )[i] % q by {
        lemma_block(base + i, len, b0);
        lemma_mont_tw(zm, a[base + i + len]);
        lemma_mod_twice(a[base + i] + z * a[base + i + len], q);
        lemma_add_mod_noop(a[base + i], (z * a[base + i + len]) % q, q);
        lemma_add_mod_noop(a[base + i], z * a[base + i + len], q);
        lemma_mod_twice(z * a[base + i + len], q);
    }
}

/// The upper child block of block `b0` after the layer is the residue
/// of the block modulo `X^len + z`.
#[verifier::spinoff_prover]
proof fn lemma_child_upper(len: int, a: Seq<int>, b0: int)
    requires
        layer_len(len),
        len >= 2,
        a.len() == 256,
        0 <= b0,
        2 * len * b0 + 2 * len <= 256,
        1 <= 128int / len + b0 < 256,
    ensures
        forall|i: int|
            0 <= i < len ==> #[trigger] blk(kem_ct_layer(a, len), len, 2 * b0 + 1)[i] % (Q as int) == split(
                blk(a, 2 * len, b0),
                len,
                -kem_tw_z(128int / len + b0),
            )[i] % (Q as int),
{
    let q = Q as int;
    let base = 2 * len * b0;
    let zm = ZETAS_MONT@[128int / len + b0] as int;
    let z = kem_tw_z(128int / len + b0);
    let nz = -z;
    assert(len * (2 * b0 + 1) == base + len) by (nonlinear_arith)
        requires
            base == 2 * len * b0,
    ;
    assert forall|i: int| 0 <= i < len implies #[trigger] blk(kem_ct_layer(a, len), len, 2 * b0 + 1)[i] % q == split(
        blk(a, 2 * len, b0),
        len,
        nz,
    )[i] % q by {
        lemma_block(base + len + i, len, b0);
        lemma_mont_tw(zm, a[base + len + i]);
        assert(nz * a[base + i + len] == -(z * a[base + i + len])) by (nonlinear_arith)
            requires
                nz == -z,
        ;
        lemma_mod_twice(a[base + i] - z * a[base + i + len], q);
        lemma_sub_mod_noop(a[base + i], (z * a[base + i + len]) % q, q);
        lemma_sub_mod_noop(a[base + i], z * a[base + i + len], q);
        lemma_mod_twice(z * a[base + i + len], q);
    }
}

/// `(x + mont(zm, y)) mod q` and `(x - mont(zm, y)) mod q` depend on `x`,
/// `y` modulo `q` only, as `x +- z y`.
proof fn lemma_butterfly_mod(x: int, y: int, x2: int, y2: int, zm: int, z: int)
    requires
        z == zm * r_inv(Q as int),
        x % (Q as int) == x2 % (Q as int),
        y % (Q as int) == y2 % (Q as int),
    ensures
        (x + mont_mul_spec(zm, y, Q as int)) % (Q as int) == (x2 + z * y2) % (Q as int),
        (x - mont_mul_spec(zm, y, Q as int)) % (Q as int) == (x2 + (-z) * y2) % (Q as int),
{
    let q = Q as int;
    lemma_mont_tw(zm, y);
    lemma_mul_mod_noop_right(z, y, q);
    lemma_mul_mod_noop_right(z, y2, q);
    lemma_add_mod_noop(x, (z * y) % q, q);
    lemma_add_mod_noop(x2, z * y2, q);
    lemma_mod_twice(z * y2, q);
    lemma_sub_mod_noop(x, (z * y) % q, q);
    lemma_sub_mod_noop(x2, z * y2, q);
    assert((-z) * y2 == -(z * y2)) by (nonlinear_arith);
}

/// One Cooley-Tukey layer maps blockwise products with blocks of size
/// `2 len` to blockwise products with blocks of size `len`.
#[verifier::spinoff_prover]
proof fn lemma_layer_step(len: int, a: Seq<int>, b: Seq<int>, c: Seq<int>, j: int)
    requires
        layer_len(len),
        len >= 2,
        a.len() == 256,
        b.len() == 256,
        c.len() == 256,
        0 <= j < 256,
        forall|i: int| 0 <= i < 256 ==> #[trigger] c[i] % (Q as int) == kem_bp(2 * len, a, b, i) % (Q as int),
    ensures
        kem_ct_layer(c, len)[j] == kem_bp(len, kem_ct_layer(a, len), kem_ct_layer(b, len), j) % (Q as int),
{
    let q = Q as int;
    let b0 = lemma_layer_position(len, j);
    let base = 2 * len * b0;
    let kk = 128int / len + b0;
    let zm = ZETAS_MONT@[kk] as int;
    let z = kem_tw_z(kk);
    lemma_twist_square(len, b0);
    let w = kem_twist(2 * len, b0);
    let aa = blk(a, 2 * len, b0);
    let bb = blk(b, 2 * len, b0);
    let ca = kem_ct_layer(a, len);
    let cb = kem_ct_layer(b, len);
    if j - base < len {
        let k = j - base;
        lemma_block(j, len, b0);
        lemma_block(j + len, len, b0);
        assert(len * (2 * b0) == base) by (nonlinear_arith)
            requires
                base == 2 * len * b0,
        ;
        lemma_in_block(j, len, 2 * b0);
        assert(kem_bp(2 * len, a, b, j) == twp(aa, bb, 2 * len, w, k));
        assert(kem_bp(2 * len, a, b, j + len) == twp(aa, bb, 2 * len, w, k + len));
        lemma_twp_mod(aa, aa, bb, bb, 2 * len, w, z * z, k);
        lemma_twp_mod(aa, aa, bb, bb, 2 * len, w, z * z, k + len);
        lemma_split_product(aa, bb, len, z, k);
        let p0 = twp(aa, bb, 2 * len, z * z, k);
        let p1 = twp(aa, bb, 2 * len, z * z, k + len);
        assert(c[j] % q == p0 % q);
        assert(c[j + len] % q == p1 % q);
        lemma_butterfly_mod(c[j], c[j + len], p0, p1, zm, z);
        assert(kem_ct_layer(c, len)[j] == (c[j] + mont_mul_spec(zm, c[j + len], q)) % q);
        assert(kem_twist(len, 2 * b0) == z);
        lemma_child_lower(len, a, b0);
        lemma_child_lower(len, b, b0);
        lemma_twp_mod(blk(ca, len, 2 * b0), split(aa, len, z), blk(cb, len, 2 * b0), split(bb, len, z), len, z, z, k);
    } else {
        let k = j - base - len;
        lemma_block(j, len, b0);
        lemma_block(j - len, len, b0);
        assert(len * (2 * b0 + 1) == base + len) by (nonlinear_arith)
            requires
                base == 2 * len * b0,
        ;
        lemma_in_block(j, len, 2 * b0 + 1);
        assert(kem_bp(2 * len, a, b, j - len) == twp(aa, bb, 2 * len, w, k));
        assert(kem_bp(2 * len, a, b, j) == twp(aa, bb, 2 * len, w, k + len));
        let nz = -z;
        assert(nz * nz == z * z) by (nonlinear_arith)
            requires
                nz == -z,
        ;
        lemma_twp_mod(aa, aa, bb, bb, 2 * len, w, nz * nz, k);
        lemma_twp_mod(aa, aa, bb, bb, 2 * len, w, nz * nz, k + len);
        lemma_split_product(aa, bb, len, nz, k);
        let p0 = twp(aa, bb, 2 * len, nz * nz, k);
        let p1 = twp(aa, bb, 2 * len, nz * nz, k + len);
        assert(c[j - len] % q == p0 % q);
        assert(c[j] % q == p1 % q);
        lemma_butterfly_mod(c[j - len], c[j], p0, p1, zm, z);
        assert(kem_ct_layer(c, len)[j] == (c[j - len] - mont_mul_spec(zm, c[j], q)) % q);
        assert(kem_twist(len, 2 * b0 + 1) == nz);
        lemma_child_upper(len, a, b0);
        lemma_child_upper(len, b, b0);
        lemma_twp_mod(
            blk(ca, len, 2 * b0 + 1),
            split(aa, len, nz),
            blk(cb, len, 2 * b0 + 1),
            split(bb, len, nz),
            len,
            nz,
            nz,
            k,
        );
    }
}


/// The remaining layers `len, ..., 2` map blockwise products with blocks
/// of size `2 len` to blockwise products with blocks of size 2.
proof fn lemma_layers_mult(len: nat, a: Seq<int>, b: Seq<int>, c: Seq<int>)
    requires
        layer_len(len as int),
        len >= 2,
        a.len() == 256,
        b.len() == 256,
        c.len() == 256,
        forall|i: int| 0 <= i < 256 ==> #[trigger] c[i] % (Q as int) == kem_bp(2 * len as int, a, b, i) % (Q as int),
    ensures
        forall|j: int|
            0 <= j < 256 ==> #[trigger] kem_ct_layers(c, len)[j] == kem_bp(
                2,
                kem_ct_layers(a, len),
                kem_ct_layers(b, len),
                j,
            ) % (Q as int),
    decreases len,
{
    let q = Q as int;
    let a1 = kem_ct_layer(a, len as int);
    let b1 = kem_ct_layer(b, len as int);
    let c1 = kem_ct_layer(c, len as int);
    assert forall|j: int| 0 <= j < 256 implies #[trigger] c1[j] % q == kem_bp(len as int, a1, b1, j) % q by {
        lemma_layer_step(len as int, a, b, c, j);
        lemma_mod_twice(kem_bp(len as int, a1, b1, j), q);
    }
    assert(kem_ct_layers(a, len) == kem_ct_layers(a1, len / 2));
    assert(kem_ct_layers(b, len) == kem_ct_layers(b1, len / 2));
    assert(kem_ct_layers(c, len) == kem_ct_layers(c1, len / 2));
    if len == 2 {
        assert(kem_ct_layers(a1, 1) == a1);
        assert(kem_ct_layers(b1, 1) == b1);
        assert(kem_ct_layers(c1, 1) == c1);
        assert forall|j: int| 0 <= j < 256 implies #[trigger] kem_ct_layers(c, len)[j] == kem_bp(
            2,
            kem_ct_layers(a, len),
            kem_ct_layers(b, len),
            j,
        ) % q by {
            lemma_layer_step(2, a, b, c, j);
        }
    } else {
        assert(layer_len((len / 2) as int));
        assert(2 * (len / 2) == len);
        lemma_layers_mult(len / 2, a1, b1, c1);
    }
}

/// Size-two blocks: slot `p` of the blockwise product is the product of
/// the pair `(x_2p, x_2p+1)` and `(y_2p, y_2p+1)` modulo `X^2 - gamma_p`.
proof fn lemma_bp_pairs(x: Seq<int>, y: Seq<int>, p: int)
    requires
        0 <= p < 128,
        x.len() == 256,
        y.len() == 256,
    ensures
        kem_bp(2, x, y, 2 * p) % (Q as int) == pair0(x, y, p) % (Q as int),
        kem_bp(2, x, y, 2 * p + 1) == pair1(x, y, p),
{
    let q = Q as int;
    let ri = r_inv(q);
    lemma_in_block(2 * p, 2, p);
    lemma_in_block(2 * p + 1, 2, p);
    let bx = blk(x, 2, p);
    let by = blk(y, 2, p);
    let w = kem_twist(2, p);
    assert(bx[0] == x[2 * p] && bx[1] == x[2 * p + 1]);
    assert(by[0] == y[2 * p] && by[1] == y[2 * p + 1]);
    let f0 = |i: int| bx[i] * twc(by, 2, w, 0 - i);
    let f1 = |i: int| bx[i] * twc(by, 2, w, 1 - i);
    assert(fsum(0, f0) == 0 && fsum(0, f1) == 0);
    assert(fsum(1, f0) == f0(0));
    assert(fsum(1, f1) == f1(0));
    assert(kem_bp(2, x, y, 2 * p) == twp(bx, by, 2, w, 0));
    assert(kem_bp(2, x, y, 2 * p + 1) == twp(bx, by, 2, w, 1));
    assert(twp(bx, by, 2, w, 0) == x[2 * p] * y[2 * p] + x[2 * p + 1] * (w * y[2 * p + 1]));
    assert(twp(bx, by, 2, w, 1) == x[2 * p] * y[2 * p + 1] + x[2 * p + 1] * y[2 * p]);
    // `w` and `gamma_p` agree modulo `q`.
    lemma_gammas_table(p);
    assert(128int / 2 == 64);
    let zk = ZETAS_MONT@[64 + p / 2] as int;
    if p % 2 == 0 {
        assert(w == zk * ri);
        assert(gam(p) == zk * ri);
    } else {
        assert(w == -(zk * ri));
        assert(gam(p) == (3329 - zk) * ri);
        assert((3329 - zk) * ri == q * ri + (-(zk * ri))) by (nonlinear_arith)
            requires
                q == 3329,
        ;
        lemma_mod_multiples_vanish(ri, -(zk * ri), q);
    }
    assert(w % q == gam(p) % q);
    let m = x[2 * p + 1] * y[2 * p + 1];
    assert(x[2 * p + 1] * (w * y[2 * p + 1]) == w * m) by (nonlinear_arith)
        requires
            m == x[2 * p + 1] * y[2 * p + 1],
    ;
    lemma_mul_mod_noop_left(w, m, q);
    lemma_mul_mod_noop_left(gam(p), m, q);
    lemma_add_mod_noop(x[2 * p] * y[2 * p], w * m, q);
    lemma_add_mod_noop(x[2 * p] * y[2 * p], gam(p) * m, q);
}

/// A canonical `x` with `R x == y (mod q)` is `R^-1 y mod q`.
proof fn lemma_unscale(x: int, y: int)
    requires
        0 <= x < Q,
        (mont_r() * x) % (Q as int) == y % (Q as int),
    ensures
        x == (r_inv(Q as int) * y) % (Q as int),
{
    let q = Q as int;
    let r = mont_r();
    let ri = r_inv(q);
    lemma_mul_mod_noop_right(ri, y, q);
    lemma_mul_mod_noop_right(ri, r * x, q);
    assert(ri * (r * x) == x * (r * ri)) by (nonlinear_arith);
    assert((r * ri) % q == 1);
    lemma_mul_mod_noop_right(x, r * ri, q);
    lemma_small_mod(x as nat, q as nat);
}

/// The negacyclic product of `a` and `b` modulo `q`, coefficient by
/// coefficient.
pub open spec fn kem_nega_mod(a: Seq<u32>, b: Seq<u32>) -> Seq<u32> {
    Seq::new(256, |k: int| (negacyclic_coeff(a, b, k) % (Q as int)) as u32)
}

/// The NTT turns products in `R_q` into MultiplyNTTs of the transforms:
/// `NTT(a * b) == MultiplyNTTs(NTT(a), NTT(b))`, all in Montgomery form.
pub proof fn lemma_kem_ntt_mul(a: Seq<u32>, b: Seq<u32>)
    requires
        a.len() == 256,
        b.len() == 256,
    ensures
        kem_ntt_spec(kem_nega_mod(a, b)) == mul_ntt_spec(kem_ntt_spec(a), kem_ntt_spec(b)),
{
    let q = Q as int;
    let r = mont_r();
    let c = kem_nega_mod(a, b);
    let aa = mont_seq_kem(a);
    let bb = mont_seq_kem(b);
    let cc = mont_seq_kem(c);
    let c2 = scale_mod(r, cc, q);
    let ra = Seq::new(256, |i: int| r * as_ints(a)[i]);
    let rb = Seq::new(256, |i: int| r * as_ints(b)[i]);
    assert forall|k: int| 0 <= k < 256 implies #[trigger] c2[k] % q == kem_bp(256, aa, bb, k) % q by {
        lemma_in_block(k, 256, 0);
        assert(blk(aa, 256, 0) =~= aa);
        assert(blk(bb, 256, 0) =~= bb);
        assert(kem_bp(256, aa, bb, k) == twp(aa, bb, 256, -1, k));
        assert forall|i: int| 0 <= i < 256 implies #[trigger] aa[i] % q == ra[i] % q by {
            lemma_mod_twice(a[i] * r, q);
            assert(a[i] * r == r * a[i]) by (nonlinear_arith);
        }
        assert forall|i: int| 0 <= i < 256 implies #[trigger] bb[i] % q == rb[i] % q by {
            lemma_mod_twice(b[i] * r, q);
            assert(b[i] * r == r * b[i]) by (nonlinear_arith);
        }
        lemma_twp_mod(aa, ra, bb, rb, 256, -1, -1, k);
        lemma_twp_scale(as_ints(a), as_ints(b), 256, -1, k, r, r);
        lemma_nega_rows(a, b, 256, k);
        let nk = negacyclic_coeff(a, b, k);
        assert(twp(as_ints(a), as_ints(b), 256, -1, k) == nk);
        // c2[k] == R (R (nk mod q) mod q) == R^2 nk  (mod q)
        lemma_mod_bound(nk, q);
        assert(c[k] as int == nk % q);
        lemma_mul_mod_noop_right(r, c[k] * r, q);
        assert(r * (c[k] * r) == (r * r) * c[k]) by (nonlinear_arith);
        lemma_mul_mod_noop_right(r * r, nk, q);
    }
    lemma_layers_mult(128, aa, bb, c2);
    lemma_ct_layers_linear(r, cc, 128);
    lemma_ct_layers_canonical(cc, 128);
    lemma_ct_layers_canonical(aa, 128);
    lemma_ct_layers_canonical(bb, 128);
    let na = kem_ntt_spec(a);
    let nb = kem_ntt_spec(b);
    let nc = kem_ntt_spec(c);
    let m = mul_ntt_spec(na, nb);
    assert(kem_ct_layers(c2, 128) == scale_mod(r, nc, q));
    assert forall|j: int| 0 <= j < 256 implies #[trigger] nc[j] == m[j] by {
        let p = j / 2;
        lemma_mul_ntt_slot(na, nb, p);
        lemma_bp_pairs(na, nb, p);
        assert(kem_ct_layers(c2, 128)[j] == kem_bp(2, na, nb, j) % q);
        assert(kem_ct_layers(c2, 128)[j] == (r * nc[j]) % q);
        lemma_mod_twice(kem_bp(2, na, nb, j), q);
        if j % 2 == 0 {
            assert(j == 2 * p);
            lemma_unscale(nc[j], pair0(na, nb, p));
        } else {
            assert(j == 2 * p + 1);
            lemma_unscale(nc[j], pair1(na, nb, p));
        }
    }
    assert(nc =~= m);
}

/// Multiplication through the NTT is the product in `R_q`:
/// `NTT^-1(MultiplyNTTs(NTT(a), NTT(b))) == a * b mod (X^256 + 1, q)`.
pub proof fn lemma_kem_ntt_mul_inverse(a: Seq<u32>, b: Seq<u32>)
    requires
        a.len() == 256,
        b.len() == 256,
    ensures
        kem_inv_ntt_spec(mul_ntt_spec(kem_ntt_spec(a), kem_ntt_spec(b)))
            == Seq::new(256, |k: int| negacyclic_coeff(a, b, k) % (Q as int)),
{
    let q = Q as int;
    let c = kem_nega_mod(a, b);
    lemma_kem_ntt_mul(a, b);
    assert forall|i: int| 0 <= i < 256 implies #[trigger] c[i] < Q by {
        lemma_mod_bound(negacyclic_coeff(a, b, i), q);
    }
    lemma_kem_ntt_roundtrip(c);
    assert(as_ints(c) =~= Seq::new(256, |k: int| negacyclic_coeff(a, b, k) % q));
}

} // verus!

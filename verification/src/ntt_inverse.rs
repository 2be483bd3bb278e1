//! The inverse NTT undoes the forward NTT (FIPS 204): each
//! Gentleman-Sande layer undoes the Cooley-Tukey layer of the same
//! half-length up to a factor 2, the layers are linear, and the final
//! scaling by `256^-1` (in the Montgomery domain) removes both the
//! factor `256` and the Montgomery factor of the forward transform.

use vstd::arithmetic::div_mod::*;
use vstd::prelude::*;

use crate::field::{mont_mul_spec, mont_r, r_inv};
use crate::ntt::{
    as_ints, ct_layer, ct_layers, gs_layer, gs_layers, inv_ntt_spec, layer_len, lemma_block,
    lemma_layer_counts, mont_seq, ntt_spec, N_INV, ZETAS_MONT,
};
use crate::params::Q;

verus! {

/// The twiddle index that the inverse transform pairs with index `k`:
/// `3B - 1 - k` for `B` the largest power of two not above `k`.
pub open spec fn twiddle_mirror(k: int) -> int {
    if k < 2 {
        1
    } else if k < 4 {
        5 - k
    } else if k < 8 {
        11 - k
    } else if k < 16 {
        23 - k
    } else if k < 32 {
        47 - k
    } else if k < 64 {
        95 - k
    } else if k < 128 {
        191 - k
    } else {
        383 - k
    }
}

/// `-zeta_mirror(k) * zeta_k == 1` in the field, for the Montgomery
/// forms in the table: `(q - ZM[mirror(k)]) * ZM[k] == R^2 mod q`.
#[verifier::rlimit(100)]
proof fn lemma_twiddle_pair(k: int)
    requires
        1 <= k < 256,
    ensures
        ((Q - ZETAS_MONT@[twiddle_mirror(k)]) * ZETAS_MONT@[k]) % (Q as int) == 2365951,
{
    if k == 1 {
        assert(((Q - ZETAS_MONT@[1]) * ZETAS_MONT@[1]) % (Q as int) == 2365951);
    } else if k == 2 {
        assert(((Q - ZETAS_MONT@[3]) * ZETAS_MONT@[2]) % (Q as int) == 2365951);
    } else if k == 3 {
        assert(((Q - ZETAS_MONT@[2]) * ZETAS_MONT@[3]) % (Q as int) == 2365951);
    } else if k == 4 {
        assert(((Q - ZETAS_MONT@[7]) * ZETAS_MONT@[4]) % (Q as int) == 2365951);
    } else if k == 5 {
        assert(((Q - ZETAS_MONT@[6]) * ZETAS_MONT@[5]) % (Q as int) == 2365951);
    } else if k == 6 {
        assert(((Q - ZETAS_MONT@[5]) * ZETAS_MONT@[6]) % (Q as int) == 2365951);
    } else if k == 7 {
        assert(((Q - ZETAS_MONT@[4]) * ZETAS_MONT@[7]) % (Q as int) == 2365951);
    } else if k == 8 {
        assert(((Q - ZETAS_MONT@[15]) * ZETAS_MONT@[8]) % (Q as int) == 2365951);
    } else if k == 9 {
        assert(((Q - ZETAS_MONT@[14]) * ZETAS_MONT@[9]) % (Q as int) == 2365951);
    } else if k == 10 {
        assert(((Q - ZETAS_MONT@[13]) * ZETAS_MONT@[10]) % (Q as int) == 2365951);
    } else if k == 11 {
        assert(((Q - ZETAS_MONT@[12]) * ZETAS_MONT@[11]) % (Q as int) == 2365951);
    } else if k == 12 {
        assert(((Q - ZETAS_MONT@[11]) * ZETAS_MONT@[12]) % (Q as int) == 2365951);
    } else if k == 13 {
        assert(((Q - ZETAS_MONT@[10]) * ZETAS_MONT@[13]) % (Q as int) == 2365951);
    } else if k == 14 {
        assert(((Q - ZETAS_MONT@[9]) * ZETAS_MONT@[14]) % (Q as int) == 2365951);
    } else if k == 15 {
        assert(((Q - ZETAS_MONT@[8]) * ZETAS_MONT@[15]) % (Q as int) == 2365951);
    } else if k == 16 {
        assert(((Q - ZETAS_MONT@[31]) * ZETAS_MONT@[16]) % (Q as int) == 2365951);
    } else if k == 17 {
        assert(((Q - ZETAS_MONT@[30]) * ZETAS_MONT@[17]) % (Q as int) == 2365951);
    } else if k == 18 {
        assert(((Q - ZETAS_MONT@[29]) * ZETAS_MONT@[18]) % (Q as int) == 2365951);
    } else if k == 19 {
        assert(((Q - ZETAS_MONT@[28]) * ZETAS_MONT@[19]) % (Q as int) == 2365951);
    } else if k == 20 {
        assert(((Q - ZETAS_MONT@[27]) * ZETAS_MONT@[20]) % (Q as int) == 2365951);
    } else if k == 21 {
        assert(((Q - ZETAS_MONT@[26]) * ZETAS_MONT@[21]) % (Q as int) == 2365951);
    } else if k == 22 {
        assert(((Q - ZETAS_MONT@[25]) * ZETAS_MONT@[22]) % (Q as int) == 2365951);
    } else if k == 23 {
        assert(((Q - ZETAS_MONT@[24]) * ZETAS_MONT@[23]) % (Q as int) == 2365951);
    } else if k == 24 {
        assert(((Q - ZETAS_MONT@[23]) * ZETAS_MONT@[24]) % (Q as int) == 2365951);
    } else if k == 25 {
        assert(((Q - ZETAS_MONT@[22]) * ZETAS_MONT@[25]) % (Q as int) == 2365951);
    } else if k == 26 {
        assert(((Q - ZETAS_MONT@[21]) * ZETAS_MONT@[26]) % (Q as int) == 2365951);
    } else if k == 27 {
        assert(((Q - ZETAS_MONT@[20]) * ZETAS_MONT@[27]) % (Q as int) == 2365951);
    } else if k == 28 {
        assert(((Q - ZETAS_MONT@[19]) * ZETAS_MONT@[28]) % (Q as int) == 2365951);
    } else if k == 29 {
        assert(((Q - ZETAS_MONT@[18]) * ZETAS_MONT@[29]) % (Q as int) == 2365951);
    } else if k == 30 {
        assert(((Q - ZETAS_MONT@[17]) * ZETAS_MONT@[30]) % (Q as int) == 2365951);
    } else if k == 31 {
        assert(((Q - ZETAS_MONT@[16]) * ZETAS_MONT@[31]) % (Q as int) == 2365951);
    } else if k == 32 {
        assert(((Q - ZETAS_MONT@[63]) * ZETAS_MONT@[32]) % (Q as int) == 2365951);
    } else if k == 33 {
        assert(((Q - ZETAS_MONT@[62]) * ZETAS_MONT@[33]) % (Q as int) == 2365951);
    } else if k == 34 {
        assert(((Q - ZETAS_MONT@[61]) * ZETAS_MONT@[34]) % (Q as int) == 2365951);
    } else if k == 35 {
        assert(((Q - ZETAS_MONT@[60]) * ZETAS_MONT@[35]) % (Q as int) == 2365951);
    } else if k == 36 {
        assert(((Q - ZETAS_MONT@[59]) * ZETAS_MONT@[36]) % (Q as int) == 2365951);
    } else if k == 37 {
        assert(((Q - ZETAS_MONT@[58]) * ZETAS_MONT@[37]) % (Q as int) == 2365951);
    } else if k == 38 {
        assert(((Q - ZETAS_MONT@[57]) * ZETAS_MONT@[38]) % (Q as int) == 2365951);
    } else if k == 39 {
        assert(((Q - ZETAS_MONT@[56]) * ZETAS_MONT@[39]) % (Q as int) == 2365951);
    } else if k == 40 {
        assert(((Q - ZETAS_MONT@[55]) * ZETAS_MONT@[40]) % (Q as int) == 2365951);
    } else if k == 41 {
        assert(((Q - ZETAS_MONT@[54]) * ZETAS_MONT@[41]) % (Q as int) == 2365951);
    } else if k == 42 {
        assert(((Q - ZETAS_MONT@[53]) * ZETAS_MONT@[42]) % (Q as int) == 2365951);
    } else if k == 43 {
        assert(((Q - ZETAS_MONT@[52]) * ZETAS_MONT@[43]) % (Q as int) == 2365951);
    } else if k == 44 {
        assert(((Q - ZETAS_MONT@[51]) * ZETAS_MONT@[44]) % (Q as int) == 2365951);
    } else if k == 45 {
        assert(((Q - ZETAS_MONT@[50]) * ZETAS_MONT@[45]) % (Q as int) == 2365951);
    } else if k == 46 {
        assert(((Q - ZETAS_MONT@[49]) * ZETAS_MONT@[46]) % (Q as int) == 2365951);
    } else if k == 47 {
        assert(((Q - ZETAS_MONT@[48]) * ZETAS_MONT@[47]) % (Q as int) == 2365951);
    } else if k == 48 {
        assert(((Q - ZETAS_MONT@[47]) * ZETAS_MONT@[48]) % (Q as int) == 2365951);
    } else if k == 49 {
        assert(((Q - ZETAS_MONT@[46]) * ZETAS_MONT@[49]) % (Q as int) == 2365951);
    } else if k == 50 {
        assert(((Q - ZETAS_MONT@[45]) * ZETAS_MONT@[50]) % (Q as int) == 2365951);
    } else if k == 51 {
        assert(((Q - ZETAS_MONT@[44]) * ZETAS_MONT@[51]) % (Q as int) == 2365951);
    } else if k == 52 {
        assert(((Q - ZETAS_MONT@[43]) * ZETAS_MONT@[52]) % (Q as int) == 2365951);
    } else if k == 53 {
        assert(((Q - ZETAS_MONT@[42]) * ZETAS_MONT@[53]) % (Q as int) == 2365951);
    } else if k == 54 {
        assert(((Q - ZETAS_MONT@[41]) * ZETAS_MONT@[54]) % (Q as int) == 2365951);
    } else if k == 55 {
        assert(((Q - ZETAS_MONT@[40]) * ZETAS_MONT@[55]) % (Q as int) == 2365951);
    } else if k == 56 {
        assert(((Q - ZETAS_MONT@[39]) * ZETAS_MONT@[56]) % (Q as int) == 2365951);
    } else if k == 57 {
        assert(((Q - ZETAS_MONT@[38]) * ZETAS_MONT@[57]) % (Q as int) == 2365951);
    } else if k == 58 {
        assert(((Q - ZETAS_MONT@[37]) * ZETAS_MONT@[58]) % (Q as int) == 2365951);
    } else if k == 59 {
        assert(((Q - ZETAS_MONT@[36]) * ZETAS_MONT@[59]) % (Q as int) == 2365951);
    } else if k == 60 {
        assert(((Q - ZETAS_MONT@[35]) * ZETAS_MONT@[60]) % (Q as int) == 2365951);
    } else if k == 61 {
        assert(((Q - ZETAS_MONT@[34]) * ZETAS_MONT@[61]) % (Q as int) == 2365951);
    } else if k == 62 {
        assert(((Q - ZETAS_MONT@[33]) * ZETAS_MONT@[62]) % (Q as int) == 2365951);
    } else if k == 63 {
        assert(((Q - ZETAS_MONT@[32]) * ZETAS_MONT@[63]) % (Q as int) == 2365951);
    } else if k == 64 {
        assert(((Q - ZETAS_MONT@[127]) * ZETAS_MONT@[64]) % (Q as int) == 2365951);
    } else if k == 65 {
        assert(((Q - ZETAS_MONT@[126]) * ZETAS_MONT@[65]) % (Q as int) == 2365951);
    } else if k == 66 {
        assert(((Q - ZETAS_MONT@[125]) * ZETAS_MONT@[66]) % (Q as int) == 2365951);
    } else if k == 67 {
        assert(((Q - ZETAS_MONT@[124]) * ZETAS_MONT@[67]) % (Q as int) == 2365951);
    } else if k == 68 {
        assert(((Q - ZETAS_MONT@[123]) * ZETAS_MONT@[68]) % (Q as int) == 2365951);
    } else if k == 69 {
        assert(((Q - ZETAS_MONT@[122]) * ZETAS_MONT@[69]) % (Q as int) == 2365951);
    } else if k == 70 {
        assert(((Q - ZETAS_MONT@[121]) * ZETAS_MONT@[70]) % (Q as int) == 2365951);
    } else if k == 71 {
        assert(((Q - ZETAS_MONT@[120]) * ZETAS_MONT@[71]) % (Q as int) == 2365951);
    } else if k == 72 {
        assert(((Q - ZETAS_MONT@[119]) * ZETAS_MONT@[72]) % (Q as int) == 2365951);
    } else if k == 73 {
        assert(((Q - ZETAS_MONT@[118]) * ZETAS_MONT@[73]) % (Q as int) == 2365951);
    } else if k == 74 {
        assert(((Q - ZETAS_MONT@[117]) * ZETAS_MONT@[74]) % (Q as int) == 2365951);
    } else if k == 75 {
        assert(((Q - ZETAS_MONT@[116]) * ZETAS_MONT@[75]) % (Q as int) == 2365951);
    } else if k == 76 {
        assert(((Q - ZETAS_MONT@[115]) * ZETAS_MONT@[76]) % (Q as int) == 2365951);
    } else if k == 77 {
        assert(((Q - ZETAS_MONT@[114]) * ZETAS_MONT@[77]) % (Q as int) == 2365951);
    } else if k == 78 {
        assert(((Q - ZETAS_MONT@[113]) * ZETAS_MONT@[78]) % (Q as int) == 2365951);
    } else if k == 79 {
        assert(((Q - ZETAS_MONT@[112]) * ZETAS_MONT@[79]) % (Q as int) == 2365951);
    } else if k == 80 {
        assert(((Q - ZETAS_MONT@[111]) * ZETAS_MONT@[80]) % (Q as int) == 2365951);
    } else if k == 81 {
        assert(((Q - ZETAS_MONT@[110]) * ZETAS_MONT@[81]) % (Q as int) == 2365951);
    } else if k == 82 {
        assert(((Q - ZETAS_MONT@[109]) * ZETAS_MONT@[82]) % (Q as int) == 2365951);
    } else if k == 83 {
        assert(((Q - ZETAS_MONT@[108]) * ZETAS_MONT@[83]) % (Q as int) == 2365951);
    } else if k == 84 {
        assert(((Q - ZETAS_MONT@[107]) * ZETAS_MONT@[84]) % (Q as int) == 2365951);
    } else if k == 85 {
        assert(((Q - ZETAS_MONT@[106]) * ZETAS_MONT@[85]) % (Q as int) == 2365951);
    } else if k == 86 {
        assert(((Q - ZETAS_MONT@[105]) * ZETAS_MONT@[86]) % (Q as int) == 2365951);
    } else if k == 87 {
        assert(((Q - ZETAS_MONT@[104]) * ZETAS_MONT@[87]) % (Q as int) == 2365951);
    } else if k == 88 {
        assert(((Q - ZETAS_MONT@[103]) * ZETAS_MONT@[88]) % (Q as int) == 2365951);
    } else if k == 89 {
        assert(((Q - ZETAS_MONT@[102]) * ZETAS_MONT@[89]) % (Q as int) == 2365951);
    } else if k == 90 {
        assert(((Q - ZETAS_MONT@[101]) * ZETAS_MONT@[90]) % (Q as int) == 2365951);
    } else if k == 91 {
        assert(((Q - ZETAS_MONT@[100]) * ZETAS_MONT@[91]) % (Q as int) == 2365951);
    } else if k == 92 {
        assert(((Q - ZETAS_MONT@[99]) * ZETAS_MONT@[92]) % (Q as int) == 2365951);
    } else if k == 93 {
        assert(((Q - ZETAS_MONT@[98]) * ZETAS_MONT@[93]) % (Q as int) == 2365951);
    } else if k == 94 {
        assert(((Q - ZETAS_MONT@[97]) * ZETAS_MONT@[94]) % (Q as int) == 2365951);
    } else if k == 95 {
        assert(((Q - ZETAS_MONT@[96]) * ZETAS_MONT@[95]) % (Q as int) == 2365951);
    } else if k == 96 {
        assert(((Q - ZETAS_MONT@[95]) * ZETAS_MONT@[96]) % (Q as int) == 2365951);
    } else if k == 97 {
        assert(((Q - ZETAS_MONT@[94]) * ZETAS_MONT@[97]) % (Q as int) == 2365951);
    } else if k == 98 {
        assert(((Q - ZETAS_MONT@[93]) * ZETAS_MONT@[98]) % (Q as int) == 2365951);
    } else if k == 99 {
        assert(((Q - ZETAS_MONT@[92]) * ZETAS_MONT@[99]) % (Q as int) == 2365951);
    } else if k == 100 {
        assert(((Q - ZETAS_MONT@[91]) * ZETAS_MONT@[100]) % (Q as int) == 2365951);
    } else if k == 101 {
        assert(((Q - ZETAS_MONT@[90]) * ZETAS_MONT@[101]) % (Q as int) == 2365951);
    } else if k == 102 {
        assert(((Q - ZETAS_MONT@[89]) * ZETAS_MONT@[102]) % (Q as int) == 2365951);
    } else if k == 103 {
        assert(((Q - ZETAS_MONT@[88]) * ZETAS_MONT@[103]) % (Q as int) == 2365951);
    } else if k == 104 {
        assert(((Q - ZETAS_MONT@[87]) * ZETAS_MONT@[104]) % (Q as int) == 2365951);
    } else if k == 105 {
        assert(((Q - ZETAS_MONT@[86]) * ZETAS_MONT@[105]) % (Q as int) == 2365951);
    } else if k == 106 {
        assert(((Q - ZETAS_MONT@[85]) * ZETAS_MONT@[106]) % (Q as int) == 2365951);
    } else if k == 107 {
        assert(((Q - ZETAS_MONT@[84]) * ZETAS_MONT@[107]) % (Q as int) == 2365951);
    } else if k == 108 {
        assert(((Q - ZETAS_MONT@[83]) * ZETAS_MONT@[108]) % (Q as int) == 2365951);
    } else if k == 109 {
        assert(((Q - ZETAS_MONT@[82]) * ZETAS_MONT@[109]) % (Q as int) == 2365951);
    } else if k == 110 {
        assert(((Q - ZETAS_MONT@[81]) * ZETAS_MONT@[110]) % (Q as int) == 2365951);
    } else if k == 111 {
        assert(((Q - ZETAS_MONT@[80]) * ZETAS_MONT@[111]) % (Q as int) == 2365951);
    } else if k == 112 {
        assert(((Q - ZETAS_MONT@[79]) * ZETAS_MONT@[112]) % (Q as int) == 2365951);
    } else if k == 113 {
        assert(((Q - ZETAS_MONT@[78]) * ZETAS_MONT@[113]) % (Q as int) == 2365951);
    } else if k == 114 {
        assert(((Q - ZETAS_MONT@[77]) * ZETAS_MONT@[114]) % (Q as int) == 2365951);
    } else if k == 115 {
        assert(((Q - ZETAS_MONT@[76]) * ZETAS_MONT@[115]) % (Q as int) == 2365951);
    } else if k == 116 {
        assert(((Q - ZETAS_MONT@[75]) * ZETAS_MONT@[116]) % (Q as int) == 2365951);
    } else if k == 117 {
        assert(((Q - ZETAS_MONT@[74]) * ZETAS_MONT@[117]) % (Q as int) == 2365951);
    } else if k == 118 {
        assert(((Q - ZETAS_MONT@[73]) * ZETAS_MONT@[118]) % (Q as int) == 2365951);
    } else if k == 119 {
        assert(((Q - ZETAS_MONT@[72]) * ZETAS_MONT@[119]) % (Q as int) == 2365951);
    } else if k == 120 {
        assert(((Q - ZETAS_MONT@[71]) * ZETAS_MONT@[120]) % (Q as int) == 2365951);
    } else if k == 121 {
        assert(((Q - ZETAS_MONT@[70]) * ZETAS_MONT@[121]) % (Q as int) == 2365951);
    } else if k == 122 {
        assert(((Q - ZETAS_MONT@[69]) * ZETAS_MONT@[122]) % (Q as int) == 2365951);
    } else if k == 123 {
        assert(((Q - ZETAS_MONT@[68]) * ZETAS_MONT@[123]) % (Q as int) == 2365951);
    } else if k == 124 {
        assert(((Q - ZETAS_MONT@[67]) * ZETAS_MONT@[124]) % (Q as int) == 2365951);
    } else if k == 125 {
        assert(((Q - ZETAS_MONT@[66]) * ZETAS_MONT@[125]) % (Q as int) == 2365951);
    } else if k == 126 {
        assert(((Q - ZETAS_MONT@[65]) * ZETAS_MONT@[126]) % (Q as int) == 2365951);
    } else if k == 127 {
        assert(((Q - ZETAS_MONT@[64]) * ZETAS_MONT@[127]) % (Q as int) == 2365951);
    } else if k == 128 {
        assert(((Q - ZETAS_MONT@[255]) * ZETAS_MONT@[128]) % (Q as int) == 2365951);
    } else if k == 129 {
        assert(((Q - ZETAS_MONT@[254]) * ZETAS_MONT@[129]) % (Q as int) == 2365951);
    } else if k == 130 {
        assert(((Q - ZETAS_MONT@[253]) * ZETAS_MONT@[130]) % (Q as int) == 2365951);
    } else if k == 131 {
        assert(((Q - ZETAS_MONT@[252]) * ZETAS_MONT@[131]) % (Q as int) == 2365951);
    } else if k == 132 {
        assert(((Q - ZETAS_MONT@[251]) * ZETAS_MONT@[132]) % (Q as int) == 2365951);
    } else if k == 133 {
        assert(((Q - ZETAS_MONT@[250]) * ZETAS_MONT@[133]) % (Q as int) == 2365951);
    } else if k == 134 {
        assert(((Q - ZETAS_MONT@[249]) * ZETAS_MONT@[134]) % (Q as int) == 2365951);
    } else if k == 135 {
        assert(((Q - ZETAS_MONT@[248]) * ZETAS_MONT@[135]) % (Q as int) == 2365951);
    } else if k == 136 {
        assert(((Q - ZETAS_MONT@[247]) * ZETAS_MONT@[136]) % (Q as int) == 2365951);
    } else if k == 137 {
        assert(((Q - ZETAS_MONT@[246]) * ZETAS_MONT@[137]) % (Q as int) == 2365951);
    } else if k == 138 {
        assert(((Q - ZETAS_MONT@[245]) * ZETAS_MONT@[138]) % (Q as int) == 2365951);
    } else if k == 139 {
        assert(((Q - ZETAS_MONT@[244]) * ZETAS_MONT@[139]) % (Q as int) == 2365951);
    } else if k == 140 {
        assert(((Q - ZETAS_MONT@[243]) * ZETAS_MONT@[140]) % (Q as int) == 2365951);
    } else if k == 141 {
        assert(((Q - ZETAS_MONT@[242]) * ZETAS_MONT@[141]) % (Q as int) == 2365951);
    } else if k == 142 {
        assert(((Q - ZETAS_MONT@[241]) * ZETAS_MONT@[142]) % (Q as int) == 2365951);
    } else if k == 143 {
        assert(((Q - ZETAS_MONT@[240]) * ZETAS_MONT@[143]) % (Q as int) == 2365951);
    } else if k == 144 {
        assert(((Q - ZETAS_MONT@[239]) * ZETAS_MONT@[144]) % (Q as int) == 2365951);
    } else if k == 145 {
        assert(((Q - ZETAS_MONT@[238]) * ZETAS_MONT@[145]) % (Q as int) == 2365951);
    } else if k == 146 {
        assert(((Q - ZETAS_MONT@[237]) * ZETAS_MONT@[146]) % (Q as int) == 2365951);
    } else if k == 147 {
        assert(((Q - ZETAS_MONT@[236]) * ZETAS_MONT@[147]) % (Q as int) == 2365951);
    } else if k == 148 {
        assert(((Q - ZETAS_MONT@[235]) * ZETAS_MONT@[148]) % (Q as int) == 2365951);
    } else if k == 149 {
        assert(((Q - ZETAS_MONT@[234]) * ZETAS_MONT@[149]) % (Q as int) == 2365951);
    } else if k == 150 {
        assert(((Q - ZETAS_MONT@[233]) * ZETAS_MONT@[150]) % (Q as int) == 2365951);
    } else if k == 151 {
        assert(((Q - ZETAS_MONT@[232]) * ZETAS_MONT@[151]) % (Q as int) == 2365951);
    } else if k == 152 {
        assert(((Q - ZETAS_MONT@[231]) * ZETAS_MONT@[152]) % (Q as int) == 2365951);
    } else if k == 153 {
        assert(((Q - ZETAS_MONT@[230]) * ZETAS_MONT@[153]) % (Q as int) == 2365951);
    } else if k == 154 {
        assert(((Q - ZETAS_MONT@[229]) * ZETAS_MONT@[154]) % (Q as int) == 2365951);
    } else if k == 155 {
        assert(((Q - ZETAS_MONT@[228]) * ZETAS_MONT@[155]) % (Q as int) == 2365951);
    } else if k == 156 {
        assert(((Q - ZETAS_MONT@[227]) * ZETAS_MONT@[156]) % (Q as int) == 2365951);
    } else if k == 157 {
        assert(((Q - ZETAS_MONT@[226]) * ZETAS_MONT@[157]) % (Q as int) == 2365951);
    } else if k == 158 {
        assert(((Q - ZETAS_MONT@[225]) * ZETAS_MONT@[158]) % (Q as int) == 2365951);
    } else if k == 159 {
        assert(((Q - ZETAS_MONT@[224]) * ZETAS_MONT@[159]) % (Q as int) == 2365951);
    } else if k == 160 {
        assert(((Q - ZETAS_MONT@[223]) * ZETAS_MONT@[160]) % (Q as int) == 2365951);
    } else if k == 161 {
        assert(((Q - ZETAS_MONT@[222]) * ZETAS_MONT@[161]) % (Q as int) == 2365951);
    } else if k == 162 {
        assert(((Q - ZETAS_MONT@[221]) * ZETAS_MONT@[162]) % (Q as int) == 2365951);
    } else if k == 163 {
        assert(((Q - ZETAS_MONT@[220]) * ZETAS_MONT@[163]) % (Q as int) == 2365951);
    } else if k == 164 {
        assert(((Q - ZETAS_MONT@[219]) * ZETAS_MONT@[164]) % (Q as int) == 2365951);
    } else if k == 165 {
        assert(((Q - ZETAS_MONT@[218]) * ZETAS_MONT@[165]) % (Q as int) == 2365951);
    } else if k == 166 {
        assert(((Q - ZETAS_MONT@[217]) * ZETAS_MONT@[166]) % (Q as int) == 2365951);
    } else if k == 167 {
        assert(((Q - ZETAS_MONT@[216]) * ZETAS_MONT@[167]) % (Q as int) == 2365951);
    } else if k == 168 {
        assert(((Q - ZETAS_MONT@[215]) * ZETAS_MONT@[168]) % (Q as int) == 2365951);
    } else if k == 169 {
        assert(((Q - ZETAS_MONT@[214]) * ZETAS_MONT@[169]) % (Q as int) == 2365951);
    } else if k == 170 {
        assert(((Q - ZETAS_MONT@[213]) * ZETAS_MONT@[170]) % (Q as int) == 2365951);
    } else if k == 171 {
        assert(((Q - ZETAS_MONT@[212]) * ZETAS_MONT@[171]) % (Q as int) == 2365951);
    } else if k == 172 {
        assert(((Q - ZETAS_MONT@[211]) * ZETAS_MONT@[172]) % (Q as int) == 2365951);
    } else if k == 173 {
        assert(((Q - ZETAS_MONT@[210]) * ZETAS_MONT@[173]) % (Q as int) == 2365951);
    } else if k == 174 {
        assert(((Q - ZETAS_MONT@[209]) * ZETAS_MONT@[174]) % (Q as int) == 2365951);
    } else if k == 175 {
        assert(((Q - ZETAS_MONT@[208]) * ZETAS_MONT@[175]) % (Q as int) == 2365951);
    } else if k == 176 {
        assert(((Q - ZETAS_MONT@[207]) * ZETAS_MONT@[176]) % (Q as int) == 2365951);
    } else if k == 177 {
        assert(((Q - ZETAS_MONT@[206]) * ZETAS_MONT@[177]) % (Q as int) == 2365951);
    } else if k == 178 {
        assert(((Q - ZETAS_MONT@[205]) * ZETAS_MONT@[178]) % (Q as int) == 2365951);
    } else if k == 179 {
        assert(((Q - ZETAS_MONT@[204]) * ZETAS_MONT@[179]) % (Q as int) == 2365951);
    } else if k == 180 {
        assert(((Q - ZETAS_MONT@[203]) * ZETAS_MONT@[180]) % (Q as int) == 2365951);
    } else if k == 181 {
        assert(((Q - ZETAS_MONT@[202]) * ZETAS_MONT@[181]) % (Q as int) == 2365951);
    } else if k == 182 {
        assert(((Q - ZETAS_MONT@[201]) * ZETAS_MONT@[182]) % (Q as int) == 2365951);
    } else if k == 183 {
        assert(((Q - ZETAS_MONT@[200]) * ZETAS_MONT@[183]) % (Q as int) == 2365951);
    } else if k == 184 {
        assert(((Q - ZETAS_MONT@[199]) * ZETAS_MONT@[184]) % (Q as int) == 2365951);
    } else if k == 185 {
        assert(((Q - ZETAS_MONT@[198]) * ZETAS_MONT@[185]) % (Q as int) == 2365951);
    } else if k == 186 {
        assert(((Q - ZETAS_MONT@[197]) * ZETAS_MONT@[186]) % (Q as int) == 2365951);
    } else if k == 187 {
        assert(((Q - ZETAS_MONT@[196]) * ZETAS_MONT@[187]) % (Q as int) == 2365951);
    } else if k == 188 {
        assert(((Q - ZETAS_MONT@[195]) * ZETAS_MONT@[188]) % (Q as int) == 2365951);
    } else if k == 189 {
        assert(((Q - ZETAS_MONT@[194]) * ZETAS_MONT@[189]) % (Q as int) == 2365951);
    } else if k == 190 {
        assert(((Q - ZETAS_MONT@[193]) * ZETAS_MONT@[190]) % (Q as int) == 2365951);
    } else if k == 191 {
        assert(((Q - ZETAS_MONT@[192]) * ZETAS_MONT@[191]) % (Q as int) == 2365951);
    } else if k == 192 {
        assert(((Q - ZETAS_MONT@[191]) * ZETAS_MONT@[192]) % (Q as int) == 2365951);
    } else if k == 193 {
        assert(((Q - ZETAS_MONT@[190]) * ZETAS_MONT@[193]) % (Q as int) == 2365951);
    } else if k == 194 {
        assert(((Q - ZETAS_MONT@[189]) * ZETAS_MONT@[194]) % (Q as int) == 2365951);
    } else if k == 195 {
        assert(((Q - ZETAS_MONT@[188]) * ZETAS_MONT@[195]) % (Q as int) == 2365951);
    } else if k == 196 {
        assert(((Q - ZETAS_MONT@[187]) * ZETAS_MONT@[196]) % (Q as int) == 2365951);
    } else if k == 197 {
        assert(((Q - ZETAS_MONT@[186]) * ZETAS_MONT@[197]) % (Q as int) == 2365951);
    } else if k == 198 {
        assert(((Q - ZETAS_MONT@[185]) * ZETAS_MONT@[198]) % (Q as int) == 2365951);
    } else if k == 199 {
        assert(((Q - ZETAS_MONT@[184]) * ZETAS_MONT@[199]) % (Q as int) == 2365951);
    } else if k == 200 {
        assert(((Q - ZETAS_MONT@[183]) * ZETAS_MONT@[200]) % (Q as int) == 2365951);
    } else if k == 201 {
        assert(((Q - ZETAS_MONT@[182]) * ZETAS_MONT@[201]) % (Q as int) == 2365951);
    } else if k == 202 {
        assert(((Q - ZETAS_MONT@[181]) * ZETAS_MONT@[202]) % (Q as int) == 2365951);
    } else if k == 203 {
        assert(((Q - ZETAS_MONT@[180]) * ZETAS_MONT@[203]) % (Q as int) == 2365951);
    } else if k == 204 {
        assert(((Q - ZETAS_MONT@[179]) * ZETAS_MONT@[204]) % (Q as int) == 2365951);
    } else if k == 205 {
        assert(((Q - ZETAS_MONT@[178]) * ZETAS_MONT@[205]) % (Q as int) == 2365951);
    } else if k == 206 {
        assert(((Q - ZETAS_MONT@[177]) * ZETAS_MONT@[206]) % (Q as int) == 2365951);
    } else if k == 207 {
        assert(((Q - ZETAS_MONT@[176]) * ZETAS_MONT@[207]) % (Q as int) == 2365951);
    } else if k == 208 {
        assert(((Q - ZETAS_MONT@[175]) * ZETAS_MONT@[208]) % (Q as int) == 2365951);
    } else if k == 209 {
        assert(((Q - ZETAS_MONT@[174]) * ZETAS_MONT@[209]) % (Q as int) == 2365951);
    } else if k == 210 {
        assert(((Q - ZETAS_MONT@[173]) * ZETAS_MONT@[210]) % (Q as int) == 2365951);
    } else if k == 211 {
        assert(((Q - ZETAS_MONT@[172]) * ZETAS_MONT@[211]) % (Q as int) == 2365951);
    } else if k == 212 {
        assert(((Q - ZETAS_MONT@[171]) * ZETAS_MONT@[212]) % (Q as int) == 2365951);
    } else if k == 213 {
        assert(((Q - ZETAS_MONT@[170]) * ZETAS_MONT@[213]) % (Q as int) == 2365951);
    } else if k == 214 {
        assert(((Q - ZETAS_MONT@[169]) * ZETAS_MONT@[214]) % (Q as int) == 2365951);
    } else if k == 215 {
        assert(((Q - ZETAS_MONT@[168]) * ZETAS_MONT@[215]) % (Q as int) == 2365951);
    } else if k == 216 {
        assert(((Q - ZETAS_MONT@[167]) * ZETAS_MONT@[216]) % (Q as int) == 2365951);
    } else if k == 217 {
        assert(((Q - ZETAS_MONT@[166]) * ZETAS_MONT@[217]) % (Q as int) == 2365951);
    } else if k == 218 {
        assert(((Q - ZETAS_MONT@[165]) * ZETAS_MONT@[218]) % (Q as int) == 2365951);
    } else if k == 219 {
        assert(((Q - ZETAS_MONT@[164]) * ZETAS_MONT@[219]) % (Q as int) == 2365951);
    } else if k == 220 {
        assert(((Q - ZETAS_MONT@[163]) * ZETAS_MONT@[220]) % (Q as int) == 2365951);
    } else if k == 221 {
        assert(((Q - ZETAS_MONT@[162]) * ZETAS_MONT@[221]) % (Q as int) == 2365951);
    } else if k == 222 {
        assert(((Q - ZETAS_MONT@[161]) * ZETAS_MONT@[222]) % (Q as int) == 2365951);
    } else if k == 223 {
        assert(((Q - ZETAS_MONT@[160]) * ZETAS_MONT@[223]) % (Q as int) == 2365951);
    } else if k == 224 {
        assert(((Q - ZETAS_MONT@[159]) * ZETAS_MONT@[224]) % (Q as int) == 2365951);
    } else if k == 225 {
        assert(((Q - ZETAS_MONT@[158]) * ZETAS_MONT@[225]) % (Q as int) == 2365951);
    } else if k == 226 {
        assert(((Q - ZETAS_MONT@[157]) * ZETAS_MONT@[226]) % (Q as int) == 2365951);
    } else if k == 227 {
        assert(((Q - ZETAS_MONT@[156]) * ZETAS_MONT@[227]) % (Q as int) == 2365951);
    } else if k == 228 {
        assert(((Q - ZETAS_MONT@[155]) * ZETAS_MONT@[228]) % (Q as int) == 2365951);
    } else if k == 229 {
        assert(((Q - ZETAS_MONT@[154]) * ZETAS_MONT@[229]) % (Q as int) == 2365951);
    } else if k == 230 {
        assert(((Q - ZETAS_MONT@[153]) * ZETAS_MONT@[230]) % (Q as int) == 2365951);
    } else if k == 231 {
        assert(((Q - ZETAS_MONT@[152]) * ZETAS_MONT@[231]) % (Q as int) == 2365951);
    } else if k == 232 {
        assert(((Q - ZETAS_MONT@[151]) * ZETAS_MONT@[232]) % (Q as int) == 2365951);
    } else if k == 233 {
        assert(((Q - ZETAS_MONT@[150]) * ZETAS_MONT@[233]) % (Q as int) == 2365951);
    } else if k == 234 {
        assert(((Q - ZETAS_MONT@[149]) * ZETAS_MONT@[234]) % (Q as int) == 2365951);
    } else if k == 235 {
        assert(((Q - ZETAS_MONT@[148]) * ZETAS_MONT@[235]) % (Q as int) == 2365951);
    } else if k == 236 {
        assert(((Q - ZETAS_MONT@[147]) * ZETAS_MONT@[236]) % (Q as int) == 2365951);
    } else if k == 237 {
        assert(((Q - ZETAS_MONT@[146]) * ZETAS_MONT@[237]) % (Q as int) == 2365951);
    } else if k == 238 {
        assert(((Q - ZETAS_MONT@[145]) * ZETAS_MONT@[238]) % (Q as int) == 2365951);
    } else if k == 239 {
        assert(((Q - ZETAS_MONT@[144]) * ZETAS_MONT@[239]) % (Q as int) == 2365951);
    } else if k == 240 {
        assert(((Q - ZETAS_MONT@[143]) * ZETAS_MONT@[240]) % (Q as int) == 2365951);
    } else if k == 241 {
        assert(((Q - ZETAS_MONT@[142]) * ZETAS_MONT@[241]) % (Q as int) == 2365951);
    } else if k == 242 {
        assert(((Q - ZETAS_MONT@[141]) * ZETAS_MONT@[242]) % (Q as int) == 2365951);
    } else if k == 243 {
        assert(((Q - ZETAS_MONT@[140]) * ZETAS_MONT@[243]) % (Q as int) == 2365951);
    } else if k == 244 {
        assert(((Q - ZETAS_MONT@[139]) * ZETAS_MONT@[244]) % (Q as int) == 2365951);
    } else if k == 245 {
        assert(((Q - ZETAS_MONT@[138]) * ZETAS_MONT@[245]) % (Q as int) == 2365951);
    } else if k == 246 {
        assert(((Q - ZETAS_MONT@[137]) * ZETAS_MONT@[246]) % (Q as int) == 2365951);
    } else if k == 247 {
        assert(((Q - ZETAS_MONT@[136]) * ZETAS_MONT@[247]) % (Q as int) == 2365951);
    } else if k == 248 {
        assert(((Q - ZETAS_MONT@[135]) * ZETAS_MONT@[248]) % (Q as int) == 2365951);
    } else if k == 249 {
        assert(((Q - ZETAS_MONT@[134]) * ZETAS_MONT@[249]) % (Q as int) == 2365951);
    } else if k == 250 {
        assert(((Q - ZETAS_MONT@[133]) * ZETAS_MONT@[250]) % (Q as int) == 2365951);
    } else if k == 251 {
        assert(((Q - ZETAS_MONT@[132]) * ZETAS_MONT@[251]) % (Q as int) == 2365951);
    } else if k == 252 {
        assert(((Q - ZETAS_MONT@[131]) * ZETAS_MONT@[252]) % (Q as int) == 2365951);
    } else if k == 253 {
        assert(((Q - ZETAS_MONT@[130]) * ZETAS_MONT@[253]) % (Q as int) == 2365951);
    } else if k == 254 {
        assert(((Q - ZETAS_MONT@[129]) * ZETAS_MONT@[254]) % (Q as int) == 2365951);
    } else if k == 255 {
        assert(((Q - ZETAS_MONT@[128]) * ZETAS_MONT@[255]) % (Q as int) == 2365951);
    }
}


/// `(c * a_j) mod q` for every coefficient.
pub open spec fn scale_mod(c: int, a: Seq<int>, q: int) -> Seq<int> {
    Seq::new(a.len(), |j: int| (c * a[j]) % q)
}

/// A butterfly followed by its inverse on the upper output: `2 x`.
pub(crate) proof fn lemma_upper(x: int, m: int, q: int)
    requires
        q > 0,
    ensures
        ((x + m) % q + (x - m) % q) % q == (2 * x) % q,
{
    lemma_add_mod_noop(x + m, x - m, q);
}

/// A butterfly followed by its inverse on the lower output: `2 y`, when
/// the two twiddles multiply to `-1` (`(q - zr) zc = R^2` in Montgomery
/// form).
proof fn lemma_lower(x: int, y: int, zc: int, zr: int)
    requires
        ((Q - zr) * zc) % (Q as int) == 2365951,
    ensures
        mont_mul_spec(
            (0 - zr) % (Q as int),
            ((x + mont_mul_spec(zc, y, Q as int)) % (Q as int) - (x - mont_mul_spec(zc, y, Q as int)) % (
            Q as int)) % (Q as int),
            Q as int,
        ) == (2 * y) % (Q as int),
{
    let q = Q as int;
    let ri = r_inv(q);
    assert(ri == 8265825);
    let m = (zc * y * ri) % q;
    assert(mont_mul_spec(zc, y, q) == m);
    let d = ((x + m) % q - (x - m) % q) % q;
    lemma_sub_mod_noop(x + m, x - m, q);
    assert(d == (2 * m) % q);
    let zg = (0 - zr) % q;
    lemma_mul_mod_noop_left(zg * d, ri, q);
    lemma_mul_mod_noop(0 - zr, 2 * m, q);
    assert((zg * d) % q == ((0 - zr) * (2 * m)) % q);
    lemma_mul_mod_noop_left((0 - zr) * (2 * m), ri, q);
    assert((zg * d * ri) % q == ((0 - zr) * (2 * m) * ri) % q);
    let a = (0 - zr) * 2 * ri;
    assert((0 - zr) * (2 * m) * ri == a * m) by (nonlinear_arith)
        requires
            a == (0 - zr) * 2 * ri,
    ;
    lemma_mul_mod_noop_right(a, zc * y * ri, q);
    assert((a * m) % q == (a * (zc * y * ri)) % q);
    let t = (q - zr) * zc;
    let k = 2 * y * ri * ri;
    assert(a * (zc * y * ri) == k * (0 - zr * zc)) by (nonlinear_arith)
        requires
            a == (0 - zr) * 2 * ri,
            k == 2 * y * ri * ri,
    ;
    assert(0 - zr * zc == t - q * zc) by (nonlinear_arith)
        requires
            t == (q - zr) * zc,
    ;
    assert(k * (t - q * zc) == k * t + q * (0 - k * zc)) by (nonlinear_arith);
    lemma_mod_multiples_vanish(0 - k * zc, k * t, q);
    assert((a * (zc * y * ri)) % q == (k * t) % q);
    lemma_mul_mod_noop_right(k, t, q);
    assert((k * t) % q == (k * 2365951) % q);
    assert(k * 2365951 == (2 * y) * (ri * ri * 2365951)) by (nonlinear_arith)
        requires
            k == 2 * y * ri * ri,
    ;
    assert((ri * ri * 2365951) % q == 1);
    lemma_mul_mod_noop_right(2 * y, ri * ri * 2365951, q);
    assert(((2 * y) * (ri * ri * 2365951)) % q == (2 * y) % q);
}

/// The twiddles of the two transforms at half-length `len`, block `b`,
/// are a mirrored pair.
pub(crate) proof fn lemma_pair_index(len: int, b: int)
    requires
        layer_len(len),
        0 <= b,
        2 * len * b < 256,
    ensures
        1 <= 128int / len + b < 256,
        twiddle_mirror(128int / len + b) == 256int / len - 1 - b,
{
    lemma_layer_counts(len, b);
    let bb = 128int / len;
    assert(256int / len == 2 * bb) by {
        lemma_fundamental_div_mod(128, len);
        lemma_fundamental_div_mod_converse(256, len, 2 * bb, 0);
    }
    assert(b < bb) by {
        lemma_fundamental_div_mod(128, len);
        assert(len * b < len * bb) by (nonlinear_arith)
            requires
                2 * len * b < 256,
                128 == len * bb,
        ;
        if b >= bb {
            assert(len * b >= len * bb) by (nonlinear_arith)
                requires
                    b >= bb,
                    len > 0,
            ;
        }
    }
    if len == 1 {
        assert(bb == 128) by {
            lemma_fundamental_div_mod_converse(128, 1, 128, 0);
        }
    } else if len == 2 {
        assert(bb == 64) by {
            lemma_fundamental_div_mod_converse(128, 2, 64, 0);
        }
    } else if len == 4 {
        assert(bb == 32) by {
            lemma_fundamental_div_mod_converse(128, 4, 32, 0);
        }
    } else if len == 8 {
        assert(bb == 16) by {
            lemma_fundamental_div_mod_converse(128, 8, 16, 0);
        }
    } else if len == 16 {
        assert(bb == 8) by {
            lemma_fundamental_div_mod_converse(128, 16, 8, 0);
        }
    } else if len == 32 {
        assert(bb == 4) by {
            lemma_fundamental_div_mod_converse(128, 32, 4, 0);
        }
    } else if len == 64 {
        assert(bb == 2) by {
            lemma_fundamental_div_mod_converse(128, 64, 2, 0);
        }
    } else {
        assert(bb == 1) by {
            lemma_fundamental_div_mod_converse(128, 128, 1, 0);
        }
    }
}

/// The Gentleman-Sande layer undoes the Cooley-Tukey layer of the same
/// half-length, up to a factor 2.
proof fn lemma_layer_inverse(a: Seq<int>, len: int)
    requires
        layer_len(len),
        a.len() == 256,
    ensures
        gs_layer(ct_layer(a, len), len) == scale_mod(2, a, Q as int),
{
    let c = ct_layer(a, len);
    let g = gs_layer(c, len);
    assert forall|j: int| 0 <= j < 256 implies #[trigger] g[j] == scale_mod(2, a, Q as int)[j] by {
        let b = j / (2 * len);
        lemma_fundamental_div_mod(j, 2 * len);
        assert(0 <= b) by {
            vstd::arithmetic::div_mod::lemma_div_pos_is_pos(j, 2 * len);
        }
        assert(2 * len * b <= j < 2 * len * b + 2 * len) by (nonlinear_arith)
            requires
                j == (2 * len) * b + j % (2 * len),
                0 <= j % (2 * len) < 2 * len,
        ;
        lemma_layer_counts(len, b);
        lemma_pair_index(len, b);
        let k = 128int / len + b;
        let z = ZETAS_MONT@[k] as int;
        lemma_twiddle_pair(k);
        if j % (2 * len) < len {
            lemma_block(j + len, len, b);
            lemma_upper(a[j], mont_mul_spec(z, a[j + len], Q as int), Q as int);
        } else {
            lemma_block(j - len, len, b);
            lemma_lower(a[j - len], a[j], z, ZETAS_MONT@[256int / len - 1 - b] as int);
        }
    }
    assert(g =~= scale_mod(2, a, Q as int));
}

/// The inverse butterfly's lower output is linear.
pub(crate) proof fn lemma_lin_lower(c: int, zg: int, x: int, y: int, q: int)
    requires
        q > 0,
    ensures
        mont_mul_spec(zg, ((c * x) % q - (c * y) % q) % q, q) == (c * mont_mul_spec(zg, (x - y) % q, q)) % q,
{
    let ri = r_inv(q);
    lemma_sub_mod_noop(c * x, c * y, q);
    assert(c * x - c * y == c * (x - y)) by (nonlinear_arith);
    let d1 = ((c * x) % q - (c * y) % q) % q;
    assert(d1 == (c * (x - y)) % q);
    // left: (zg * d1 * ri) % q == (zg * (c * (x - y)) * ri) % q
    lemma_mul_mod_noop_right(zg, c * (x - y), q);
    lemma_mul_mod_noop_left(zg * d1, ri, q);
    lemma_mul_mod_noop_left(zg * (c * (x - y)), ri, q);
    assert((zg * d1 * ri) % q == (zg * (c * (x - y)) * ri) % q);
    // right: (c * ((zg * ((x - y) % q) * ri) % q)) % q == (c * (zg * (x - y) * ri)) % q
    let w = (x - y) % q;
    lemma_mul_mod_noop_right(c, zg * w * ri, q);
    assert(zg * w * ri == (zg * ri) * w) by (nonlinear_arith);
    lemma_mul_mod_noop_right(zg * ri, x - y, q);
    assert(zg * (x - y) * ri == (zg * ri) * (x - y)) by (nonlinear_arith);
    lemma_mul_mod_noop_right(c, zg * (x - y) * ri, q);
    assert((c * ((zg * w * ri) % q)) % q == (c * (zg * (x - y) * ri)) % q);
    assert(zg * (c * (x - y)) * ri == c * (zg * (x - y) * ri)) by (nonlinear_arith);
}

/// Gentleman-Sande layers commute with scaling.
proof fn lemma_gs_layer_linear(c: int, a: Seq<int>, len: int)
    requires
        layer_len(len),
        a.len() == 256,
    ensures
        gs_layer(scale_mod(c, a, Q as int), len) == scale_mod(c, gs_layer(a, len), Q as int),
{
    let q = Q as int;
    let sa = scale_mod(c, a, Q as int);
    let lhs = gs_layer(sa, len);
    let rhs = scale_mod(c, gs_layer(a, len), Q as int);
    assert forall|j: int| 0 <= j < 256 implies #[trigger] lhs[j] == rhs[j] by {
        let b = j / (2 * len);
        lemma_fundamental_div_mod(j, 2 * len);
        assert(0 <= b) by {
            vstd::arithmetic::div_mod::lemma_div_pos_is_pos(j, 2 * len);
        }
        assert(2 * len * b <= j < 2 * len * b + 2 * len) by (nonlinear_arith)
            requires
                j == (2 * len) * b + j % (2 * len),
                0 <= j % (2 * len) < 2 * len,
        ;
        lemma_layer_counts(len, b);
        if j % (2 * len) < len {
            let s = a[j] + a[j + len];
            lemma_add_mod_noop(c * a[j], c * a[j + len], q);
            assert(c * a[j] + c * a[j + len] == c * s) by (nonlinear_arith)
                requires
                    s == a[j] + a[j + len],
            ;
            lemma_mul_mod_noop_right(c, s, q);
        } else {
            let zg = (0 - ZETAS_MONT@[256int / len - 1 - j / (2 * len)]) % q;
            lemma_lin_lower(c, zg, a[j - len], a[j], Q as int);
        }
    }
    assert(lhs =~= rhs);
}

/// Scaling twice scales by the product.
pub(crate) proof fn lemma_scale_compose(c1: int, c2: int, a: Seq<int>, q: int)
    requires
        q > 0,
    ensures
        scale_mod(c1, scale_mod(c2, a, q), q) == scale_mod(c1 * c2, a, q),
{
    assert forall|j: int| 0 <= j < a.len() implies #[trigger] scale_mod(c1, scale_mod(c2, a, q), q)[j]
        == scale_mod(c1 * c2, a, q)[j] by {
        lemma_mul_mod_noop_right(c1, c2 * a[j], q);
        assert(c1 * (c2 * a[j]) == (c1 * c2) * a[j]) by (nonlinear_arith);
    }
    assert(scale_mod(c1, scale_mod(c2, a, q), q) =~= scale_mod(c1 * c2, a, q));
}

/// The Gentleman-Sande layers with half-lengths `1, 2, ..., hi`, in
/// that order.
pub open spec fn gs_upto(y: Seq<int>, hi: nat) -> Seq<int>
    decreases hi,
{
    if hi == 0 {
        y
    } else {
        gs_layer(gs_upto(y, hi / 2), hi as int)
    }
}

/// Cooley-Tukey layers `len, ..., 1` followed by Gentleman-Sande layers
/// `1, ..., len` scale by `2 len`.
proof fn lemma_layers_inverse(a: Seq<int>, len: nat)
    requires
        layer_len(len as int),
        a.len() == 256,
    ensures
        gs_upto(ct_layers(a, len), len) == scale_mod(2 * len as int, a, Q as int),
        ct_layers(a, len).len() == 256,
    decreases len,
{
    if len == 1 {
        reveal_with_fuel(ct_layers, 2);
        reveal_with_fuel(gs_upto, 2);
        assert(ct_layers(a, 1) == ct_layers(ct_layer(a, 1), 0));
        assert(ct_layers(a, 1) == ct_layer(a, 1));
        assert(gs_upto(ct_layer(a, 1), 1) == gs_layer(gs_upto(ct_layer(a, 1), 0), 1));
        assert(gs_upto(ct_layer(a, 1), 1) == gs_layer(ct_layer(a, 1), 1));
        lemma_layer_inverse(a, 1);
    } else {
        let half = len / 2;
        assert(layer_len(half as int));
        let c = ct_layer(a, len as int);
        assert(ct_layers(a, len) == ct_layers(c, half));
        lemma_layers_inverse(c, half);
        assert(gs_upto(ct_layers(c, half), half) == scale_mod(2 * half as int, c, Q as int));
        assert(gs_upto(ct_layers(a, len), len) == gs_layer(scale_mod(2 * half as int, c, Q as int), len as int));
        lemma_gs_layer_linear(2 * half as int, c, len as int);
        lemma_layer_inverse(a, len as int);
        lemma_scale_compose(2 * half as int, 2, a, Q as int);
        assert(2 * half * 2 == 2 * len);
    }
}

/// Applying the remaining Gentleman-Sande layers from `l` on to the
/// result of the ones below `l` is applying all of them.
proof fn lemma_gs_layers_upto(y: Seq<int>, l: nat)
    requires
        l == 1 || l == 2 || l == 4 || l == 8 || l == 16 || l == 32 || l == 64 || l == 128 || l == 256,
    ensures
        gs_layers(gs_upto(y, l / 2), l) == gs_upto(y, 128),
    decreases 256 - l,
{
    if l < 256 {
        assert(gs_layers(gs_upto(y, l / 2), l) == gs_layers(gs_layer(gs_upto(y, l / 2), l as int), 2 * l));
        assert(gs_upto(y, l) == gs_layer(gs_upto(y, l / 2), l as int));
        lemma_gs_layers_upto(y, 2 * l);
        assert((2 * l) / 2 == l);
    } else {
        assert(l / 2 == 128);
    }
}

/// The inverse NTT undoes the forward NTT: for canonical coefficients
/// `a`, `inv_ntt(ntt(a)) == a`.
pub proof fn lemma_ntt_roundtrip(a: Seq<u32>)
    requires
        a.len() == 256,
        forall|i: int| 0 <= i < 256 ==> #[trigger] a[i] < Q,
    ensures
        inv_ntt_spec(ntt_spec(a)) == as_ints(a),
{
    let q = Q as int;
    let m = mont_seq(a);
    let x = ntt_spec(a);
    lemma_layers_inverse(m, 128);
    lemma_gs_layers_upto(x, 1);
    assert(gs_upto(x, 0) == x);
    let g = gs_layers(x, 1);
    assert(g == scale_mod(256, m, Q as int));
    let ri = r_inv(q);
    assert forall|i: int| 0 <= i < 256 implies #[trigger] inv_ntt_spec(x)[i] == as_ints(a)[i] by {
        let ai = a[i] as int;
        // g[i] == (256 * ((ai * R) % q)) % q
        assert(g[i] == (256 * ((ai * mont_r()) % q)) % q);
        lemma_mul_mod_noop_right(256, ai * mont_r(), q);
        // (N_INV * g[i] * ri) % q
        lemma_mul_mod_noop_right(N_INV as int, 256 * (ai * mont_r()), q);
        lemma_mul_mod_noop_left((N_INV as int) * g[i], ri, q);
        lemma_mul_mod_noop_left((N_INV as int) * (256 * (ai * mont_r())), ri, q);
        assert((N_INV as int) * (256 * (ai * mont_r())) * ri == ai * ((N_INV as int) * 256 * (mont_r() * ri))) by (nonlinear_arith);
        assert(((N_INV as int) * 256 * (mont_r() * ri)) % q == 1);
        lemma_mul_mod_noop_right(ai, (N_INV as int) * 256 * (mont_r() * ri), q);
        lemma_small_mod(ai as nat, q as nat);
    }
    assert(inv_ntt_spec(x) =~= as_ints(a));
}


/// Two Montgomery products with a mirrored twiddle pair cancel:
/// `zc ((-zr) d) = d` in the field when `(-zr) zc = R^2`.
proof fn lemma_mirror_product(zc: int, zr: int, d: int)
    requires
        ((Q - zr) * zc) % (Q as int) == 2365951,
    ensures
        mont_mul_spec(zc, mont_mul_spec((0 - zr) % (Q as int), d, Q as int), Q as int) == d % (Q as int),
{
    let q = Q as int;
    let ri = r_inv(q);
    assert(ri == 8265825);
    let zg = (0 - zr) % q;
    let m = (zg * d * ri) % q;
    lemma_mul_mod_noop_right(zc, zg * d * ri, q);
    lemma_mul_mod_noop_left(zc * m, ri, q);
    lemma_mul_mod_noop_left(zc * (zg * d * ri), ri, q);
    assert(zc * (zg * d * ri) * ri == (zg * zc) * (d * ri * ri)) by (nonlinear_arith);
    lemma_mul_mod_noop_left(zg * zc, d * ri * ri, q);
    // zg == q - zr (mod q)
    lemma_mod_add_multiples_vanish(0 - zr, q);
    lemma_mul_mod_noop_left(0 - zr, zc, q);
    lemma_mul_mod_noop_left(q - zr, zc, q);
    assert((zg * zc) % q == 2365951);
    assert(2365951 * (d * ri * ri) == d * (2365951 * ri * ri)) by (nonlinear_arith);
    assert((2365951 * ri * ri) % q == 1);
    lemma_mul_mod_noop_right(d, 2365951 * ri * ri, q);
}

/// The Cooley-Tukey layer undoes the Gentleman-Sande layer of the same
/// half-length, up to a factor 2.
proof fn lemma_layer_inverse_rev(a: Seq<int>, len: int)
    requires
        layer_len(len),
        a.len() == 256,
    ensures
        ct_layer(gs_layer(a, len), len) == scale_mod(2, a, Q as int),
{
    let q = Q as int;
    let g = gs_layer(a, len);
    let c = ct_layer(g, len);
    assert forall|j: int| 0 <= j < 256 implies #[trigger] c[j] == scale_mod(2, a, q)[j] by {
        let b = j / (2 * len);
        lemma_fundamental_div_mod(j, 2 * len);
        assert(0 <= b) by {
            vstd::arithmetic::div_mod::lemma_div_pos_is_pos(j, 2 * len);
        }
        assert(2 * len * b <= j < 2 * len * b + 2 * len) by (nonlinear_arith)
            requires
                j == (2 * len) * b + j % (2 * len),
                0 <= j % (2 * len) < 2 * len,
        ;
        lemma_layer_counts(len, b);
        lemma_pair_index(len, b);
        let k = 128int / len + b;
        let zc = ZETAS_MONT@[k] as int;
        let zr = ZETAS_MONT@[256int / len - 1 - b] as int;
        lemma_twiddle_pair(k);
        if j % (2 * len) < len {
            lemma_block(j + len, len, b);
            let d = (a[j] - a[j + len]) % q;
            lemma_mirror_product(zc, zr, d);
            lemma_mod_twice(a[j] - a[j + len], q);
            lemma_add_mod_noop(a[j] + a[j + len], a[j] - a[j + len], q);
        } else {
            lemma_block(j - len, len, b);
            let d = (a[j - len] - a[j]) % q;
            lemma_mirror_product(zc, zr, d);
            lemma_mod_twice(a[j - len] - a[j], q);
            lemma_sub_mod_noop(a[j - len] + a[j], a[j - len] - a[j], q);
        }
    }
    assert(c =~= scale_mod(2, a, q));
}

/// A Montgomery product commutes with scaling its second operand.
proof fn lemma_mont_scale(z: int, c: int, y: int)
    ensures
        mont_mul_spec(z, (c * y) % (Q as int), Q as int) == (c * mont_mul_spec(z, y, Q as int)) % (
        Q as int),
{
    let q = Q as int;
    let ri = r_inv(q);
    lemma_mul_mod_noop_right(z, c * y, q);
    lemma_mul_mod_noop_left(z * ((c * y) % q), ri, q);
    lemma_mul_mod_noop_left(z * (c * y), ri, q);
    lemma_mul_mod_noop_right(c, z * y * ri, q);
    assert(z * (c * y) * ri == c * (z * y * ri)) by (nonlinear_arith);
}

/// Cooley-Tukey layers commute with scaling.
proof fn lemma_ct_layer_linear(c: int, a: Seq<int>, len: int)
    requires
        layer_len(len),
        a.len() == 256,
    ensures
        ct_layer(scale_mod(c, a, Q as int), len) == scale_mod(c, ct_layer(a, len), Q as int),
{
    let q = Q as int;
    let sa = scale_mod(c, a, q);
    let lhs = ct_layer(sa, len);
    let rhs = scale_mod(c, ct_layer(a, len), q);
    assert forall|j: int| 0 <= j < 256 implies #[trigger] lhs[j] == rhs[j] by {
        let b = j / (2 * len);
        lemma_fundamental_div_mod(j, 2 * len);
        assert(0 <= b) by {
            vstd::arithmetic::div_mod::lemma_div_pos_is_pos(j, 2 * len);
        }
        assert(2 * len * b <= j < 2 * len * b + 2 * len) by (nonlinear_arith)
            requires
                j == (2 * len) * b + j % (2 * len),
                0 <= j % (2 * len) < 2 * len,
        ;
        lemma_layer_counts(len, b);
        let z = ZETAS_MONT@[128int / len + j / (2 * len)] as int;
        if j % (2 * len) < len {
            let m = mont_mul_spec(z, a[j + len], q);
            lemma_mont_scale(z, c, a[j + len]);
            lemma_add_mod_noop(c * a[j], c * m, q);
            assert(c * a[j] + c * m == c * (a[j] + m)) by (nonlinear_arith);
            lemma_mul_mod_noop_right(c, a[j] + m, q);
        } else {
            let m = mont_mul_spec(z, a[j], q);
            lemma_mont_scale(z, c, a[j]);
            lemma_sub_mod_noop(c * a[j - len], c * m, q);
            assert(c * a[j - len] - c * m == c * (a[j - len] - m)) by (nonlinear_arith);
            lemma_mul_mod_noop_right(c, a[j - len] - m, q);
        }
    }
    assert(lhs =~= rhs);
}

/// The Cooley-Tukey layers commute with scaling.
pub(crate) proof fn lemma_ct_layers_linear(c: int, a: Seq<int>, len: nat)
    requires
        layer_len(len as int),
        a.len() == 256,
    ensures
        ct_layers(scale_mod(c, a, Q as int), len) == scale_mod(c, ct_layers(a, len), Q as int),
        ct_layers(a, len).len() == 256,
    decreases len,
{
    lemma_ct_layer_linear(c, a, len as int);
    let half = len / 2;
    if half == 0 {
        assert(ct_layers(ct_layer(a, len as int), half) == ct_layer(a, len as int));
        assert(ct_layers(ct_layer(scale_mod(c, a, Q as int), len as int), half) == ct_layer(
            scale_mod(c, a, Q as int),
            len as int,
        ));
    } else {
        assert(layer_len(half as int));
        lemma_ct_layers_linear(c, ct_layer(a, len as int), half);
    }
}

/// Gentleman-Sande layers `1, ..., len` followed by Cooley-Tukey layers
/// `len, ..., 1` scale by `2 len`.
proof fn lemma_layers_inverse_rev(y: Seq<int>, len: nat)
    requires
        layer_len(len as int),
        y.len() == 256,
    ensures
        ct_layers(gs_upto(y, len), len) == scale_mod(2 * len as int, y, Q as int),
        gs_upto(y, len).len() == 256,
    decreases len,
{
    let half = len / 2;
    let w = gs_upto(y, half);
    assert(gs_upto(y, len) == gs_layer(w, len as int));
    if len == 1 {
        assert(w == y);
        lemma_layer_inverse_rev(y, 1);
        assert(ct_layers(gs_layer(y, 1), 1) == ct_layers(ct_layer(gs_layer(y, 1), 1), 0));
    } else {
        assert(layer_len(half as int));
        lemma_layers_inverse_rev(y, half);
        lemma_layer_inverse_rev(w, len as int);
        assert(ct_layers(gs_layer(w, len as int), len) == ct_layers(scale_mod(2, w, Q as int), half));
        lemma_ct_layers_linear(2, w, half);
        lemma_scale_compose(2, 2 * half as int, y, Q as int);
        assert(2 * half == len);
    }
}

/// The forward NTT undoes the inverse NTT: for canonical `x` in the
/// transform domain, `ntt(inv_ntt(x)) == x`.
pub proof fn lemma_inv_ntt_roundtrip(x: Seq<int>)
    requires
        x.len() == 256,
        forall|i: int| 0 <= i < 256 ==> 0 <= #[trigger] x[i] < Q,
    ensures
        forall|i: int| 0 <= i < 256 ==> 0 <= #[trigger] inv_ntt_spec(x)[i] < Q,
        ntt_spec(Seq::new(256, |i: int| inv_ntt_spec(x)[i] as u32)) == x,
{
    let q = Q as int;
    let ri = r_inv(q);
    lemma_gs_layers_upto(x, 1);
    assert(gs_upto(x, 0) == x);
    let g = gs_layers(x, 1);
    lemma_layers_inverse_rev(x, 128);
    assert(g == gs_upto(x, 128));
    let inv = inv_ntt_spec(x);
    assert forall|i: int| 0 <= i < 256 implies 0 <= #[trigger] inv[i] < Q by {
        lemma_mod_bound((N_INV as int) * g[i] * ri, q);
    }
    let a = Seq::new(256, |i: int| inv[i] as u32);
    let m = mont_seq(a);
    let nv = N_INV as int;
    assert forall|i: int| 0 <= i < 256 implies #[trigger] m[i] == scale_mod(nv, g, q)[i] by {
        lemma_mod_bound(nv * g[i] * ri, q);
        assert(a[i] as int == (nv * g[i] * ri) % q);
        lemma_mul_mod_noop_left(nv * g[i] * ri, mont_r(), q);
        assert(nv * g[i] * ri * mont_r() == (nv * g[i]) * (ri * mont_r())) by (nonlinear_arith);
        assert((ri * mont_r()) % q == 1);
        lemma_mul_mod_noop_right(nv * g[i], ri * mont_r(), q);
    }
    assert(m =~= scale_mod(nv, g, q));
    lemma_ct_layers_linear(nv, g, 128);
    lemma_scale_compose(nv, 256, x, q);
    assert forall|i: int| 0 <= i < 256 implies #[trigger] scale_mod(nv * 256, x, q)[i] == x[i] by {
        lemma_mul_mod_noop_left(nv * 256, x[i], q);
        assert((nv * 256) % q == 1);
        lemma_small_mod(x[i] as nat, q as nat);
    }
    assert(scale_mod(nv * 256, x, q) =~= x);
}

} // verus!

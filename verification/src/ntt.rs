//! ML-DSA Number Theoretic Transform (FIPS 204 Alg 41 & 42).
//!
//! Coefficients in the NTT domain are held in Montgomery form. The
//! contracts describe each transform layer by layer over the integers
//! (modulo `q`): [`ct_layer`] is one Cooley-Tukey layer of the forward
//! transform and [`gs_layer`] one Gentleman-Sande layer of the inverse.

use vstd::arithmetic::div_mod::*;
use vstd::arithmetic::power::pow;
use vstd::prelude::*;

use crate::field::{
    add_mod, exp_mod, lemma_r2_values, mont_mul_spec, mont_r, mul_mont, sub_mod, to_mont,
};
use crate::params::{N, Q, Q_N_PRIME, Q_R2_MOD_Q, ZETA};
use crate::poly::{poly_canonical, Poly};

verus! {

/// `ZETAS[i] = ZETA^bitrev8(i) mod Q`.
pub const ZETAS: [u32; 256] = [
    1, 4808194, 3765607, 3761513, 5178923, 5496691, 5234739, 5178987,
    7778734, 3542485, 2682288, 2129892, 3764867, 7375178, 557458, 7159240,
    5010068, 4317364, 2663378, 6705802, 4855975, 7946292, 676590, 7044481,
    5152541, 1714295, 2453983, 1460718, 7737789, 4795319, 2815639, 2283733,
    3602218, 3182878, 2740543, 4793971, 5269599, 2101410, 3704823, 1159875,
    394148, 928749, 1095468, 4874037, 2071829, 4361428, 3241972, 2156050,
    3415069, 1759347, 7562881, 4805951, 3756790, 6444618, 6663429, 4430364,
    5483103, 3192354, 556856, 3870317, 2917338, 1853806, 3345963, 1858416,
    3073009, 1277625, 5744944, 3852015, 4183372, 5157610, 5258977, 8106357,
    2508980, 2028118, 1937570, 4564692, 2811291, 5396636, 7270901, 4158088,
    1528066, 482649, 1148858, 5418153, 7814814, 169688, 2462444, 5046034,
    4213992, 4892034, 1987814, 5183169, 1736313, 235407, 5130263, 3258457,
    5801164, 1787943, 5989328, 6125690, 3482206, 4197502, 7080401, 6018354,
    7062739, 2461387, 3035980, 621164, 3901472, 7153756, 2925816, 3374250,
    1356448, 5604662, 2683270, 5601629, 4912752, 2312838, 7727142, 7921254,
    348812, 8052569, 1011223, 6026202, 4561790, 6458164, 6143691, 1744507,
    1753, 6444997, 5720892, 6924527, 2660408, 6600190, 8321269, 2772600,
    1182243, 87208, 636927, 4415111, 4423672, 6084020, 5095502, 4663471,
    8352605, 822541, 1009365, 5926272, 6400920, 1596822, 4423473, 4620952,
    6695264, 4969849, 2678278, 4611469, 4829411, 635956, 8129971, 5925040,
    4234153, 6607829, 2192938, 6653329, 2387513, 4768667, 8111961, 5199961,
    3747250, 2296099, 1239911, 4541938, 3195676, 2642980, 1254190, 8368000,
    2998219, 141835, 8291116, 2513018, 7025525, 613238, 7070156, 6161950,
    7921677, 6458423, 4040196, 4908348, 2039144, 6500539, 7561656, 6201452,
    6757063, 2105286, 6006015, 6346610, 586241, 7200804, 527981, 5637006,
    6903432, 1994046, 2491325, 6987258, 507927, 7192532, 7655613, 6545891,
    5346675, 8041997, 2647994, 3009748, 5767564, 4148469, 749577, 4357667,
    3980599, 2569011, 6764887, 1723229, 1665318, 2028038, 1163598, 5011144,
    3994671, 8368538, 7009900, 3020393, 3363542, 214880, 545376, 7609976,
    3105558, 7277073, 508145, 7826699, 860144, 3430436, 140244, 6866265,
    6195333, 3123762, 2358373, 6187330, 5365997, 6663603, 2926054, 7987710,
    8077412, 3531229, 4405932, 4606686, 1900052, 7598542, 1054478, 7648983,
];

/// `ZETAS_MONT[i] = ZETAS[i] * R mod Q`: the twiddles in Montgomery form.
pub const ZETAS_MONT: [u32; 256] = [
    4193792, 25847, 5771523, 7861508, 237124, 7602457, 7504169, 466468,
    1826347, 2353451, 8021166, 6288512, 3119733, 5495562, 3111497, 2680103,
    2725464, 1024112, 7300517, 3585928, 7830929, 7260833, 2619752, 6271868,
    6262231, 4520680, 6980856, 5102745, 1757237, 8360995, 4010497, 280005,
    2706023, 95776, 3077325, 3530437, 6718724, 4788269, 5842901, 3915439,
    4519302, 5336701, 3574422, 5512770, 3539968, 8079950, 2348700, 7841118,
    6681150, 6736599, 3505694, 4558682, 3507263, 6239768, 6779997, 3699596,
    811944, 531354, 954230, 3881043, 3900724, 5823537, 2071892, 5582638,
    4450022, 6851714, 4702672, 5339162, 6927966, 3475950, 2176455, 6795196,
    7122806, 1939314, 4296819, 7380215, 5190273, 5223087, 4747489, 126922,
    3412210, 7396998, 2147896, 2715295, 5412772, 4686924, 7969390, 5903370,
    7709315, 7151892, 8357436, 7072248, 7998430, 1349076, 1852771, 6949987,
    5037034, 264944, 508951, 3097992, 44288, 7280319, 904516, 3958618,
    4656075, 8371839, 1653064, 5130689, 2389356, 8169440, 759969, 7063561,
    189548, 4827145, 3159746, 6529015, 5971092, 8202977, 1315589, 1341330,
    1285669, 6795489, 7567685, 6940675, 5361315, 4499357, 4751448, 3839961,
    2091667, 3407706, 2316500, 3817976, 5037939, 2244091, 5933984, 4817955,
    266997, 2434439, 7144689, 3513181, 4860065, 4621053, 7183191, 5187039,
    900702, 1859098, 909542, 819034, 495491, 6767243, 8337157, 7857917,
    7725090, 5257975, 2031748, 3207046, 4823422, 7855319, 7611795, 4784579,
    342297, 286988, 5942594, 4108315, 3437287, 5038140, 1735879, 203044,
    2842341, 2691481, 5790267, 1265009, 4055324, 1247620, 2486353, 1595974,
    4613401, 1250494, 2635921, 4832145, 5386378, 1869119, 1903435, 7329447,
    7047359, 1237275, 5062207, 6950192, 7929317, 1312455, 3306115, 6417775,
    7100756, 1917081, 5834105, 7005614, 1500165, 777191, 2235880, 3406031,
    7838005, 5548557, 6709241, 6533464, 5796124, 4656147, 594136, 4603424,
    6366809, 2432395, 2454455, 8215696, 1957272, 3369112, 185531, 7173032,
    5196991, 162844, 1616392, 3014001, 810149, 1652634, 4686184, 6581310,
    5341501, 3523897, 3866901, 269760, 2213111, 7404533, 1717735, 472078,
    7953734, 1723600, 6577327, 1910376, 6712985, 7276084, 8119771, 4546524,
    5441381, 6144432, 7959518, 6094090, 183443, 7403526, 1612842, 4834730,
    7826001, 3919660, 8332111, 7018208, 3937738, 1400424, 7534263, 1976782,
];
/// `256^-1 mod Q`, the scaling of the inverse transform.
pub const N_INV: u32 = 8347681;

/// The low 8 bits of `i`, reversed.
pub open spec fn bitrev8_spec(i: u32) -> u32 {
    ((i & 1) << 7u32) | ((i & 2) << 5u32) | ((i & 4) << 3u32) | ((i & 8) << 1u32) | ((i & 16)
        >> 1u32) | ((i & 32) >> 3u32) | ((i & 64) >> 5u32) | ((i & 128) >> 7u32)
}

/// Reversing the low 8 bits twice gives back any `i < 256`.
pub proof fn lemma_bitrev8_involution(i: u32)
    requires
        i < 256,
    ensures
        bitrev8_spec(bitrev8_spec(i)) == i,
        bitrev8_spec(i) < 256,
{
    assert(bitrev8_spec(bitrev8_spec(i)) == i && bitrev8_spec(i) < 256) by (bit_vector)
        requires
            i < 256,
    ;
}

/// Bit-reverse the low 8 bits of `i`.
pub fn bitrev8(i: u32) -> (r: u32)
    ensures
        r == bitrev8_spec(i),
{
    let a = ((i & 0xF0) >> 4u32) | ((i & 0x0F) << 4u32);
    let b = ((a & 0xCC) >> 2u32) | ((a & 0x33) << 2u32);
    let c = ((b & 0xAA) >> 1u32) | ((b & 0x55) << 1u32);
    assert(c == bitrev8_spec(i)) by (bit_vector)
        requires
            a == ((i & 0xF0) >> 4u32) | ((i & 0x0F) << 4u32),
            b == ((a & 0xCC) >> 2u32) | ((a & 0x33) << 2u32),
            c == ((b & 0xAA) >> 1u32) | ((b & 0x55) << 1u32),
    ;
    c
}

/// Recompute the twiddle table from its definition: entry `i` is
/// `ZETA^bitrev8(i) mod Q` (the table [`ZETAS`] holds these values).
pub fn compute_zetas() -> (z: [u32; 256])
    ensures
        forall|i: int|
            0 <= i < 256 ==> z[i] as int == pow(ZETA as int, bitrev8_spec(i as u32) as nat) % (
            Q as int),
{
    let mut z = [0u32; 256];
    let mut i: u32 = 0;
    while i < 256
        invariant
            i <= 256,
            forall|j: int|
                0 <= j < i ==> z[j] as int == pow(ZETA as int, bitrev8_spec(j as u32) as nat) % (
                Q as int),
        decreases 256 - i,
    {
        let e = bitrev8(i);
        z[i as usize] = exp_mod(ZETA, e, Q);
        i = i + 1;
    }
    z
}

/// The coefficients as integers.
pub open spec fn as_ints(a: Seq<u32>) -> Seq<int> {
    Seq::new(a.len(), |i: int| a[i] as int)
}

/// The Montgomery representatives `x * R mod q` of the coefficients.
pub open spec fn mont_seq(a: Seq<u32>) -> Seq<int> {
    Seq::new(a.len(), |i: int| (a[i] as int * mont_r()) % (Q as int))
}

/// The half-lengths of the transform layers: `1, 2, 4, ..., 128`.
pub open spec fn layer_len(len: int) -> bool {
    len == 1 || len == 2 || len == 4 || len == 8 || len == 16 || len == 32 || len == 64 || len
        == 128
}

/// One Cooley-Tukey layer with half-length `len`: block `b` pairs `x_j`
/// with `x_{j+len}` under the twiddle `ZETAS_MONT[128/len + b]`.
pub open spec fn ct_layer(a: Seq<int>, len: int) -> Seq<int> {
    Seq::new(
        a.len(),
        |j: int|
            {
                let z = ZETAS_MONT@[128int / len + j / (2 * len)] as int;
                if j % (2 * len) < len {
                    (a[j] + mont_mul_spec(z, a[j + len], Q as int)) % (Q as int)
                } else {
                    (a[j - len] - mont_mul_spec(z, a[j], Q as int)) % (Q as int)
                }
            },
    )
}

/// The Cooley-Tukey layers with half-lengths `len, len/2, ..., 1`.
pub open spec fn ct_layers(a: Seq<int>, len: nat) -> Seq<int>
    decreases len,
{
    if len == 0 {
        a
    } else {
        ct_layers(ct_layer(a, len as int), len / 2)
    }
}

/// NTT (FIPS 204 Alg 41) on the Montgomery representatives of `a`.
pub open spec fn ntt_spec(a: Seq<u32>) -> Seq<int> {
    ct_layers(mont_seq(a), 128)
}

/// One Gentleman-Sande layer with half-length `len`: block `b` maps
/// `(x, y)` to `(x + y, z (x - y))` with `z = -ZETAS_MONT[256/len - 1 - b]`.
pub open spec fn gs_layer(a: Seq<int>, len: int) -> Seq<int> {
    Seq::new(
        a.len(),
        |j: int|
            {
                let z = (0 - ZETAS_MONT@[256int / len - 1 - j / (2 * len)]) % (Q as int);
                if j % (2 * len) < len {
                    (a[j] + a[j + len]) % (Q as int)
                } else {
                    mont_mul_spec(z, (a[j - len] - a[j]) % (Q as int), Q as int)
                }
            },
    )
}

/// The Gentleman-Sande layers with half-lengths `len, 2 len, ..., 128`.
pub open spec fn gs_layers(a: Seq<int>, len: nat) -> Seq<int>
    decreases 256 - len,
{
    if len == 0 || len > 128 {
        a
    } else {
        gs_layers(gs_layer(a, len as int), 2 * len)
    }
}

/// Inverse NTT (FIPS 204 Alg 42) on Montgomery-form input: the
/// Gentleman-Sande layers, then the Montgomery product with `256^-1`,
/// which also leaves the Montgomery domain.
pub open spec fn inv_ntt_spec(a: Seq<int>) -> Seq<int> {
    let x = gs_layers(a, 1);
    Seq::new(x.len(), |i: int| mont_mul_spec(N_INV as int, x[i], Q as int))
}

/// The twiddle table holds canonical residues.
#[verifier::rlimit(100)]
pub proof fn lemma_zetas_canonical(i: int)
    requires
        0 <= i < 256,
    ensures
        ZETAS_MONT@[i] < Q,
{
}

pub proof fn lemma_block(x: int, len: int, b: int)
    requires
        len > 0,
        b >= 0,
        2 * len * b <= x < 2 * len * b + 2 * len,
    ensures
        x / (2 * len) == b,
        x % (2 * len) == x - 2 * len * b,
{
    assert(b * (2 * len) == 2 * len * b) by (nonlinear_arith);
    lemma_fundamental_div_mod_converse(x, 2 * len, b, x - 2 * len * b);
}

pub proof fn lemma_layer_counts(len: int, b: int)
    requires
        layer_len(len),
        0 <= b,
        2 * len * b < 256,
    ensures
        128int / len + b < 256,
        128int % len == 0,
        256int % len == 0,
        128int / len > 0,
        256int / len > 0,
        len >= 2 ==> 128int / len + b < 128,
        len >= 2 ==> 256int / len - 1 - b < 128,
        256int / len - 1 - b >= 0,
        256int / len - 1 - b < 256,
        2 * len * b + 2 * len <= 256,
{
    assert(len * b < 128) by (nonlinear_arith)
        requires
            2 * len * b < 256,
    ;
    assert(2 * len * b + 2 * len == 2 * (len * b + len)) by (nonlinear_arith);
    if len == 1 {
        lemma_fundamental_div_mod_converse(128, 1, 128, 0);
        lemma_fundamental_div_mod_converse(256, 1, 256, 0);
    } else if len == 2 {
        lemma_fundamental_div_mod_converse(128, 2, 64, 0);
        lemma_fundamental_div_mod_converse(256, 2, 128, 0);
    } else if len == 4 {
        lemma_fundamental_div_mod_converse(128, 4, 32, 0);
        lemma_fundamental_div_mod_converse(256, 4, 64, 0);
    } else if len == 8 {
        lemma_fundamental_div_mod_converse(128, 8, 16, 0);
        lemma_fundamental_div_mod_converse(256, 8, 32, 0);
    } else if len == 16 {
        lemma_fundamental_div_mod_converse(128, 16, 8, 0);
        lemma_fundamental_div_mod_converse(256, 16, 16, 0);
    } else if len == 32 {
        lemma_fundamental_div_mod_converse(128, 32, 4, 0);
        lemma_fundamental_div_mod_converse(256, 32, 8, 0);
    } else if len == 64 {
        lemma_fundamental_div_mod_converse(128, 64, 2, 0);
        lemma_fundamental_div_mod_converse(256, 64, 4, 0);
    } else if len == 128 {
        lemma_fundamental_div_mod_converse(128, 128, 1, 0);
        lemma_fundamental_div_mod_converse(256, 128, 2, 0);
    }
}

/// One forward layer, in place.
fn ct_layer_exec(p: &mut Poly<u32>, len: usize)
    requires
        layer_len(len as int),
        poly_canonical(*old(p), Q as int),
    ensures
        as_ints(final(p).coeffs@) == ct_layer(as_ints(old(p).coeffs@), len as int),
        poly_canonical(*final(p), Q as int),
{
    let ghost a = as_ints(p.coeffs@);
    let ghost sp = ct_layer(a, len as int);
    let mut start: usize = 0;
    let ghost mut bb: int = 0;
    proof {
        lemma_layer_counts(len as int, 0);
    }
    let mut k: usize = 128 / len;
    while start < N
        invariant
            layer_len(len as int),
            a == as_ints(old(p).coeffs@),
            sp == ct_layer(a, len as int),
            start == 2 * len * bb,
            bb >= 0,
            start <= N,
            k == 128int / (len as int) + bb,
            forall|x: int|
                0 <= x < N ==> #[trigger] p.coeffs[x] as int == if x < start {
                    sp[x]
                } else {
                    a[x]
                },
            poly_canonical(*p, Q as int),
        decreases N - start,
    {
        proof {
            lemma_layer_counts(len as int, bb);
            lemma_zetas_canonical(k as int);
        }
        let zeta = ZETAS_MONT[k];
        for j in start..start + len
            invariant
                layer_len(len as int),
                a == as_ints(old(p).coeffs@),
                sp == ct_layer(a, len as int),
                start == 2 * len * bb,
                bb >= 0,
                start + 2 * len <= N,
                zeta == ZETAS_MONT@[128int / (len as int) + bb],
                zeta < Q,
                forall|x: int|
                    0 <= x < N ==> #[trigger] p.coeffs[x] as int == if x < start || (start <= x
                        < j) || (start + len <= x < j + len) {
                        sp[x]
                    } else {
                        a[x]
                    },
                poly_canonical(*p, Q as int),
        {
            let x = p.coeffs[j];
            let y = p.coeffs[j + len];
            proof {
                lemma_block(j as int, len as int, bb);
                lemma_block((j + len) as int, len as int, bb);
                assert((zeta as int) * (y as int) < (Q as int) * mont_r()) by (nonlinear_arith)
                    requires
                        zeta < Q,
                        y < Q,
                ;
            }
            let t = mul_mont(zeta, y, Q, Q_N_PRIME);
            p.coeffs[j + len] = sub_mod(x, t, Q);
            p.coeffs[j] = add_mod(x, t, Q);
            proof {
                assert(sp[j as int] == (a[j as int] + mont_mul_spec(zeta as int, a[j + len], Q as int))
                    % (Q as int));
                assert(sp[j + len] == (a[j as int] - mont_mul_spec(zeta as int, a[j + len], Q as int))
                    % (Q as int));
            }
        }
        assert(start + 2 * len == 2 * len * (bb + 1)) by (nonlinear_arith)
            requires
                start == 2 * len * bb,
        ;
        start = start + 2 * len;
        k = k + 1;
        proof {
            bb = bb + 1;
        }
    }
}

/// Forward NTT (FIPS 204 Alg 41): canonical input, Montgomery-form output.
pub fn ntt(p: &mut Poly<u32>)
    ensures
        as_ints(final(p).coeffs@) == ntt_spec(old(p).coeffs@),
        poly_canonical(*final(p), Q as int),
{
    proof {
        lemma_r2_values();
    }
    let ghost a0 = old(p).coeffs@;
    for i in 0..N
        invariant
            a0 == old(p).coeffs@,
            forall|x: int|
                0 <= x < N ==> #[trigger] p.coeffs[x] as int == if x < i {
                    (a0[x] as int * mont_r()) % (Q as int)
                } else {
                    a0[x] as int
                },
            forall|x: int| 0 <= x < i ==> #[trigger] p.coeffs[x] < Q,
    {
        p.coeffs[i] = to_mont(p.coeffs[i], Q, Q_N_PRIME, Q_R2_MOD_Q);
    }
    assert(as_ints(p.coeffs@) =~= mont_seq(a0));
    let mut len: usize = 128;
    while len >= 1
        invariant
            len == 0 || layer_len(len as int),
            ct_layers(as_ints(p.coeffs@), len as nat) == ntt_spec(a0),
            poly_canonical(*p, Q as int),
        decreases len,
    {
        ct_layer_exec(p, len);
        len = len / 2;
    }
}

/// One inverse layer, in place.
fn gs_layer_exec(p: &mut Poly<u32>, len: usize)
    requires
        layer_len(len as int),
        poly_canonical(*old(p), Q as int),
    ensures
        as_ints(final(p).coeffs@) == gs_layer(as_ints(old(p).coeffs@), len as int),
        poly_canonical(*final(p), Q as int),
{
    let ghost a = as_ints(p.coeffs@);
    let ghost sp = gs_layer(a, len as int);
    let mut start: usize = 0;
    let ghost mut bb: int = 0;
    proof {
        lemma_layer_counts(len as int, 0);
    }
    let mut k: usize = 256 / len;
    while start < N
        invariant
            layer_len(len as int),
            a == as_ints(old(p).coeffs@),
            sp == gs_layer(a, len as int),
            start == 2 * len * bb,
            bb >= 0,
            start <= N,
            k == 256int / (len as int) - bb,
            forall|x: int|
                0 <= x < N ==> #[trigger] p.coeffs[x] as int == if x < start {
                    sp[x]
                } else {
                    a[x]
                },
            poly_canonical(*p, Q as int),
        decreases N - start,
    {
        proof {
            lemma_layer_counts(len as int, bb);
        }
        k = k - 1;
        proof {
            lemma_zetas_canonical(k as int);
        }
        let zeta = sub_mod(0, ZETAS_MONT[k], Q);
        for j in start..start + len
            invariant
                layer_len(len as int),
                a == as_ints(old(p).coeffs@),
                sp == gs_layer(a, len as int),
                start == 2 * len * bb,
                bb >= 0,
                start + 2 * len <= N,
                zeta as int == (0 - ZETAS_MONT@[256int / (len as int) - 1 - bb]) % (Q as int),
                zeta < Q,
                forall|x: int|
                    0 <= x < N ==> #[trigger] p.coeffs[x] as int == if x < start || (start <= x
                        < j) || (start + len <= x < j + len) {
                        sp[x]
                    } else {
                        a[x]
                    },
                poly_canonical(*p, Q as int),
        {
            let x = p.coeffs[j];
            let y = p.coeffs[j + len];
            proof {
                lemma_block(j as int, len as int, bb);
                lemma_block((j + len) as int, len as int, bb);
            }
            let d = sub_mod(x, y, Q);
            proof {
                assert((zeta as int) * (d as int) < (Q as int) * mont_r()) by (nonlinear_arith)
                    requires
                        zeta < Q,
                        d < Q,
                ;
            }
            p.coeffs[j] = add_mod(x, y, Q);
            p.coeffs[j + len] = mul_mont(zeta, d, Q, Q_N_PRIME);
        }
        assert(start + 2 * len == 2 * len * (bb + 1)) by (nonlinear_arith)
            requires
                start == 2 * len * bb,
        ;
        start = start + 2 * len;
        proof {
            bb = bb + 1;
        }
    }
}

/// Inverse NTT (FIPS 204 Alg 42): Montgomery-form input, canonical
/// output. The final Montgomery product with the canonical `256^-1`
/// both scales and leaves the Montgomery domain.
pub fn inv_ntt(p: &mut Poly<u32>)
    requires
        poly_canonical(*old(p), Q as int),
    ensures
        as_ints(final(p).coeffs@) == inv_ntt_spec(as_ints(old(p).coeffs@)),
        poly_canonical(*final(p), Q as int),
{
    let ghost a0 = old(p).coeffs@;
    let mut len: usize = 1;
    while len < N
        invariant
            layer_len(len as int) || len == 256,
            gs_layers(as_ints(p.coeffs@), len as nat) == gs_layers(as_ints(a0), 1),
            poly_canonical(*p, Q as int),
        decreases 256 - len,
    {
        gs_layer_exec(p, len);
        len = len * 2;
    }
    let ghost x = as_ints(p.coeffs@);
    assert(x == gs_layers(as_ints(a0), 1));
    for i in 0..N
        invariant
            x == gs_layers(as_ints(a0), 1),
            x.len() == N,
            forall|y: int|
                0 <= y < N ==> #[trigger] p.coeffs[y] as int == if y < i {
                    mont_mul_spec(N_INV as int, x[y], Q as int)
                } else {
                    x[y]
                },
            poly_canonical(*p, Q as int),
    {
        let c = p.coeffs[i];
        proof {
            assert((N_INV as int) * (c as int) < (Q as int) * mont_r()) by (nonlinear_arith)
                requires
                    N_INV < Q,
                    c < Q,
            ;
        }
        p.coeffs[i] = mul_mont(N_INV, c, Q, Q_N_PRIME);
    }
    assert(as_ints(p.coeffs@) =~= inv_ntt_spec(as_ints(a0)));
}

/// Elementwise Montgomery product of two NTT-domain polynomials.
pub fn mul_ntt(a: &Poly<u32>, b: &Poly<u32>) -> (out: Poly<u32>)
    requires
        poly_canonical(*a, Q as int),
        poly_canonical(*b, Q as int),
    ensures
        forall|i: int|
            0 <= i < N ==> #[trigger] out.coeffs[i] as int == mont_mul_spec(
                a.coeffs[i] as int,
                b.coeffs[i] as int,
                Q as int,
            ),
        poly_canonical(out, Q as int),
{
    let mut out = Poly::<u32>::zero();
    for i in 0..N
        invariant
            poly_canonical(*a, Q as int),
            poly_canonical(*b, Q as int),
            forall|k: int|
                0 <= k < i ==> #[trigger] out.coeffs[k] as int == mont_mul_spec(
                    a.coeffs[k] as int,
                    b.coeffs[k] as int,
                    Q as int,
                ),
            forall|k: int| 0 <= k < i ==> #[trigger] out.coeffs[k] < Q,
    {
        let x = a.coeffs[i];
        let y = b.coeffs[i];
        proof {
            assert((x as int) * (y as int) < (Q as int) * mont_r()) by (nonlinear_arith)
                requires
                    x < Q,
                    y < Q,
            ;
        }
        out.coeffs[i] = mul_mont(x, y, Q, Q_N_PRIME);
    }
    out
}

} // verus!

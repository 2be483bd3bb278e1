//! ML-KEM Number Theoretic Transform (FIPS 203 §4.3).
//!
//! The ML-KEM NTT is incomplete: it stops at length-2 polynomials, so
//! multiplication in the transform image is 128 base-case products
//! in `Z_q[X]/(X^2 - gamma_i)` ([`base_case_mul`]). Coefficients in the
//! NTT domain are held in Montgomery form.

use vstd::arithmetic::div_mod::*;
use vstd::arithmetic::power::pow;
use vstd::prelude::*;

use crate::field::{
    add_mod, exp_mod, lemma_r2_values, mont_mul_spec, mont_r, mul_acc, mul_mont, r_inv, redc,
    sub_mod, to_mont,
};
use crate::mlkem::params::{N, Q, Q_N_PRIME, Q_R2_MOD_Q, ZETA};
use crate::ntt::{as_ints, layer_len, lemma_block, lemma_layer_counts, mont_seq};
use crate::poly::{poly_canonical, Poly};

verus! {

/// `ZETAS[i] = ZETA^BitRev_7(i) mod Q`.
pub const ZETAS: [u32; 128] = [
    1, 1729, 2580, 3289, 2642, 630, 1897, 848,
    1062, 1919, 193, 797, 2786, 3260, 569, 1746,
    296, 2447, 1339, 1476, 3046, 56, 2240, 1333,
    1426, 2094, 535, 2882, 2393, 2879, 1974, 821,
    289, 331, 3253, 1756, 1197, 2304, 2277, 2055,
    650, 1977, 2513, 632, 2865, 33, 1320, 1915,
    2319, 1435, 807, 452, 1438, 2868, 1534, 2402,
    2647, 2617, 1481, 648, 2474, 3110, 1227, 910,
    17, 2761, 583, 2649, 1637, 723, 2288, 1100,
    1409, 2662, 3281, 233, 756, 2156, 3015, 3050,
    1703, 1651, 2789, 1789, 1847, 952, 1461, 2687,
    939, 2308, 2437, 2388, 733, 2337, 268, 641,
    1584, 2298, 2037, 3220, 375, 2549, 2090, 1645,
    1063, 319, 2773, 757, 2099, 561, 2466, 2594,
    2804, 1092, 403, 1026, 1143, 2150, 2775, 886,
    1722, 1212, 1874, 1029, 2110, 2935, 885, 2154,
];

/// `ZETAS_MONT[i] = ZETAS[i] * R mod Q`: the twiddles in Montgomery form.
pub const ZETAS_MONT: [u32; 128] = [
    1353, 2379, 1948, 2473, 2609, 166, 3311, 2168,
    2087, 3116, 1467, 3074, 1030, 3184, 858, 2077,
    1008, 1765, 691, 2957, 3265, 2530, 1330, 2560,
    1887, 203, 1462, 1087, 1941, 357, 964, 2256,
    1524, 1757, 371, 2291, 1647, 1368, 1456, 700,
    594, 1694, 1180, 2872, 1389, 1372, 1616, 1033,
    1689, 748, 3288, 2349, 1478, 2119, 1535, 802,
    2716, 2074, 3064, 1217, 1677, 3303, 2289, 2829,
    3027, 495, 3155, 2093, 1076, 2822, 3023, 237,
    2189, 3037, 1636, 2323, 865, 864, 1270, 2019,
    491, 44, 1760, 334, 2241, 3062, 2636, 243,
    2118, 122, 1551, 1834, 3036, 2740, 3072, 1733,
    2605, 3237, 2978, 2328, 1367, 3282, 1449, 1913,
    111, 2166, 86, 2218, 310, 21, 840, 916,
    2081, 2729, 2632, 3314, 1823, 2733, 2792, 318,
    2895, 1968, 2153, 715, 1877, 2887, 2294, 1487,
];

/// `GAMMAS[i] = ZETA^(2 BitRev_7(i) + 1) mod Q`.
pub const GAMMAS: [u32; 128] = [
    17, 3312, 2761, 568, 583, 2746, 2649, 680,
    1637, 1692, 723, 2606, 2288, 1041, 1100, 2229,
    1409, 1920, 2662, 667, 3281, 48, 233, 3096,
    756, 2573, 2156, 1173, 3015, 314, 3050, 279,
    1703, 1626, 1651, 1678, 2789, 540, 1789, 1540,
    1847, 1482, 952, 2377, 1461, 1868, 2687, 642,
    939, 2390, 2308, 1021, 2437, 892, 2388, 941,
    733, 2596, 2337, 992, 268, 3061, 641, 2688,
    1584, 1745, 2298, 1031, 2037, 1292, 3220, 109,
    375, 2954, 2549, 780, 2090, 1239, 1645, 1684,
    1063, 2266, 319, 3010, 2773, 556, 757, 2572,
    2099, 1230, 561, 2768, 2466, 863, 2594, 735,
    2804, 525, 1092, 2237, 403, 2926, 1026, 2303,
    1143, 2186, 2150, 1179, 2775, 554, 886, 2443,
    1722, 1607, 1212, 2117, 1874, 1455, 1029, 2300,
    2110, 1219, 2935, 394, 885, 2444, 2154, 1175,
];

/// `GAMMAS_MONT[i] = GAMMAS[i] * R mod Q`, used by the base-case multiply.
pub const GAMMAS_MONT: [u32; 128] = [
    3027, 302, 495, 2834, 3155, 174, 2093, 1236,
    1076, 2253, 2822, 507, 3023, 306, 237, 3092,
    2189, 1140, 3037, 292, 1636, 1693, 2323, 1006,
    865, 2464, 864, 2465, 1270, 2059, 2019, 1310,
    491, 2838, 44, 3285, 1760, 1569, 334, 2995,
    2241, 1088, 3062, 267, 2636, 693, 243, 3086,
    2118, 1211, 122, 3207, 1551, 1778, 1834, 1495,
    3036, 293, 2740, 589, 3072, 257, 1733, 1596,
    2605, 724, 3237, 92, 2978, 351, 2328, 1001,
    1367, 1962, 3282, 47, 1449, 1880, 1913, 1416,
    111, 3218, 2166, 1163, 86, 3243, 2218, 1111,
    310, 3019, 21, 3308, 840, 2489, 916, 2413,
    2081, 1248, 2729, 600, 2632, 697, 3314, 15,
    1823, 1506, 2733, 596, 2792, 537, 318, 3011,
    2895, 434, 1968, 1361, 2153, 1176, 715, 2614,
    1877, 1452, 2887, 442, 2294, 1035, 1487, 1842,
];
/// `128^-1 mod 3329`: undoes the doubling of the 7 inverse layers.
pub const N_INV_128: u32 = 3303;

/// The low 7 bits of `i`, reversed.
pub open spec fn bitrev7_spec(i: u32) -> u32 {
    ((i & 1) << 6u32) | ((i & 2) << 4u32) | ((i & 4) << 2u32) | (i & 8) | ((i & 16) >> 2u32) | ((i
        & 32) >> 4u32) | ((i & 64) >> 6u32)
}

/// The first `n` bits of `i`, least significant first, shifted into a
/// value most significant first.
pub open spec fn rev_prefix(i: u32, n: nat) -> u32
    decreases n,
{
    if n == 0 {
        0
    } else {
        (rev_prefix(i, (n - 1) as nat) << 1u32) | ((i >> ((n - 1) as u32)) & 1u32)
    }
}

proof fn lemma_rev7(i: u32)
    ensures
        rev_prefix(i, 7) == bitrev7_spec(i),
{
    reveal_with_fuel(rev_prefix, 8);
    let r1 = (0u32 << 1u32) | (i & 1u32);
    let r2 = (r1 << 1u32) | ((i >> 1u32) & 1u32);
    let r3 = (r2 << 1u32) | ((i >> 2u32) & 1u32);
    let r4 = (r3 << 1u32) | ((i >> 3u32) & 1u32);
    let r5 = (r4 << 1u32) | ((i >> 4u32) & 1u32);
    let r6 = (r5 << 1u32) | ((i >> 5u32) & 1u32);
    let r7 = (r6 << 1u32) | ((i >> 6u32) & 1u32);
    assert((i >> 0u32) & 1u32 == i & 1u32) by (bit_vector);
    assert(rev_prefix(i, 7) == r7);
    assert(r7 == bitrev7_spec(i)) by (bit_vector)
        requires
            r1 == (0u32 << 1u32) | (i & 1u32),
            r2 == (r1 << 1u32) | ((i >> 1u32) & 1u32),
            r3 == (r2 << 1u32) | ((i >> 2u32) & 1u32),
            r4 == (r3 << 1u32) | ((i >> 3u32) & 1u32),
            r5 == (r4 << 1u32) | ((i >> 4u32) & 1u32),
            r6 == (r5 << 1u32) | ((i >> 5u32) & 1u32),
            r7 == (r6 << 1u32) | ((i >> 6u32) & 1u32),
    ;
}

/// Reversing the low 7 bits twice gives back any `i < 128`.
pub proof fn lemma_bitrev7_involution(i: u32)
    requires
        i < 128,
    ensures
        bitrev7_spec(bitrev7_spec(i)) == i,
        bitrev7_spec(i) < 128,
{
    assert(bitrev7_spec(bitrev7_spec(i)) == i && bitrev7_spec(i) < 128) by (bit_vector)
        requires
            i < 128,
    ;
}

/// Bit-reverse the low 7 bits of `i`.
pub fn bitrev7(i: u32) -> (r: u32)
    ensures
        r == bitrev7_spec(i),
{
    let mut x = i;
    let mut r: u32 = 0;
    let mut bits: u32 = 0;
    assert(i >> 0u32 == i) by (bit_vector);
    assert(0u32 >> 0u32 == 0) by (bit_vector);
    while bits < 7
        invariant
            bits <= 7,
            r == rev_prefix(i, bits as nat),
            x == i >> bits,
            r >> bits == 0,
        decreases 7 - bits,
    {
        assert(((r << 1u32) | (x & 1u32)) >> ((bits + 1) as u32) == 0) by (bit_vector)
            requires
                r >> bits == 0,
                bits < 7,
        ;
        r = (r << 1u32) | (x & 1u32);
        assert(x >> 1u32 == i >> ((bits + 1) as u32)) by (bit_vector)
            requires
                x == i >> bits,
                bits < 7,
        ;
        x = x >> 1u32;
        bits = bits + 1;
    }
    proof {
        lemma_rev7(i);
    }
    r
}

/// Recompute the twiddle table from its definition: entry `i` is
/// `ZETA^BitRev_7(i) mod Q` (the table [`ZETAS`] holds these values).
pub fn compute_zetas() -> (z: [u32; 128])
    ensures
        forall|i: int|
            0 <= i < 128 ==> z[i] as int == pow(ZETA as int, bitrev7_spec(i as u32) as nat) % (
            Q as int),
{
    let mut z = [0u32; 128];
    let mut i: u32 = 0;
    while i < 128
        invariant
            i <= 128,
            forall|j: int|
                0 <= j < i ==> z[j] as int == pow(ZETA as int, bitrev7_spec(j as u32) as nat) % (
                Q as int),
        decreases 128 - i,
    {
        let e = bitrev7(i);
        z[i as usize] = exp_mod(ZETA, e, Q);
        i = i + 1;
    }
    z
}

/// Recompute the base-case moduli from their definition: entry `i` is
/// `ZETA^(2 BitRev_7(i) + 1) mod Q` (the table [`GAMMAS`] holds these
/// values).
pub fn compute_gammas() -> (g: [u32; 128])
    ensures
        forall|i: int|
            0 <= i < 128 ==> g[i] as int == pow(
                ZETA as int,
                (2 * bitrev7_spec(i as u32) + 1) as nat,
            ) % (Q as int),
{
    let mut g = [0u32; 128];
    let mut i: u32 = 0;
    while i < 128
        invariant
            i <= 128,
            forall|j: int|
                0 <= j < i ==> g[j] as int == pow(
                    ZETA as int,
                    (2 * bitrev7_spec(j as u32) + 1) as nat,
                ) % (Q as int),
        decreases 128 - i,
    {
        let r = bitrev7(i);
        proof {
            lemma_bitrev7_involution(i);
        }
        g[i as usize] = exp_mod(ZETA, 2 * r + 1, Q);
        i = i + 1;
    }
    g
}

/// The twiddle table holds canonical residues.
#[verifier::rlimit(100)]
pub proof fn lemma_zetas_canonical(i: int)
    requires
        0 <= i < 128,
    ensures
        ZETAS_MONT@[i] < Q,
{
}

/// The base-case table holds canonical residues.
#[verifier::rlimit(100)]
pub proof fn lemma_gammas_canonical(i: int)
    requires
        0 <= i < 128,
    ensures
        GAMMAS_MONT@[i] < Q,
{
}

/// One Cooley-Tukey layer with half-length `len`: block `b` pairs `x_j`
/// with `x_{j+len}` under the twiddle `ZETAS_MONT[128/len + b]`.
pub open spec fn kem_ct_layer(a: Seq<int>, len: int) -> Seq<int> {
    Seq::new(
        a.len(),
        |j: int|
            {
                let z = ZETAS_MONT@[128int / len + j / (2 * len)] as int;
                if j % (2 * len) < len {
                    (a[j] + mont_mul_spec(z, a[j + len], Q as int)) % (Q as int)
                } else {
                    (a[j - len] - mont_mul_spec(z, a[j], Q as int)) % (Q as int)
                }
            },
    )
}

/// The Cooley-Tukey layers with half-lengths `len, len/2, ..., 2`.
pub open spec fn kem_ct_layers(a: Seq<int>, len: nat) -> Seq<int>
    decreases len,
{
    if len < 2 {
        a
    } else {
        kem_ct_layers(kem_ct_layer(a, len as int), len / 2)
    }
}

/// NTT (FIPS 203 Alg 9) on the Montgomery representatives of `a`.
pub open spec fn kem_ntt_spec(a: Seq<u32>) -> Seq<int> {
    kem_ct_layers(mont_seq_kem(a), 128)
}

/// The Montgomery representatives `x * R mod q` of the coefficients.
pub open spec fn mont_seq_kem(a: Seq<u32>) -> Seq<int> {
    Seq::new(a.len(), |i: int| (a[i] as int * mont_r()) % (Q as int))
}

/// One Gentleman-Sande layer with half-length `len`: block `b` maps
/// `(x, y)` to `(x + y, z (y - x))` with `z = ZETAS_MONT[256/len - 1 - b]`.
pub open spec fn kem_gs_layer(a: Seq<int>, len: int) -> Seq<int> {
    Seq::new(
        a.len(),
        |j: int|
            {
                let z = ZETAS_MONT@[256int / len - 1 - j / (2 * len)] as int;
                if j % (2 * len) < len {
                    (a[j] + a[j + len]) % (Q as int)
                } else {
                    mont_mul_spec(z, (a[j] - a[j - len]) % (Q as int), Q as int)
                }
            },
    )
}

/// The Gentleman-Sande layers with half-lengths `len, 2 len, ..., 128`.
pub open spec fn kem_gs_layers(a: Seq<int>, len: nat) -> Seq<int>
    decreases 256 - len,
{
    if len == 0 || len > 128 {
        a
    } else {
        kem_gs_layers(kem_gs_layer(a, len as int), 2 * len)
    }
}

/// Inverse NTT (FIPS 203 Alg 10) on Montgomery-form input: the
/// Gentleman-Sande layers, then the Montgomery product with `128^-1`.
pub open spec fn kem_inv_ntt_spec(a: Seq<int>) -> Seq<int> {
    let x = kem_gs_layers(a, 2);
    Seq::new(x.len(), |i: int| mont_mul_spec(N_INV_128 as int, x[i], Q as int))
}

/// One forward layer, in place.
fn ct_layer_exec(p: &mut Poly<u32>, len: usize)
    requires
        layer_len(len as int),
        len >= 2,
        poly_canonical(*old(p), Q as int),
    ensures
        as_ints(final(p).coeffs@) == kem_ct_layer(as_ints(old(p).coeffs@), len as int),
        poly_canonical(*final(p), Q as int),
{
    let ghost a = as_ints(p.coeffs@);
    let ghost sp = kem_ct_layer(a, len as int);
    let mut start: usize = 0;
    let ghost mut bb: int = 0;
    proof {
        lemma_layer_counts(len as int, 0);
    }
    let mut k: usize = 128 / len;
    while start < N
        invariant
            layer_len(len as int),
            len >= 2,
            a == as_ints(old(p).coeffs@),
            sp == kem_ct_layer(a, len as int),
            start == 2 * len * bb,
            bb >= 0,
            start <= N,
            k == 128int / (len as int) + bb,
            forall|x: int|
                0 <= x < N ==> #[trigger] p.coeffs[x] as int == if x < start {
                    sp[x]
                } else {
                    a[x]
                },
            poly_canonical(*p, Q as int),
        decreases N - start,
    {
        proof {
            lemma_layer_counts(len as int, bb);
            lemma_zetas_canonical(k as int);
        }
        let zeta = ZETAS_MONT[k];
        for j in start..start + len
            invariant
                layer_len(len as int),
                a == as_ints(old(p).coeffs@),
                sp == kem_ct_layer(a, len as int),
                start == 2 * len * bb,
                bb >= 0,
                start + 2 * len <= N,
                zeta == ZETAS_MONT@[128int / (len as int) + bb],
                zeta < Q,
                forall|x: int|
                    0 <= x < N ==> #[trigger] p.coeffs[x] as int == if x < start || (start <= x
                        < j) || (start + len <= x < j + len) {
                        sp[x]
                    } else {
                        a[x]
                    },
                poly_canonical(*p, Q as int),
        {
            let x = p.coeffs[j];
            let y = p.coeffs[j + len];
            proof {
                lemma_block(j as int, len as int, bb);
                lemma_block((j + len) as int, len as int, bb);
                assert((zeta as int) * (y as int) < (Q as int) * mont_r()) by (nonlinear_arith)
                    requires
                        zeta < Q,
                        y < Q,
                ;
            }
            let t = mul_mont(zeta, y, Q, Q_N_PRIME);
            p.coeffs[j + len] = sub_mod(x, t, Q);
            p.coeffs[j] = add_mod(x, t, Q);
        }
        assert(start + 2 * len == 2 * len * (bb + 1)) by (nonlinear_arith)
            requires
                start == 2 * len * bb,
        ;
        start = start + 2 * len;
        k = k + 1;
        proof {
            bb = bb + 1;
        }
    }
}

/// Forward NTT (FIPS 203 Alg 9, 7 layers): canonical input,
/// Montgomery-form output.
pub fn ntt(p: &mut Poly<u32>)
    ensures
        as_ints(final(p).coeffs@) == kem_ntt_spec(old(p).coeffs@),
        poly_canonical(*final(p), Q as int),
{
    proof {
        lemma_r2_values();
    }
    let ghost a0 = old(p).coeffs@;
    for i in 0..N
        invariant
            a0 == old(p).coeffs@,
            forall|x: int|
                0 <= x < N ==> #[trigger] p.coeffs[x] as int == if x < i {
                    (a0[x] as int * mont_r()) % (Q as int)
                } else {
                    a0[x] as int
                },
            forall|x: int| 0 <= x < i ==> #[trigger] p.coeffs[x] < Q,
    {
        p.coeffs[i] = to_mont(p.coeffs[i], Q, Q_N_PRIME, Q_R2_MOD_Q);
    }
    assert(as_ints(p.coeffs@) =~= mont_seq_kem(a0));
    let mut len: usize = 128;
    while len >= 2
        invariant
            len == 1 || layer_len(len as int),
            kem_ct_layers(as_ints(p.coeffs@), len as nat) == kem_ntt_spec(a0),
            poly_canonical(*p, Q as int),
        decreases len,
    {
        ct_layer_exec(p, len);
        len = len / 2;
    }
}

/// One inverse layer, in place.
fn gs_layer_exec(p: &mut Poly<u32>, len: usize)
    requires
        layer_len(len as int),
        len >= 2,
        poly_canonical(*old(p), Q as int),
    ensures
        as_ints(final(p).coeffs@) == kem_gs_layer(as_ints(old(p).coeffs@), len as int),
        poly_canonical(*final(p), Q as int),
{
    let ghost a = as_ints(p.coeffs@);
    let ghost sp = kem_gs_layer(a, len as int);
    let mut start: usize = 0;
    let ghost mut bb: int = 0;
    proof {
        lemma_layer_counts(len as int, 0);
    }
    let mut k: usize = 256 / len;
    while start < N
        invariant
            layer_len(len as int),
            len >= 2,
            a == as_ints(old(p).coeffs@),
            sp == kem_gs_layer(a, len as int),
            start == 2 * len * bb,
            bb >= 0,
            start <= N,
            k == 256int / (len as int) - bb,
            forall|x: int|
                0 <= x < N ==> #[trigger] p.coeffs[x] as int == if x < start {
                    sp[x]
                } else {
                    a[x]
                },
            poly_canonical(*p, Q as int),
        decreases N - start,
    {
        proof {
            lemma_layer_counts(len as int, bb);
        }
        k = k - 1;
        proof {
            lemma_zetas_canonical(k as int);
        }
        let zeta = ZETAS_MONT[k];
        for j in start..start + len
            invariant
                layer_len(len as int),
                a == as_ints(old(p).coeffs@),
                sp == kem_gs_layer(a, len as int),
                start == 2 * len * bb,
                bb >= 0,
                start + 2 * len <= N,
                zeta == ZETAS_MONT@[256int / (len as int) - 1 - bb],
                zeta < Q,
                forall|x: int|
                    0 <= x < N ==> #[trigger] p.coeffs[x] as int == if x < start || (start <= x
                        < j) || (start + len <= x < j + len) {
                        sp[x]
                    } else {
                        a[x]
                    },
                poly_canonical(*p, Q as int),
        {
            let x = p.coeffs[j];
            let y = p.coeffs[j + len];
            proof {
                lemma_block(j as int, len as int, bb);
                lemma_block((j + len) as int, len as int, bb);
            }
            let d = sub_mod(y, x, Q);
            proof {
                assert((zeta as int) * (d as int) < (Q as int) * mont_r()) by (nonlinear_arith)
                    requires
                        zeta < Q,
                        d < Q,
                ;
            }
            p.coeffs[j] = add_mod(x, y, Q);
            p.coeffs[j + len] = mul_mont(zeta, d, Q, Q_N_PRIME);
        }
        assert(start + 2 * len == 2 * len * (bb + 1)) by (nonlinear_arith)
            requires
                start == 2 * len * bb,
        ;
        start = start + 2 * len;
        proof {
            bb = bb + 1;
        }
    }
}

/// Inverse NTT (FIPS 203 Alg 10): Montgomery-form input, canonical
/// output.
pub fn inv_ntt(p: &mut Poly<u32>)
    requires
        poly_canonical(*old(p), Q as int),
    ensures
        as_ints(final(p).coeffs@) == kem_inv_ntt_spec(as_ints(old(p).coeffs@)),
        poly_canonical(*final(p), Q as int),
{
    let ghost a0 = old(p).coeffs@;
    let mut len: usize = 2;
    while len <= 128
        invariant
            (layer_len(len as int) && len >= 2) || len == 256,
            kem_gs_layers(as_ints(p.coeffs@), len as nat) == kem_gs_layers(as_ints(a0), 2),
            poly_canonical(*p, Q as int),
        decreases 256 - len,
    {
        gs_layer_exec(p, len);
        len = len * 2;
    }
    let ghost x = as_ints(p.coeffs@);
    for i in 0..N
        invariant
            x == kem_gs_layers(as_ints(a0), 2),
            x.len() == N,
            forall|y: int|
                0 <= y < N ==> #[trigger] p.coeffs[y] as int == if y < i {
                    mont_mul_spec(N_INV_128 as int, x[y], Q as int)
                } else {
                    x[y]
                },
            poly_canonical(*p, Q as int),
    {
        let c = p.coeffs[i];
        proof {
            assert((N_INV_128 as int) * (c as int) < (Q as int) * mont_r()) by (nonlinear_arith)
                requires
                    N_INV_128 < Q,
                    c < Q,
            ;
        }
        p.coeffs[i] = mul_mont(N_INV_128, c, Q, Q_N_PRIME);
    }
    assert(as_ints(p.coeffs@) =~= kem_inv_ntt_spec(as_ints(a0)));
}

/// BaseCaseMultiply (FIPS 203 Alg 12), first output:
/// `a0 b0 + a1 b1 gamma` in Montgomery form.
pub open spec fn base_case_c0(a0: int, a1: int, b0: int, b1: int, g: int) -> int {
    (mont_mul_spec(a0, b0, Q as int) + mont_mul_spec(mont_mul_spec(a1, b1, Q as int), g, Q as int))
        % (Q as int)
}

/// BaseCaseMultiply (FIPS 203 Alg 12), second output:
/// `a0 b1 + a1 b0` in Montgomery form (one reduction for both terms).
pub open spec fn base_case_c1(a0: int, a1: int, b0: int, b1: int) -> int {
    ((a0 * b1 + a1 * b0) * r_inv(Q as int)) % (Q as int)
}

/// BaseCaseMultiply (FIPS 203 Alg 12) of `(a0 + a1 X)(b0 + b1 X)` in
/// `Z_q[X]/(X^2 - gamma)`, all in Montgomery form.
pub fn base_case_mul(a0: u32, a1: u32, b0: u32, b1: u32, gamma_mont: u32) -> (res: (u32, u32))
    requires
        a0 < Q,
        a1 < Q,
        b0 < Q,
        b1 < Q,
        gamma_mont < Q,
    ensures
        res.0 as int == base_case_c0(a0 as int, a1 as int, b0 as int, b1 as int, gamma_mont as int),
        res.1 as int == base_case_c1(a0 as int, a1 as int, b0 as int, b1 as int),
        res.0 < Q,
        res.1 < Q,
{
    proof {
        assert((a0 as int) * (b0 as int) < (Q as int) * mont_r()) by (nonlinear_arith)
            requires
                a0 < Q,
                b0 < Q,
        ;
        assert((a1 as int) * (b1 as int) < (Q as int) * mont_r()) by (nonlinear_arith)
            requires
                a1 < Q,
                b1 < Q,
        ;
        assert((a0 as int) * (b1 as int) <= (Q as int) * (Q as int)) by (nonlinear_arith)
            requires
                a0 < Q,
                b1 < Q,
        ;
        assert((a1 as int) * (b0 as int) <= (Q as int) * (Q as int)) by (nonlinear_arith)
            requires
                a1 < Q,
                b0 < Q,
        ;
    }
    let a0b0 = mul_mont(a0, b0, Q, Q_N_PRIME);
    let a1b1 = mul_mont(a1, b1, Q, Q_N_PRIME);
    proof {
        assert((a1b1 as int) * (gamma_mont as int) < (Q as int) * mont_r()) by (nonlinear_arith)
            requires
                a1b1 < Q,
                gamma_mont < Q,
        ;
    }
    let a1b1g = mul_mont(a1b1, gamma_mont, Q, Q_N_PRIME);
    let c0 = add_mod(a0b0, a1b1g, Q);
    let acc = mul_acc(0, a0, b1);
    let acc = mul_acc(acc, a1, b0);
    let c1 = redc(acc, Q, Q_N_PRIME);
    (c0, c1)
}

/// MultiplyNTTs (FIPS 203 Alg 11) on Montgomery-form coefficient
/// sequences: coefficient pair `(2i, 2i + 1)` is the base-case product
/// of the pairs of `a` and `b` under `gamma_i`.
pub open spec fn mul_ntt_spec(a: Seq<int>, b: Seq<int>) -> Seq<int> {
    Seq::new(
        N as nat,
        |c: int|
            {
                let i = c / 2;
                if c % 2 == 0 {
                    base_case_c0(a[2 * i], a[2 * i + 1], b[2 * i], b[2 * i + 1], GAMMAS_MONT@[i] as int)
                } else {
                    base_case_c1(a[2 * i], a[2 * i + 1], b[2 * i], b[2 * i + 1])
                }
            },
    )
}

/// MultiplyNTTs (FIPS 203 Alg 11): 128 base-case products.
pub fn mul_ntt(a: &Poly<u32>, b: &Poly<u32>) -> (out: Poly<u32>)
    requires
        poly_canonical(*a, Q as int),
        poly_canonical(*b, Q as int),
    ensures
        as_ints(out.coeffs@) == mul_ntt_spec(as_ints(a.coeffs@), as_ints(b.coeffs@)),
        poly_canonical(out, Q as int),
{
    let mut out = Poly::<u32>::zero();
    for i in 0..128
        invariant
            poly_canonical(*a, Q as int),
            poly_canonical(*b, Q as int),
            forall|k: int|
                0 <= k < i ==> #[trigger] out.coeffs[2 * k] as int == base_case_c0(
                    a.coeffs[2 * k] as int,
                    a.coeffs[2 * k + 1] as int,
                    b.coeffs[2 * k] as int,
                    b.coeffs[2 * k + 1] as int,
                    GAMMAS_MONT@[k] as int,
                ),
            forall|k: int|
                0 <= k < i ==> #[trigger] out.coeffs[2 * k + 1] as int == base_case_c1(
                    a.coeffs[2 * k] as int,
                    a.coeffs[2 * k + 1] as int,
                    b.coeffs[2 * k] as int,
                    b.coeffs[2 * k + 1] as int,
                ),
            poly_canonical(out, Q as int),
    {
        proof {
            lemma_gammas_canonical(i as int);
        }
        let (c0, c1) = base_case_mul(
            a.coeffs[2 * i],
            a.coeffs[2 * i + 1],
            b.coeffs[2 * i],
            b.coeffs[2 * i + 1],
            GAMMAS_MONT[i],
        );
        out.coeffs[2 * i] = c0;
        out.coeffs[2 * i + 1] = c1;
    }
    proof {
        assert forall|c: int| 0 <= c < N implies #[trigger] as_ints(out.coeffs@)[c] == mul_ntt_spec(
            as_ints(a.coeffs@),
            as_ints(b.coeffs@),
        )[c] by {
            let i = c / 2;
            if c % 2 == 0 {
                assert(c == 2 * i);
                assert(out.coeffs[2 * i] as int == base_case_c0(
                    a.coeffs[2 * i] as int,
                    a.coeffs[2 * i + 1] as int,
                    b.coeffs[2 * i] as int,
                    b.coeffs[2 * i + 1] as int,
                    GAMMAS_MONT@[i] as int,
                ));
            } else {
                assert(c == 2 * i + 1);
                assert(out.coeffs[2 * i + 1] as int == base_case_c1(
                    a.coeffs[2 * i] as int,
                    a.coeffs[2 * i + 1] as int,
                    b.coeffs[2 * i] as int,
                    b.coeffs[2 * i + 1] as int,
                ));
            }
        }
        assert(as_ints(out.coeffs@) =~= mul_ntt_spec(as_ints(a.coeffs@), as_ints(b.coeffs@)));
    }
    out
}

/// The coefficient sequences of a list of polynomials.
pub open spec fn polys_coeffs(v: Seq<Poly<u32>>) -> Seq<Seq<int>> {
    Seq::new(v.len(), |j: int| as_ints(v[j].coeffs@))
}

/// `sum_{j < n} a[j][ia] * b[j][ib]`.
pub open spec fn row_dot(a: Seq<Seq<int>>, b: Seq<Seq<int>>, ia: int, ib: int, n: nat) -> int
    decreases n,
{
    if n == 0 {
        0
    } else {
        row_dot(a, b, ia, ib, (n - 1) as nat) + a[n - 1][ia] * b[n - 1][ib]
    }
}

/// REDC of a double-width accumulator: `t R^-1 mod q`.
pub open spec fn redc_spec(t: int) -> int {
    (t * r_inv(Q as int)) % (Q as int)
}

/// The output of the fused inner product of the NTT-domain vectors `a`
/// and `b` (length `k`): for each base-case pair `i`, coefficient `2i`
/// is `REDC(sum a0 b0) + REDC(sum a1 b1) * gamma_i` and coefficient
/// `2i + 1` is `REDC(sum a0 b1 + a1 b0)`.
pub open spec fn acc_spec(a: Seq<Seq<int>>, b: Seq<Seq<int>>, k: nat) -> Seq<int> {
    Seq::new(
        N as nat,
        |c: int|
            {
                let i = c / 2;
                if c % 2 == 0 {
                    (redc_spec(row_dot(a, b, 2 * i, 2 * i, k)) + mont_mul_spec(
                        redc_spec(row_dot(a, b, 2 * i + 1, 2 * i + 1, k)),
                        GAMMAS_MONT@[i] as int,
                        Q as int,
                    )) % (Q as int)
                } else {
                    redc_spec(row_dot(a, b, 2 * i, 2 * i + 1, k) + row_dot(a, b, 2 * i + 1, 2 * i, k))
                }
            },
    )
}

/// Fused inner product of two length-`K` NTT-domain vectors under
/// BaseCaseMultiply: each output pair takes one reduction per
/// accumulated sum instead of one per product.
pub fn mul_ntt_acc<const K: usize>(out: &mut Poly<u32>, a_row: &[Poly<u32>; K], b_vec: &[Poly<u32>; K])
    requires
        K <= 16,
        forall|j: int| 0 <= j < K ==> poly_canonical(#[trigger] a_row@[j], Q as int),
        forall|j: int| 0 <= j < K ==> poly_canonical(#[trigger] b_vec@[j], Q as int),
    ensures
        forall|i: int|
            0 <= i < 128 ==> #[trigger] final(out).coeffs[2 * i] as int == (redc_spec(
                row_dot(polys_coeffs(a_row@), polys_coeffs(b_vec@), 2 * i, 2 * i, K as nat),
            ) + mont_mul_spec(
                redc_spec(row_dot(polys_coeffs(a_row@), polys_coeffs(b_vec@), 2 * i + 1, 2 * i + 1, K as nat)),
                GAMMAS_MONT@[i] as int,
                Q as int,
            )) % (Q as int),
        forall|i: int|
            0 <= i < 128 ==> #[trigger] final(out).coeffs[2 * i + 1] as int == redc_spec(
                row_dot(polys_coeffs(a_row@), polys_coeffs(b_vec@), 2 * i, 2 * i + 1, K as nat) + row_dot(polys_coeffs(a_row@), polys_coeffs(b_vec@),
                    2 * i + 1,
                    2 * i,
                    K as nat,
                ),
            ),
        as_ints(final(out).coeffs@) == acc_spec(polys_coeffs(a_row@), polys_coeffs(b_vec@), K as nat),
        poly_canonical(*final(out), Q as int),
{
    let ghost qq = (Q as int) * (Q as int);
    for i in 0..128usize
        invariant
            K <= 16,
            qq == (Q as int) * (Q as int),
            forall|j: int| 0 <= j < K ==> poly_canonical(#[trigger] a_row@[j], Q as int),
            forall|j: int| 0 <= j < K ==> poly_canonical(#[trigger] b_vec@[j], Q as int),
            forall|k: int|
                0 <= k < i ==> #[trigger] out.coeffs[2 * k] as int == (redc_spec(
                    row_dot(polys_coeffs(a_row@), polys_coeffs(b_vec@), 2 * k, 2 * k, K as nat),
                ) + mont_mul_spec(
                    redc_spec(row_dot(polys_coeffs(a_row@), polys_coeffs(b_vec@), 2 * k + 1, 2 * k + 1, K as nat)),
                    GAMMAS_MONT@[k] as int,
                    Q as int,
                )) % (Q as int),
            forall|k: int|
                0 <= k < i ==> #[trigger] out.coeffs[2 * k + 1] as int == redc_spec(
                    row_dot(polys_coeffs(a_row@), polys_coeffs(b_vec@), 2 * k, 2 * k + 1, K as nat) + row_dot(polys_coeffs(a_row@), polys_coeffs(b_vec@),
                        2 * k + 1,
                        2 * k,
                        K as nat,
                    ),
                ),
            forall|k: int| 0 <= k < 2 * i ==> #[trigger] out.coeffs[k] < Q,
            forall|k: int| 2 * i <= k < N ==> #[trigger] out.coeffs[k] == old(out).coeffs[k],
            poly_canonical(*old(out), Q as int) || true,
    {
        let mut a0b0: u64 = 0;
        let mut a1b1: u64 = 0;
        let mut c1: u64 = 0;
        for j in 0..K
            invariant
                K <= 16,
                i < 128,
                qq == (Q as int) * (Q as int),
                forall|jj: int| 0 <= jj < K ==> poly_canonical(#[trigger] a_row@[jj], Q as int),
                forall|jj: int| 0 <= jj < K ==> poly_canonical(#[trigger] b_vec@[jj], Q as int),
                a0b0 as int == row_dot(polys_coeffs(a_row@), polys_coeffs(b_vec@), (2 * i) as int, (2 * i) as int, j as nat),
                a1b1 as int == row_dot(polys_coeffs(a_row@), polys_coeffs(b_vec@),
                    (2 * i + 1) as int,
                    (2 * i + 1) as int,
                    j as nat,
                ),
                c1 as int == row_dot(polys_coeffs(a_row@), polys_coeffs(b_vec@), (2 * i) as int, (2 * i + 1) as int, j as nat)
                    + row_dot(polys_coeffs(a_row@), polys_coeffs(b_vec@), (2 * i + 1) as int, (2 * i) as int, j as nat),
                a0b0 <= j * qq,
                a1b1 <= j * qq,
                c1 <= 2 * j * qq,
        {
            let a0 = a_row[j].coeffs[2 * i];
            let a1 = a_row[j].coeffs[2 * i + 1];
            let b0 = b_vec[j].coeffs[2 * i];
            let b1 = b_vec[j].coeffs[2 * i + 1];
            proof {
                assert(a_row@[j as int].coeffs[(2 * i) as int] < Q);
                assert(a_row@[j as int].coeffs[(2 * i + 1) as int] < Q);
                assert(b_vec@[j as int].coeffs[(2 * i) as int] < Q);
                assert(b_vec@[j as int].coeffs[(2 * i + 1) as int] < Q);
                assert(a0 * b0 <= qq && a1 * b1 <= qq && a0 * b1 <= qq && a1 * b0 <= qq)
                    by (nonlinear_arith)
                    requires
                        a0 < Q,
                        a1 < Q,
                        b0 < Q,
                        b1 < Q,
                        qq == (Q as int) * (Q as int),
                ;
                assert(j * qq + qq == (j + 1) * qq) by (nonlinear_arith);
                assert(2 * j * qq + 2 * qq == 2 * (j + 1) * qq) by (nonlinear_arith);
                assert(2 * (j + 1) * qq <= 2 * 16 * qq) by (nonlinear_arith)
                    requires
                        j < 16,
                        qq > 0,
                ;
                assert((j + 1) * qq <= 16 * qq) by (nonlinear_arith)
                    requires
                        j < 16,
                        qq > 0,
                ;
                assert(qq == 11082241);
            }
            a0b0 = mul_acc(a0b0, a0, b0);
            a1b1 = mul_acc(a1b1, a1, b1);
            c1 = mul_acc(c1, a0, b1);
            c1 = mul_acc(c1, a1, b0);
        }
        proof {
            lemma_gammas_canonical(i as int);
            assert(K * qq < (Q as int) * mont_r()) by (nonlinear_arith)
                requires
                    K <= 16,
                    qq == (Q as int) * (Q as int),
            ;
            assert(2 * K * qq < (Q as int) * mont_r()) by (nonlinear_arith)
                requires
                    K <= 16,
                    qq == (Q as int) * (Q as int),
            ;
        }
        let s0 = redc(a0b0, Q, Q_N_PRIME);
        let s1 = redc(a1b1, Q, Q_N_PRIME);
        proof {
            assert((s1 as int) * (GAMMAS_MONT@[i as int] as int) < (Q as int) * mont_r())
                by (nonlinear_arith)
                requires
                    s1 < Q,
                    GAMMAS_MONT@[i as int] < Q,
            ;
        }
        let s1g = mul_mont(s1, GAMMAS_MONT[i], Q, Q_N_PRIME);
        out.coeffs[2 * i] = add_mod(s0, s1g, Q);
        out.coeffs[2 * i + 1] = redc(c1, Q, Q_N_PRIME);
    }
    proof {
        let pa = polys_coeffs(a_row@);
        let pb = polys_coeffs(b_vec@);
        assert forall|c: int| 0 <= c < N implies #[trigger] as_ints(out.coeffs@)[c] == acc_spec(
            pa,
            pb,
            K as nat,
        )[c] by {
            let i = c / 2;
            if c % 2 == 0 {
                assert(c == 2 * i);
                assert(out.coeffs[2 * i] as int == (redc_spec(row_dot(pa, pb, 2 * i, 2 * i, K as nat))
                    + mont_mul_spec(
                    redc_spec(row_dot(pa, pb, 2 * i + 1, 2 * i + 1, K as nat)),
                    GAMMAS_MONT@[i] as int,
                    Q as int,
                )) % (Q as int));
            } else {
                assert(c == 2 * i + 1);
                assert(out.coeffs[2 * i + 1] as int == redc_spec(
                    row_dot(pa, pb, 2 * i, 2 * i + 1, K as nat) + row_dot(pa, pb, 2 * i + 1, 2 * i, K as nat),
                ));
            }
        }
        assert(as_ints(out.coeffs@) =~= acc_spec(pa, pb, K as nat));
    }
}

} // verus!

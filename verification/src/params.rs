//! ML-DSA scheme parameters (FIPS 204 §4, Table 1) and the conversions
//! between the canonical `[0, q)` and centered `(-q/2, q/2]`
//! representatives of `Z_q`.

use vstd::prelude::*;

use crate::ct::{lemma_blend, lemma_lt_bit, lemma_neg_bit, lemma_nonzero_bit};

verus! {

/// Modulus q = 2^23 - 2^13 + 1.
pub const Q: u32 = 8_380_417;

/// `-Q^-1 mod 2^32`, used by the Montgomery REDC.
pub const Q_N_PRIME: u32 = 4_236_238_847;

/// `R^2 mod Q` = `2^64 mod Q`, used by canonical-to-Montgomery conversion.
pub const Q_R2_MOD_Q: u32 = 2_365_951;

/// `R mod Q` = `2^32 mod Q`, the Montgomery form of 1.
pub const Q_R_MOD_Q: u32 = 4_193_792;

/// Polynomial degree.
pub const N: usize = 256;

/// 512-th principal root of unity mod q used by the NTT.
pub const ZETA: u32 = 1753;

/// Number of dropped bits in Power2Round.
pub const D: u32 = 13;

/// SHAKE-256 expansion buffer for keygen's seed bundle.
pub const SEED_EXPAND_BYTES: usize = 128;

/// Worst-case `c_tilde` length across the three sets.
pub const MAX_CTILDE_BYTES: usize = 64;

/// Worst-case packed `w1` length across the three sets.
pub const MAX_W1_PACKED_BYTES: usize = 1024;

/// The element of `Z_q` denoted by an integer: its canonical residue.
pub open spec fn canon(x: int, q: int) -> int {
    x % q
}

/// Centered representative of a canonical residue.
pub open spec fn centered(x: int, q: int) -> int {
    if x > q / 2 {
        x - q
    } else {
        x
    }
}

/// Absolute value of the centered representative.
pub open spec fn abs_centered_spec(x: int, q: int) -> int {
    if x <= q - x {
        x
    } else {
        q - x
    }
}

proof fn lemma_sign_mask(x: i32)
    ensures
        (x >> 31i32) as u32 == (if x < 0 { 0xFFFF_FFFFu32 } else { 0u32 }),
{
    assert((x >> 31i32) as u32 == (if x < 0 { 0xFFFF_FFFFu32 } else { 0u32 })) by (bit_vector);
}

proof fn lemma_abs_via_mask(x: i32, m: u32)
    requires
        x > i32::MIN,
        m == (if x < 0 { 0xFFFF_FFFFu32 } else { 0u32 }),
    ensures
        ((x as u32) ^ m).wrapping_sub(m) as int == (if x < 0 { -(x as int) } else { x as int }),
{
    let a = ((x as u32) ^ m).wrapping_sub(m);
    assert(a == (if x < 0 { (-x) as u32 } else { x as u32 })) by (bit_vector)
        requires
            x > i32::MIN,
            m == (if x < 0 { 0xFFFF_FFFFu32 } else { 0u32 }),
            a == ((x as u32) ^ m).wrapping_sub(m),
    ;
}

proof fn lemma_u32_as_i32(u: u32)
    ensures
        (u as i32) as int == (if u < 0x8000_0000 { u as int } else { u as int - 0x1_0000_0000 }),
{
    assert((u < 0x8000_0000 ==> (u as i32) == u) && (u >= 0x8000_0000 ==> (u as i32) < 0) && (u
        >= 0x8000_0000 ==> (u as i32) as u32 == u)) by (bit_vector);
    if u >= 0x8000_0000 {
        let v = u as i32;
        assert((v as u32) as int == v + 0x1_0000_0000) by (bit_vector)
            requires
                v < 0,
        ;
    }
}

/// Centered → canonical: the residue of `x` modulo `q`, for `|x| < 2q`.
/// Branchless: the sign of `x` selects between `|x|` and `q - |x|`
/// through masks.
pub fn from_signed(x: i32, q: u32) -> (r: u32)
    requires
        0 < q < 0x4000_0000,
        -2 * (q as int) < x < 2 * (q as int),
    ensures
        r == canon(x as int, q as int),
        r < q,
{
    proof {
        lemma_sign_mask(x);
    }
    let neg_mask = (x >> 31i32) as u32;
    proof {
        lemma_abs_via_mask(x, neg_mask);
    }
    let abs = ((x as u32) ^ neg_mask).wrapping_sub(neg_mask);
    proof {
        lemma_lt_bit(abs, q);
    }
    let ge_bit = ((abs.wrapping_sub(q) >> 31u32) ^ 1u32) & 1u32;
    proof {
        lemma_neg_bit(ge_bit);
    }
    let geq_q = 0u32.wrapping_sub(ge_bit);
    proof {
        lemma_blend(q, 0, geq_q);
    }
    let abs_red = abs.wrapping_sub(q & geq_q);
    assert(abs_red < q);
    proof {
        lemma_nonzero_bit(abs_red);
    }
    let nz = (abs_red | 0u32.wrapping_sub(abs_red)) >> 31u32;
    let zero_mask = nz.wrapping_sub(1);
    assert(zero_mask == (if abs_red == 0 { 0xFFFF_FFFFu32 } else { 0u32 }));
    proof {
        lemma_blend(q.wrapping_sub(abs_red), 0, zero_mask);
    }
    let neg = q.wrapping_sub(abs_red) & !zero_mask;
    assert(neg == (if abs_red == 0 { 0 } else { q - abs_red }));
    proof {
        lemma_blend(abs_red, neg, neg_mask);
    }
    let r = (abs_red & !neg_mask) | (neg & neg_mask);
    proof {
        let qq = q as int;
        let xi = x as int;
        if x >= 0 {
            assert(r == abs_red);
            if xi >= qq {
                vstd::arithmetic::div_mod::lemma_fundamental_div_mod_converse(xi, qq, 1, xi - qq);
            } else {
                vstd::arithmetic::div_mod::lemma_fundamental_div_mod_converse(xi, qq, 0, xi);
            }
        } else {
            assert(r == neg);
            if abs_red == 0 {
                vstd::arithmetic::div_mod::lemma_fundamental_div_mod_converse(xi, qq, -1, 0);
            } else if -xi >= qq {
                vstd::arithmetic::div_mod::lemma_fundamental_div_mod_converse(
                    xi,
                    qq,
                    -2,
                    xi + 2 * qq,
                );
            } else {
                vstd::arithmetic::div_mod::lemma_fundamental_div_mod_converse(
                    xi,
                    qq,
                    -1,
                    xi + qq,
                );
            }
        }
    }
    r
}

/// Canonical `[0, q)` → centered `(-q/2, q/2]`. Branchless.
pub fn to_signed(x: u32, q: u32) -> (r: i32)
    requires
        0 < q < 0x4000_0000,
        x < q,
    ensures
        r as int == centered(x as int, q as int),
{
    let half = q / 2;
    proof {
        lemma_lt_bit(half, x);
    }
    let in_high = (half.wrapping_sub(x) >> 31u32) & 1u32;
    proof {
        lemma_neg_bit(in_high);
    }
    let mask = 0u32.wrapping_sub(in_high);
    let x_minus_q = x.wrapping_sub(q);
    proof {
        lemma_blend(x, x_minus_q, mask);
    }
    let u = (x & !mask) | (x_minus_q & mask);
    proof {
        lemma_u32_as_i32(u);
    }
    u as i32
}

/// Absolute value of the centered representative: `min(x, q - x)` for
/// `x < q`. Branchless.
pub fn abs_centered(x: u32, q: u32) -> (r: u32)
    requires
        0 < q < 0x4000_0000,
        x < q,
    ensures
        r as int == abs_centered_spec(x as int, q as int),
{
    let q_minus_x = q - x;
    proof {
        lemma_lt_bit(q_minus_x, x);
    }
    let take = (q_minus_x.wrapping_sub(x) >> 31u32) & 1u32;
    proof {
        lemma_neg_bit(take);
    }
    let mask = 0u32.wrapping_sub(take);
    proof {
        lemma_blend(x, q_minus_x, mask);
    }
    (x & !mask) | (q_minus_x & mask)
}

/// Converting a canonical residue to its centered representative and
/// back gives the residue again.
pub proof fn lemma_signed_roundtrip(x: int, q: int)
    requires
        0 <= x < q,
    ensures
        canon(centered(x, q), q) == x,
{
    if x > q / 2 {
        vstd::arithmetic::div_mod::lemma_fundamental_div_mod_converse(x - q, q, -1, x);
    } else {
        vstd::arithmetic::div_mod::lemma_fundamental_div_mod_converse(x, q, 0, x);
    }
}

/// The centered representative lies in `(-q/2, q/2]` and is congruent
/// to its argument.
pub proof fn lemma_centered_range(x: int, q: int)
    requires
        0 <= x < q,
    ensures
        -(q / 2) <= centered(x, q) <= q / 2,
        abs_centered_spec(x, q) == (if centered(x, q) < 0 { -centered(x, q) } else { centered(
            x,
            q,
        ) }) || q % 2 == 0,
{
}

/// ML-DSA `eta`: the secret coefficient bound, 2 or 4.
#[derive(Clone, Copy, Debug, PartialEq, Eq)]
pub enum Eta {
    Eta2,
    Eta4,
}

impl Eta {
    pub open spec fn spec_value(self) -> u32 {
        match self {
            Eta::Eta2 => 2,
            Eta::Eta4 => 4,
        }
    }

    /// Numeric value (2 or 4).
    #[verifier::when_used_as_spec(spec_value)]
    pub fn value(self) -> (v: u32)
        ensures
            v == self.spec_value(),
    {
        match self {
            Eta::Eta2 => 2,
            Eta::Eta4 => 4,
        }
    }
}

/// Per-set ML-DSA constants. `K` (rows) and `L` (columns) are const
/// generics so vectors and matrices are sized at compile time.
#[derive(Clone, Copy, Debug)]
pub struct Params<const K: usize, const L: usize> {
    pub eta: Eta,
    pub tau: usize,
    pub beta: u32,
    pub gamma1: u32,
    pub gamma1_bits: usize,
    pub gamma2: u32,
    pub omega: usize,
    pub lambda: usize,
    pub w1_bits: usize,
    pub pk_bytes: usize,
    pub sk_bytes: usize,
    pub sig_bytes: usize,
    pub ctilde_bytes: usize,
}

/// Number of bits of `a`: `ceil(log2(a + 1))`.
pub open spec fn bitlen_spec(a: nat) -> nat
    decreases a,
{
    if a == 0 {
        0
    } else {
        1 + bitlen_spec(a / 2)
    }
}

/// Bit width of the `[-eta, eta]` packing: `bitlen(2 * eta)`.
pub fn eta_bits(eta: u32) -> (n: usize)
    requires
        eta <= 0x4000_0000,
    ensures
        n == bitlen_spec(2 * eta as nat),
{
    let mut a: u32 = 2 * eta;
    let mut n: usize = 0;
    proof {
        lemma_bitlen_bound(a as nat);
    }
    while a > 0
        invariant
            bitlen_spec(2 * eta as nat) == n + bitlen_spec(a as nat),
            n <= 32 - bitlen_spec(a as nat),
            bitlen_spec(a as nat) <= 32,
        decreases a,
    {
        proof {
            lemma_bitlen_bound(a as nat);
        }
        n += 1;
        a = a / 2;
    }
    n
}

proof fn lemma_bitlen_bound(a: nat)
    requires
        a < 0x1_0000_0000,
    ensures
        bitlen_spec(a) <= 32,
        a > 0 ==> bitlen_spec(a / 2) < bitlen_spec(a),
{
    vstd::arithmetic::power2::lemma2_to64();
    lemma_bitlen_le(a, 32);
}

/// `a < 2^k` implies `bitlen(a) <= k`.
pub proof fn lemma_bitlen_le(a: nat, k: nat)
    requires
        a < vstd::arithmetic::power2::pow2(k),
    ensures
        bitlen_spec(a) <= k,
    decreases k,
{
    if a > 0 {
        if k == 0 {
            vstd::arithmetic::power2::lemma2_to64();
        } else {
            vstd::arithmetic::power2::lemma_pow2_unfold(k);
            lemma_bitlen_le(a / 2, (k - 1) as nat);
        }
    }
}

/// Public-key length: `32 + 32 * k * 10`.
pub open spec fn pk_bytes_spec(k: int) -> int {
    32 + 32 * k * 10
}

/// Secret-key length.
pub open spec fn sk_bytes_spec(k: int, l: int, eta: nat) -> int {
    32 + 32 + 64 + 32 * ((k + l) * bitlen_spec(2 * eta) + (D as int) * k)
}

/// Signature length.
pub open spec fn sig_bytes_spec(k: int, l: int, lambda: int, gamma1_bits: int, omega: int) -> int {
    lambda / 4 + l * 32 * (1 + gamma1_bits) + omega + k
}

pub fn pk_bytes(k: usize) -> (r: usize)
    requires
        k <= 8,
    ensures
        r == pk_bytes_spec(k as int),
{
    32 + 32 * k * 10
}

pub fn sk_bytes(k: usize, l: usize, eta: u32) -> (r: usize)
    requires
        k <= 8,
        l <= 8,
        eta <= 8,
    ensures
        r == sk_bytes_spec(k as int, l as int, eta as nat),
{
    proof {
        vstd::arithmetic::power2::lemma2_to64();
        lemma_bitlen_le(2 * eta as nat, 5);
    }
    let eb = eta_bits(eta);
    assert((k + l) * eb <= 16 * 5) by (nonlinear_arith)
        requires
            k + l <= 16,
            eb <= 5,
    ;
    assert(32 * ((k + l) * eb + 13 * k) <= 32 * (80 + 104)) by (nonlinear_arith)
        requires
            (k + l) * eb <= 80,
            k <= 8,
    ;
    32 + 32 + 64 + 32 * ((k + l) * eb + (D as usize) * k)
}

pub fn sig_bytes(k: usize, l: usize, lambda: usize, gamma1_bits: usize, omega: usize) -> (r: usize)
    requires
        k <= 8,
        l <= 8,
        lambda <= 256,
        gamma1_bits <= 32,
        omega <= 256,
    ensures
        r == sig_bytes_spec(k as int, l as int, lambda as int, gamma1_bits as int, omega as int),
{
    assert(l * 32 * (1 + gamma1_bits) <= 8 * 32 * 33) by (nonlinear_arith)
        requires
            l <= 8,
            gamma1_bits <= 32,
    ;
    lambda / 4 + l * 32 * (1 + gamma1_bits) + omega + k
}

/// The well-formedness shared by the three ML-DSA parameter sets.
pub open spec fn dsa_params_ok<const K: usize, const L: usize>(p: Params<K, L>) -> bool {
    &&& 1 <= K <= 8
    &&& 1 <= L <= 8
    &&& (p.gamma2 == 95232 || p.gamma2 == 261888)
    &&& (p.gamma1_bits == 17 || p.gamma1_bits == 19)
    &&& p.gamma1 == vstd::arithmetic::power2::pow2(p.gamma1_bits as nat)
    &&& p.beta == p.tau * p.eta.spec_value()
    &&& p.beta < p.gamma1
    &&& p.tau <= 60
    &&& p.omega <= 80
    &&& (p.w1_bits == 6 || p.w1_bits == 4)
    &&& p.w1_bits == (if p.gamma2 == 95232 { 6usize } else { 4usize })
    &&& p.ctilde_bytes == p.lambda / 4
    &&& (p.lambda == 128 || p.lambda == 192 || p.lambda == 256)
    &&& p.pk_bytes == pk_bytes_spec(K as int)
    &&& p.sk_bytes == sk_bytes_spec(K as int, L as int, p.eta.spec_value() as nat)
    &&& p.sig_bytes == sig_bytes_spec(
        K as int,
        L as int,
        p.lambda as int,
        p.gamma1_bits as int,
        p.omega as int,
    )
    &&& K * 32 * p.w1_bits <= MAX_W1_PACKED_BYTES
}

/// The ML-DSA-44 parameter set.
pub open spec fn ml_dsa_44_spec() -> Params<4, 4> {
    Params {
        eta: Eta::Eta2,
        tau: 39,
        beta: 78,
        gamma1: 131072,
        gamma1_bits: 17,
        gamma2: 95232,
        omega: 80,
        lambda: 128,
        w1_bits: 6,
        pk_bytes: 1312,
        sk_bytes: 2560,
        sig_bytes: 2420,
        ctilde_bytes: 32,
    }
}

/// ML-DSA-44 (k=4, l=4, eta=2, gamma1=2^17, gamma2=(q-1)/88).
#[verifier::spinoff_prover]
pub fn ml_dsa_44_params() -> (p: Params<4, 4>)
    ensures
        p == ml_dsa_44_spec(),
        dsa_params_ok(p),
        p.eta == Eta::Eta2,
        p.tau == 39,
        p.gamma1_bits == 17,
        p.gamma2 == 95232,
        p.omega == 80,
        p.lambda == 128,
{
    proof {
        lemma_pow2_values();
        reveal_with_fuel(bitlen_spec, 5);
    }
    Params {
        eta: Eta::Eta2,
        tau: 39,
        beta: 78,
        gamma1: 131072,
        gamma1_bits: 17,
        gamma2: 95232,
        omega: 80,
        lambda: 128,
        w1_bits: 6,
        pk_bytes: 1312,
        sk_bytes: 2560,
        sig_bytes: 2420,
        ctilde_bytes: 32,
    }
}

/// The ML-DSA-65 parameter set.
pub open spec fn ml_dsa_65_spec() -> Params<6, 5> {
    Params {
        eta: Eta::Eta4,
        tau: 49,
        beta: 196,
        gamma1: 524288,
        gamma1_bits: 19,
        gamma2: 261888,
        omega: 55,
        lambda: 192,
        w1_bits: 4,
        pk_bytes: 1952,
        sk_bytes: 4032,
        sig_bytes: 3309,
        ctilde_bytes: 48,
    }
}

/// ML-DSA-65 (k=6, l=5, eta=4, gamma1=2^19, gamma2=(q-1)/32).
#[verifier::spinoff_prover]
pub fn ml_dsa_65_params() -> (p: Params<6, 5>)
    ensures
        p == ml_dsa_65_spec(),
        dsa_params_ok(p),
        p.eta == Eta::Eta4,
        p.tau == 49,
        p.gamma1_bits == 19,
        p.gamma2 == 261888,
        p.omega == 55,
        p.lambda == 192,
{
    proof {
        lemma_pow2_values();
        reveal_with_fuel(bitlen_spec, 5);
    }
    let p = Params {
        eta: Eta::Eta4,
        tau: 49,
        beta: 196,
        gamma1: 524288,
        gamma1_bits: 19,
        gamma2: 261888,
        omega: 55,
        lambda: 192,
        w1_bits: 4,
        pk_bytes: 1952,
        sk_bytes: 4032,
        sig_bytes: 3309,
        ctilde_bytes: 48,
    };
    assert(p.pk_bytes == pk_bytes_spec(6));
    assert(p.sk_bytes == sk_bytes_spec(6, 5, 4));
    assert(p.sig_bytes == sig_bytes_spec(6, 5, 192, 19, 55));
    assert(p.beta == p.tau * p.eta.spec_value());
    p
}

/// The ML-DSA-87 parameter set.
pub open spec fn ml_dsa_87_spec() -> Params<8, 7> {
    Params {
        eta: Eta::Eta2,
        tau: 60,
        beta: 120,
        gamma1: 524288,
        gamma1_bits: 19,
        gamma2: 261888,
        omega: 75,
        lambda: 256,
        w1_bits: 4,
        pk_bytes: 2592,
        sk_bytes: 4896,
        sig_bytes: 4627,
        ctilde_bytes: 64,
    }
}

/// ML-DSA-87 (k=8, l=7, eta=2, gamma1=2^19, gamma2=(q-1)/32).
#[verifier::spinoff_prover]
pub fn ml_dsa_87_params() -> (p: Params<8, 7>)
    ensures
        p == ml_dsa_87_spec(),
        dsa_params_ok(p),
        p.eta == Eta::Eta2,
        p.tau == 60,
        p.gamma1_bits == 19,
        p.gamma2 == 261888,
        p.omega == 75,
        p.lambda == 256,
{
    proof {
        lemma_pow2_values();
        reveal_with_fuel(bitlen_spec, 5);
    }
    let p = Params {
        eta: Eta::Eta2,
        tau: 60,
        beta: 120,
        gamma1: 524288,
        gamma1_bits: 19,
        gamma2: 261888,
        omega: 75,
        lambda: 256,
        w1_bits: 4,
        pk_bytes: 2592,
        sk_bytes: 4896,
        sig_bytes: 4627,
        ctilde_bytes: 64,
    };
    assert(p.pk_bytes == pk_bytes_spec(8));
    assert(p.sk_bytes == sk_bytes_spec(8, 7, 2));
    assert(p.sig_bytes == sig_bytes_spec(8, 7, 256, 19, 75));
    assert(p.beta == p.tau * p.eta.spec_value());
    p
}

proof fn lemma_pow2_values()
    ensures
        vstd::arithmetic::power2::pow2(17) == 131072,
        vstd::arithmetic::power2::pow2(19) == 524288,
{
    vstd::arithmetic::power2::lemma2_to64();
}

} // verus!

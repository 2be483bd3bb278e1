//! Rounding helpers used by ML-DSA verify (FIPS 204 §8): [`decompose`]
//! / [`high_bits`] / [`low_bits`] and [`use_hint`].
//!
//! Per-coefficient timing is independent of the input: the selects are
//! mask blends, and the division by `2 * gamma2` is a Barrett reduction
//! whose factor is picked from `gamma2` by another blend.

use vstd::arithmetic::div_mod::*;
use vstd::bits::lemma_u64_shr_is_div;
use vstd::prelude::*;

use crate::ct::{lemma_blend, lemma_lt_bit, lemma_neg_bit, lemma_nonzero_bit};
use crate::field::sub_mod;
use crate::params::{canon, centered, Q};

verus! {

/// `gamma2 = (q - 1) / 88`, used by ML-DSA-44.
pub const GAMMA2_88: u32 = 95232;

/// `gamma2 = (q - 1) / 32`, used by ML-DSA-65 and ML-DSA-87.
pub const GAMMA2_32: u32 = 261888;

/// The two `gamma2` values of the ML-DSA parameter sets.
pub open spec fn gamma2_ok(g: int) -> bool {
    g == 95232 || g == 261888
}

/// `r mod± 2g`: the representative of `r` modulo `2g` in `(-g, g]`.
pub open spec fn centered_rem(r: int, g: int) -> int {
    let r0u = r % (2 * g);
    if r0u > g {
        r0u - 2 * g
    } else {
        r0u
    }
}

/// Decompose (FIPS 204 Alg 36) on `r` in `[0, q)`: `(r1, r0)` with `r0`
/// given as its canonical residue.
pub open spec fn decompose_spec(r: int, g: int) -> (int, int) {
    let r0 = centered_rem(r, g);
    if r - r0 == Q - 1 {
        (0, canon(r0 - 1, Q as int))
    } else {
        ((r - r0) / (2 * g), canon(r0, Q as int))
    }
}

/// `(q - 1) / (2 * gamma2)`: the number of high-bit values.
pub open spec fn hint_modulus(g: int) -> int {
    (Q - 1) / (2 * g)
}

/// UseHint (FIPS 204 Alg 40) with the hint bit taken as `h mod 2`.
pub open spec fn use_hint_spec(h: int, r: int, g: int) -> int {
    let m = hint_modulus(g);
    let (r1, r0) = decompose_spec(r, g);
    if h % 2 == 1 {
        if 0 < r0 <= Q / 2 {
            (r1 + 1) % m
        } else {
            (r1 + m - 1) % m
        }
    } else {
        r1
    }
}

/// `x == c` as a bit, computed without a branch.
fn eq_bit(x: u32, c: u32) -> (b: u32)
    ensures
        b == (if x == c { 1u32 } else { 0u32 }),
{
    let d = x ^ c;
    proof {
        lemma_nonzero_bit(d);
        assert(d == 0 <==> x == c) by (bit_vector)
            requires
                d == x ^ c,
        ;
    }
    let nz = (d | 0u32.wrapping_sub(d)) >> 31u32;
    assert(nz <= 1 ==> nz ^ 1u32 == (if nz == 0 { 1u32 } else { 0u32 })) by (bit_vector);
    nz ^ 1u32
}

/// Barrett factor `floor(2^32 / (2 * gamma2))`, picked by a mask blend.
fn barrett_2gamma2(gamma2: u32) -> (bf: u32)
    requires
        gamma2_ok(gamma2 as int),
    ensures
        bf == (if gamma2 == GAMMA2_88 { 22550u32 } else { 8200u32 }),
{
    let is_88 = eq_bit(gamma2, GAMMA2_88);
    proof {
        lemma_neg_bit(is_88);
    }
    let mask_88 = 0u32.wrapping_sub(is_88);
    proof {
        lemma_blend(22550u32, 8200u32, mask_88);
    }
    (22550u32 & mask_88) | (8200u32 & !mask_88)
}

/// `(q - 1) / (2 * gamma2)`, picked by a mask blend.
fn use_hint_m(gamma2: u32) -> (m: u32)
    requires
        gamma2_ok(gamma2 as int),
    ensures
        m == hint_modulus(gamma2 as int),
        m == (if gamma2 == GAMMA2_88 { 44u32 } else { 16u32 }),
{
    let is_88 = eq_bit(gamma2, GAMMA2_88);
    proof {
        lemma_neg_bit(is_88);
    }
    let mask_88 = 0u32.wrapping_sub(is_88);
    proof {
        lemma_blend(44u32, 16u32, mask_88);
        if gamma2 == GAMMA2_88 {
            lemma_fundamental_div_mod_converse(8380416, 190464, 44, 0);
            assert(hint_modulus(gamma2 as int) == 44);
        } else {
            lemma_fundamental_div_mod_converse(8380416, 523776, 16, 0);
            assert(hint_modulus(gamma2 as int) == 16);
        }
    }
    (44u32 & mask_88) | (16u32 & !mask_88)
}

/// The Barrett quotient estimate is the true quotient or one less.
proof fn lemma_barrett_estimate(x: int, two_g: int, bf: int, t: int)
    requires
        0 <= x < 0x100_0000,
        (two_g == 190464 && bf == 22550) || (two_g == 523776 && bf == 8200),
        t == (x * bf) / 0x1_0000_0000,
    ensures
        x / two_g - 1 <= t <= x / two_g,
        t >= 0,
{
    let qq = x / two_g;
    let rr = x % two_g;
    lemma_fundamental_div_mod(x, two_g);
    lemma_mod_bound(x, two_g);
    assert(0 <= qq <= 88) by {
        lemma_div_is_ordered(x, 0x100_0000, two_g);
        lemma_div_pos_is_pos(x, two_g);
    }
    assert(two_g * bf == 0x1_0000_0000 - 4096);
    assert(x * bf == qq * 0x1_0000_0000 - qq * 4096 + rr * bf) by (nonlinear_arith)
        requires
            x == two_g * qq + rr,
            two_g * bf == 0x1_0000_0000 - 4096,
    ;
    assert(rr * bf < 0x1_0000_0000) by (nonlinear_arith)
        requires
            0 <= rr < two_g,
            two_g * bf == 0x1_0000_0000 - 4096,
            bf > 0,
    ;
    assert(rr * bf >= 0) by (nonlinear_arith)
        requires
            0 <= rr,
            bf > 0,
    ;
    lemma_fundamental_div_mod(x * bf, 0x1_0000_0000);
    lemma_mod_bound(x * bf, 0x1_0000_0000);
    assert(x * bf >= 0) by (nonlinear_arith)
        requires
            x >= 0,
            bf > 0,
    ;
    lemma_div_pos_is_pos(x * bf, 0x1_0000_0000);
}

/// `(x / two_g, x % two_g)` by Barrett reduction, for `x < 2^24`.
fn barrett_div_rem(x: u32, two_g: u32, bf: u32) -> (res: (u32, u32))
    requires
        x < 0x100_0000,
        (two_g == 190464 && bf == 22550) || (two_g == 523776 && bf == 8200),
    ensures
        res.0 == x / two_g,
        res.1 == x % two_g,
{
    let prod: u64 = (x as u64) * (bf as u64);
    proof {
        lemma_u64_shr_is_div(prod, 32);
        vstd::arithmetic::power2::lemma2_to64();
        lemma_barrett_estimate(x as int, two_g as int, bf as int, (prod / 0x1_0000_0000) as int);
    }
    let q_est = (prod >> 32u64) as u32;
    proof {
        lemma_fundamental_div_mod(x as int, two_g as int);
        lemma_mod_bound(x as int, two_g as int);
        assert(q_est * two_g <= x) by (nonlinear_arith)
            requires
                q_est <= x / two_g,
                x == two_g * (x / two_g) + x % two_g,
                x % two_g >= 0,
                two_g > 0,
        ;
        assert(x - q_est * two_g < 2 * two_g) by (nonlinear_arith)
            requires
                q_est >= x / two_g - 1,
                x == two_g * (x / two_g) + x % two_g,
                x % two_g < two_g,
                two_g > 0,
        ;
    }
    let r_unred = x - q_est * two_g;
    proof {
        lemma_lt_bit(r_unred, two_g);
    }
    let needs_sub = (r_unred.wrapping_sub(two_g) >> 31u32) ^ 1u32;
    proof {
        lemma_neg_bit(needs_sub);
    }
    let mask = 0u32.wrapping_sub(needs_sub);
    proof {
        lemma_blend(two_g, 0, mask);
    }
    let r = r_unred - (two_g & mask);
    let q = q_est + needs_sub;
    proof {
        lemma_fundamental_div_mod_converse(x as int, two_g as int, q as int, r as int);
    }
    (q, r)
}

/// Decompose (FIPS 204 Alg 36). Returns `(r1, r0)` with `r1` in
/// `[0, (q-1)/(2*gamma2))` and `r0` the canonical residue of the
/// centered low part.
pub fn decompose(r: u32, gamma2: u32) -> (res: (u32, u32))
    requires
        r < Q,
        gamma2_ok(gamma2 as int),
    ensures
        (res.0 as int, res.1 as int) == decompose_spec(r as int, gamma2 as int),
        res.1 < Q,
{
    let two_g = 2 * gamma2;
    let bf = barrett_2gamma2(gamma2);
    let (_, r0_u) = barrett_div_rem(r, two_g, bf);
    proof {
        lemma_lt_bit(gamma2, r0_u);
    }
    let sign_neg = (gamma2.wrapping_sub(r0_u) >> 31u32) & 1u32;
    proof {
        lemma_neg_bit(sign_neg);
    }
    let sign_mask = 0u32.wrapping_sub(sign_neg);
    let neg_r0 = Q.wrapping_sub(two_g.wrapping_sub(r0_u));
    proof {
        lemma_blend(r0_u, neg_r0, sign_mask);
        lemma_blend(two_g, 0, sign_mask);
    }
    let r0_canon0 = (r0_u & !sign_mask) | (neg_r0 & sign_mask);
    let diff = r.wrapping_sub(r0_u).wrapping_add(two_g & sign_mask);
    let ghost r0 = centered_rem(r as int, gamma2 as int);
    proof {
        lemma_mod_bound(r as int, two_g as int);
        assert(r0_u as int == (r as int) % (2 * gamma2 as int));
        assert(r0_u <= r) by {
            lemma_mod_is_mod_recursive(r as int, two_g as int);
            lemma_fundamental_div_mod(r as int, two_g as int);
            lemma_div_pos_is_pos(r as int, two_g as int);
            assert((two_g as int) * (r as int / two_g as int) >= 0) by (nonlinear_arith)
                requires
                    r as int / two_g as int >= 0,
                    two_g > 0,
            ;
        }
        assert(diff as int == r - r0);
        if gamma2 < r0_u {
            assert(r0_canon0 as int == Q - (two_g - r0_u));
            vstd::arithmetic::div_mod::lemma_fundamental_div_mod_converse(
                r0,
                Q as int,
                -1,
                r0 + Q,
            );
            assert(r0_canon0 as int == canon(r0, Q as int));
        } else {
            vstd::arithmetic::div_mod::lemma_fundamental_div_mod_converse(r0, Q as int, 0, r0);
            assert(r0_canon0 as int == canon(r0, Q as int));
        }
    }
    let wrap = eq_bit(diff, Q - 1);
    proof {
        lemma_neg_bit(wrap);
    }
    let wrap_mask = 0u32.wrapping_sub(wrap);
    let (r1_nowrap, _) = barrett_div_rem(diff, two_g, bf);
    let r0_minus1 = sub_mod(r0_canon0, 1, Q);
    proof {
        lemma_blend(r1_nowrap, 0, wrap_mask);
        lemma_blend(r0_canon0, r0_minus1, wrap_mask);
        if diff == Q - 1 {
            lemma_mod_sub_one(r0, r0_canon0 as int);
        }
    }
    let r1 = r1_nowrap & !wrap_mask;
    let r0_canon = (r0_canon0 & !wrap_mask) | (r0_minus1 & wrap_mask);
    (r1, r0_canon)
}

/// `(x mod q) - 1 mod q == (x - 1) mod q`.
proof fn lemma_mod_sub_one(x: int, xc: int)
    requires
        xc == canon(x, Q as int),
    ensures
        (xc - 1) % (Q as int) == canon(x - 1, Q as int),
{
    lemma_sub_mod_noop(x, 1, Q as int);
    lemma_small_mod(1, Q as nat);
}

/// HighBits (FIPS 204 Alg 37).
pub fn high_bits(r: u32, gamma2: u32) -> (r1: u32)
    requires
        r < Q,
        gamma2_ok(gamma2 as int),
    ensures
        r1 as int == decompose_spec(r as int, gamma2 as int).0,
{
    decompose(r, gamma2).0
}

/// LowBits (FIPS 204 Alg 38), as a canonical residue.
pub fn low_bits(r: u32, gamma2: u32) -> (r0: u32)
    requires
        r < Q,
        gamma2_ok(gamma2 as int),
    ensures
        r0 as int == decompose_spec(r as int, gamma2 as int).1,
{
    decompose(r, gamma2).1
}

/// The centered remainder lies in `(-g, g]` and differs from `r` by a
/// multiple of `2g`.
proof fn lemma_centered_rem(r: int, g: int)
    requires
        0 <= r < Q,
        gamma2_ok(g),
    ensures
        -g < centered_rem(r, g) <= g,
        (r - centered_rem(r, g)) % (2 * g) == 0,
        r - centered_rem(r, g) >= 0,
{
    let tg = 2 * g;
    let r0u = r % tg;
    let qq = r / tg;
    lemma_fundamental_div_mod(r, tg);
    lemma_mod_bound(r, tg);
    lemma_div_pos_is_pos(r, tg);
    if r0u > g {
        lemma_mod_multiples_basic(qq + 1, tg);
        assert(r - centered_rem(r, g) == (qq + 1) * tg) by (nonlinear_arith)
            requires
                r == tg * qq + r0u,
                centered_rem(r, g) == r0u - tg,
        ;
    } else {
        lemma_mod_multiples_basic(qq, tg);
        assert(r - centered_rem(r, g) == qq * tg) by (nonlinear_arith)
            requires
                r == tg * qq + r0u,
                centered_rem(r, g) == r0u,
        ;
        assert(qq * tg >= 0) by (nonlinear_arith)
            requires
                qq >= 0,
                tg > 0,
        ;
    }
}

/// Decompose splits `r` as `r1 * 2 * gamma2 + r0` modulo `q`, with
/// `r1 < (q - 1) / (2 * gamma2)` and `|r0| <= gamma2`.
pub proof fn lemma_decompose_recombines(r: int, g: int)
    requires
        0 <= r < Q,
        gamma2_ok(g),
    ensures
        0 <= decompose_spec(r, g).0 < hint_modulus(g),
        0 <= decompose_spec(r, g).1 < Q,
        -g <= centered(decompose_spec(r, g).1, Q as int) <= g,
        canon(
            decompose_spec(r, g).0 * 2 * g + centered(decompose_spec(r, g).1, Q as int),
            Q as int,
        ) == r,
{
    let tg = 2 * g;
    let r0 = centered_rem(r, g);
    lemma_centered_rem(r, g);
    let m = hint_modulus(g);
    if g == 95232 {
        lemma_fundamental_div_mod_converse(8380416, 190464, 44, 0);
    } else {
        lemma_fundamental_div_mod_converse(8380416, 523776, 16, 0);
    }
    assert(m * tg == Q - 1);
    let (r1, r0c) = decompose_spec(r, g);
    lemma_mod_bound(r0 - 1, Q as int);
    lemma_mod_bound(r0, Q as int);
    if r - r0 == Q - 1 {
        assert(r1 == 0);
        lemma_fundamental_div_mod_converse(r0 - 1, Q as int, -1, r0 - 1 + Q);
        assert(r0c == r0 - 1 + Q);
        assert(centered(r0c, Q as int) == r0 - 1);
        lemma_fundamental_div_mod_converse(r0 - 1, Q as int, -1, r);
        assert(0 * 2 * g == 0);
    } else {
        let k = (r - r0) / tg;
        lemma_fundamental_div_mod(r - r0, tg);
        assert(r - r0 == tg * k);
        assert(r1 == k);
        lemma_div_pos_is_pos(r - r0, tg);
        assert(k < m) by (nonlinear_arith)
            requires
                r - r0 == tg * k,
                r - r0 != Q - 1,
                r - r0 < Q - 1 + g,
                m * tg == Q - 1,
                tg == 2 * g,
                g > 0,
        ;
        assert(k * 2 * g == tg * k) by (nonlinear_arith)
            requires
                tg == 2 * g,
        ;
        if r0 < 0 {
            lemma_fundamental_div_mod_converse(r0, Q as int, -1, r0 + Q);
            assert(centered(r0c, Q as int) == r0);
        } else {
            lemma_fundamental_div_mod_converse(r0, Q as int, 0, r0);
            assert(centered(r0c, Q as int) == r0);
        }
        lemma_fundamental_div_mod_converse(r, Q as int, 0, r);
    }
}

/// UseHint (FIPS 204 Alg 40): the high bits of `r`, moved one step
/// (modulo `(q-1)/(2*gamma2)`) toward the low part's sign when the
/// hint bit `h & 1` is set.
pub fn use_hint(h: u32, r: u32, gamma2: u32) -> (res: u32)
    requires
        r < Q,
        gamma2_ok(gamma2 as int),
    ensures
        res as int == use_hint_spec(h as int, r as int, gamma2 as int),
        (res as int) < hint_modulus(gamma2 as int),
{
    let m = use_hint_m(gamma2);
    let (r1, r0) = decompose(r, gamma2);
    proof {
        lemma_decompose_recombines(r as int, gamma2 as int);
    }
    let h_bit = h & 1u32;
    assert(h_bit == h % 2) by (bit_vector)
        requires
            h_bit == h & 1u32,
    ;
    proof {
        lemma_neg_bit(h_bit);
    }
    let h_mask = 0u32.wrapping_sub(h_bit);
    let hp: u32 = Q / 2 + 1;
    proof {
        lemma_nonzero_bit(r0);
        lemma_lt_bit(r0, hp);
    }
    let r0_nonzero = ((r0 | 0u32.wrapping_sub(r0)) >> 31u32) & 1u32;
    let r0_in_low_half = (r0.wrapping_sub(hp) >> 31u32) & 1u32;
    let r0_pos = r0_nonzero & r0_in_low_half;
    assert(r0_pos == (if 0 < r0 && r0 < hp { 1u32 } else { 0u32 })) by (bit_vector)
        requires
            (r0 | 0u32.wrapping_sub(r0)) >> 31u32 == (if r0 != 0 { 1u32 } else { 0u32 }),
            r0.wrapping_sub(hp) >> 31u32 == (if r0 < hp { 1u32 } else { 0u32 }),
            r0_nonzero == ((r0 | 0u32.wrapping_sub(r0)) >> 31u32) & 1u32,
            r0_in_low_half == (r0.wrapping_sub(hp) >> 31u32) & 1u32,
            r0_pos == r0_nonzero & r0_in_low_half,
    ;
    proof {
        lemma_neg_bit(r0_pos);
    }
    let pos_mask = 0u32.wrapping_sub(r0_pos);
    let raw_inc = r1 + 1;
    proof {
        lemma_lt_bit(raw_inc, m);
    }
    let inc_needs_sub = (raw_inc.wrapping_sub(m) >> 31u32) ^ 1u32;
    proof {
        lemma_neg_bit(inc_needs_sub);
        lemma_blend(m, 0, 0u32.wrapping_sub(inc_needs_sub));
    }
    let inc = raw_inc - (m & 0u32.wrapping_sub(inc_needs_sub));
    let raw_dec = r1 + m - 1;
    proof {
        lemma_lt_bit(raw_dec, m);
    }
    let dec_needs_sub = (raw_dec.wrapping_sub(m) >> 31u32) ^ 1u32;
    proof {
        lemma_neg_bit(dec_needs_sub);
        lemma_blend(m, 0, 0u32.wrapping_sub(dec_needs_sub));
    }
    let dec = raw_dec - (m & 0u32.wrapping_sub(dec_needs_sub));
    proof {
        lemma_blend(inc, dec, pos_mask);
        if raw_inc >= m {
            lemma_fundamental_div_mod_converse(raw_inc as int, m as int, 1, 0);
        } else {
            lemma_fundamental_div_mod_converse(raw_inc as int, m as int, 0, raw_inc as int);
        }
        if raw_dec >= m {
            lemma_fundamental_div_mod_converse(raw_dec as int, m as int, 1, raw_dec - m);
        } else {
            lemma_fundamental_div_mod_converse(raw_dec as int, m as int, 0, raw_dec as int);
        }
    }
    assert(inc as int == (r1 as int + 1) % (m as int));
    assert(dec as int == (r1 as int + m as int - 1) % (m as int));
    let adjusted = (inc & pos_mask) | (dec & !pos_mask);
    proof {
        lemma_blend(r1, adjusted, h_mask);
    }
    (r1 & !h_mask) | (adjusted & h_mask)
}

} // verus!

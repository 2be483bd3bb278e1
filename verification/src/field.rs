//! Scalar arithmetic in `Z_q` for the two moduli of the crate.
//!
//! * Canonical-domain `+`, `-`, `*` (`add_mod`, `sub_mod`, `mul_mod`),
//!   written branchlessly where the inputs may be secret.
//! * Montgomery arithmetic with `R = 2^32`: a wide REDC (`redc`) and
//!   the operations built on it (`mul_mont`, `to_mont`, `from_mont`,
//!   `mul_acc`). A Montgomery representative `x` stands for the field
//!   element `x * R^-1 mod q`, see [`mont_value`].

use vstd::arithmetic::div_mod::*;
use vstd::arithmetic::mul::*;
use vstd::arithmetic::power::{lemma_pow_adds, lemma_pow_mod_noop, lemma_pow_multiplies, pow};
use vstd::prelude::*;

use crate::ct::{lemma_blend, lemma_lt_bit, lemma_neg_bit};
use crate::mlkem::fermat::lemma_fermat;

verus! {

/// ML-DSA modulus `q = 2^23 - 2^13 + 1`.
pub const DSA_Q: u32 = 8_380_417;

/// ML-KEM modulus `q = 3329`.
pub const KEM_Q: u32 = 3329;

/// `R = 2^32`, the Montgomery radix.
pub open spec fn mont_r() -> int {
    0x1_0000_0000
}

/// The moduli this crate works with, each paired with `-q^-1 mod 2^32`.
pub open spec fn mont_params(q: u32, n_prime: u32) -> bool {
    ||| (q == 8_380_417 && n_prime == 4_236_238_847)
    ||| (q == 3329 && n_prime == 2_488_732_927)
}

/// `R^-1 mod q` for the two supported moduli.
pub open spec fn r_inv(q: int) -> int {
    if q == 8_380_417 {
        8_265_825
    } else {
        1929
    }
}

/// Field element denoted by the Montgomery representative `x`.
pub open spec fn mont_value(x: int, q: int) -> int {
    (x * r_inv(q)) % q
}

/// Montgomery product: `a * b * R^-1 mod q`.
pub open spec fn mont_mul_spec(a: int, b: int, q: int) -> int {
    (a * b * r_inv(q)) % q
}

proof fn lemma_constants(q: u32, n_prime: u32)
    requires
        mont_params(q, n_prime),
    ensures
        (q as int * n_prime as int + 1) % mont_r() == 0,
        (mont_r() * r_inv(q as int)) % (q as int) == 1,
        1 < q < 0x100_0000,
{
    assert((8_380_417int * 4_236_238_847int + 1) % 0x1_0000_0000 == 0) by (nonlinear_arith);
    assert((2488732927int * 3329int + 1) % 0x1_0000_0000 == 0) by (nonlinear_arith);
    assert((0x1_0000_0000int * 8_265_825int) % 8_380_417int == 1) by (nonlinear_arith);
    assert((0x1_0000_0000int * 1929int) % 3329int == 1) by (nonlinear_arith);
    assert(3329int * 2488732927int == 2488732927int * 3329int) by (nonlinear_arith);
}

/// The REDC numerator `t + m*q` is a multiple of `R`.
proof fn lemma_redc_divisible(t: int, q: int, np: int, m: int)
    requires
        t >= 0,
        q > 0,
        np >= 0,
        (q * np + 1) % mont_r() == 0,
        m == ((t % mont_r()) * np) % mont_r(),
    ensures
        (t + m * q) % mont_r() == 0,
{
    let r = mont_r();
    let a = t % r;
    lemma_add_mod_noop(t, m * q, r);
    lemma_mul_mod_noop_left(a * np, q, r);
    lemma_mod_twice(t, r);
    // (a + a*np*q) % r == (a * (1 + np*q)) % r
    assert(a + (a * np) * q == a * (1 + q * np)) by (nonlinear_arith);
    lemma_add_mod_noop(a, (a * np) * q, r);
    lemma_mul_mod_noop_right(a, 1 + q * np, r);
    assert((t % r + (m * q) % r) % r == (a + (a * np * q) % r) % r);
    lemma_mod_twice(a, r);
    lemma_add_mod_noop(a, a * np * q, r);
    assert((a * ((1 + q * np) % r)) % r == 0) by {
        assert((1 + q * np) % r == 0);
        assert(a * 0 == 0);
    }
}

/// A value that is `< q` and whose product with `R` is congruent to
/// `t` is the Montgomery reduction of `t`.
proof fn lemma_redc_value(r: int, t: int, q: u32, n_prime: u32)
    requires
        mont_params(q, n_prime),
        0 <= r < q,
        (r * mont_r()) % (q as int) == t % (q as int),
    ensures
        r == (t * r_inv(q as int)) % (q as int),
{
    let qq = q as int;
    lemma_constants(q, n_prime);
    let ri = r_inv(qq);
    lemma_small_mod(r as nat, qq as nat);
    lemma_mul_mod_noop_right(r, mont_r() * ri, qq);
    assert(r * ((mont_r() * ri) % qq) == r);
    assert(r * (mont_r() * ri) == (r * mont_r()) * ri) by (nonlinear_arith);
    lemma_mul_mod_noop_left(r * mont_r(), ri, qq);
    lemma_mul_mod_noop_left(t, ri, qq);
}

/// Montgomery reduction of a double-width value: returns
/// `t * R^-1 mod q` in canonical form `[0, q)`. The final conditional
/// subtraction is a mask blend.
pub fn redc(t: u64, q: u32, n_prime: u32) -> (r: u32)
    requires
        mont_params(q, n_prime),
        t < (q as int) * mont_r(),
    ensures
        r < q,
        r == (t as int * r_inv(q as int)) % (q as int),
{
    proof {
        lemma_constants(q, n_prime);
    }
    let lo = t as u32;
    assert(lo == t % 0x1_0000_0000) by (bit_vector)
        requires
            lo == t as u32,
    ;
    let m = lo.wrapping_mul(n_prime);
    proof {
        lemma_mul_upper_bound(m as int, 0xFFFF_FFFF, q as int, 0x100_0000);
    }
    let u: u64 = t + (m as u64) * (q as u64);
    let r0_wide = u >> 32u64;
    assert(r0_wide == u / 0x1_0000_0000) by (bit_vector)
        requires
            r0_wide == u >> 32u64,
    ;
    proof {
        lemma_redc_divisible(t as int, q as int, n_prime as int, m as int);
        lemma_fundamental_div_mod(u as int, mont_r());
        // u < 2 q R, so u / R < 2 q
        assert(u < 2 * (q as int) * mont_r()) by (nonlinear_arith)
            requires
                t < (q as int) * mont_r(),
                m < mont_r(),
                u == t + m * q,
        ;
        lemma_div_strictly_bounded_local(u as int, mont_r(), 2 * q as int);
    }
    let r0 = r0_wide as u32;
    let diff = r0.wrapping_sub(q);
    proof {
        lemma_lt_bit(r0, q);
        lemma_neg_bit(diff >> 31u32);
    }
    let mask = 0u32.wrapping_sub(diff >> 31u32);
    proof {
        lemma_blend(r0, diff, mask);
    }
    let r = (r0 & mask) | (diff & !mask);
    proof {
        let qq = q as int;
        // r0 * R == t + m q
        assert(r0 * mont_r() == t + m * q);
        lemma_mod_multiples_vanish(m as int, t as int, qq);
        assert((r0 * mont_r()) % qq == (t as int) % qq);
        if r0 >= q {
            assert(r == r0 - q);
            lemma_mul_is_distributive_sub_other_way(mont_r(), r0 as int, qq);
            assert((r0 - q) * mont_r() == r0 * mont_r() + (-mont_r()) * qq);
            lemma_mod_multiples_vanish(-mont_r(), r0 * mont_r(), qq);
        }
        lemma_redc_value(r as int, t as int, q, n_prime);
    }
    r
}

proof fn lemma_div_strictly_bounded_local(x: int, a: int, b: int)
    requires
        a > 0,
        b >= 0,
        0 <= x < a * b,
    ensures
        x / a < b,
{
    lemma_div_by_multiple(b, a);
    lemma_mul_is_commutative(a, b);
    lemma_div_by_multiple_is_strongly_ordered(x, a * b, b, a);
}

/// Montgomery-domain product `a * b * R^-1 mod q`.
pub fn mul_mont(a: u32, b: u32, q: u32, n_prime: u32) -> (r: u32)
    requires
        mont_params(q, n_prime),
        (a as int) * (b as int) < (q as int) * mont_r(),
    ensures
        r < q,
        r == mont_mul_spec(a as int, b as int, q as int),
{
    redc((a as u64) * (b as u64), q, n_prime)
}

/// Canonical value to Montgomery form: `x * R mod q`, computed as the
/// Montgomery product of `x` with `R^2 mod q`. Any `u32` input is
/// accepted (it is reduced modulo `q` along the way).
pub fn to_mont(x: u32, q: u32, n_prime: u32, r2_mod_q: u32) -> (r: u32)
    requires
        mont_params(q, n_prime),
        r2_mod_q == (mont_r() * mont_r()) % (q as int),
    ensures
        r < q,
        r == (x as int * mont_r()) % (q as int),
        mont_value(r as int, q as int) == (x as int) % (q as int),
{
    proof {
        lemma_constants(q, n_prime);
        lemma_mod_bound(mont_r() * mont_r(), q as int);
        lemma_mul_upper_bound(x as int, 0xFFFF_FFFF, r2_mod_q as int, q as int);
    }
    let r = mul_mont(x, r2_mod_q, q, n_prime);
    proof {
        let qq = q as int;
        let ri = r_inv(qq);
        let rr = mont_r();
        // r == x * (R^2 mod q) * R^-1 mod q == x * R mod q
        lemma_mul_mod_noop_right(x as int, rr * rr, qq);
        assert(x * r2_mod_q * ri == (x * r2_mod_q) * ri);
        lemma_mul_mod_noop_left(x * (rr * rr), ri, qq);
        lemma_mul_mod_noop_left(x * r2_mod_q, ri, qq);
        assert(x * (rr * rr) * ri == (x * rr) * (rr * ri)) by (nonlinear_arith);
        lemma_mul_mod_noop_right(x * rr, rr * ri, qq);
        assert((x * rr) * ((rr * ri) % qq) == x * rr);
        lemma_value_of_to_mont(x as int, q, n_prime);
    }
    r
}

/// `mont_value(x * R mod q) == x mod q`.
pub proof fn lemma_value_of_to_mont(x: int, q: u32, n_prime: u32)
    requires
        mont_params(q, n_prime),
    ensures
        mont_value((x * mont_r()) % (q as int), q as int) == x % (q as int),
{
    lemma_constants(q, n_prime);
    let qq = q as int;
    let ri = r_inv(qq);
    lemma_mul_mod_noop_left(x * mont_r(), ri, qq);
    assert((x * mont_r()) * ri == x * (mont_r() * ri)) by (nonlinear_arith);
    lemma_mul_mod_noop_right(x, mont_r() * ri, qq);
}

/// `mont_value` of a product is the product of the `mont_value`s.
pub proof fn lemma_mont_mul_value(a: int, b: int, q: u32, n_prime: u32)
    requires
        mont_params(q, n_prime),
    ensures
        mont_value(mont_mul_spec(a, b, q as int), q as int) == (mont_value(a, q as int)
            * mont_value(b, q as int)) % (q as int),
{
    lemma_constants(q, n_prime);
    let qq = q as int;
    let ri = r_inv(qq);
    lemma_mul_mod_noop_left(a * b * ri, ri, qq);
    lemma_mul_mod_noop(a * ri, b * ri, qq);
    assert(a * b * ri * ri == (a * ri) * (b * ri)) by (nonlinear_arith);
}

/// A canonical Montgomery representative is determined by the value it
/// stands for: `x == mont_value(x) * R mod q`.
pub proof fn lemma_mont_of_value(x: int, q: u32, n_prime: u32)
    requires
        mont_params(q, n_prime),
        0 <= x < q,
    ensures
        (mont_value(x, q as int) * mont_r()) % (q as int) == x,
{
    lemma_constants(q, n_prime);
    let qq = q as int;
    let ri = r_inv(qq);
    lemma_mul_mod_noop_left(x * ri, mont_r(), qq);
    assert(x * ri * mont_r() == x * (mont_r() * ri)) by (nonlinear_arith);
    lemma_mul_mod_noop_right(x, mont_r() * ri, qq);
    lemma_small_mod(x as nat, q as nat);
}

/// Montgomery representative back to canonical form (one REDC).
pub fn from_mont(x: u32, q: u32, n_prime: u32) -> (r: u32)
    requires
        mont_params(q, n_prime),
    ensures
        r < q,
        r == mont_value(x as int, q as int),
{
    proof {
        lemma_constants(q, n_prime);
    }
    redc(x as u64, q, n_prime)
}

/// Double-width multiply-accumulate: `acc + a * b` without reduction.
pub fn mul_acc(acc: u64, a: u32, b: u32) -> (r: u64)
    requires
        acc as int + a as int * b as int <= u64::MAX,
    ensures
        r == acc as int + a as int * b as int,
{
    acc + (a as u64) * (b as u64)
}

/// Branchless `a + b mod q` for canonical inputs.
pub fn add_mod(a: u32, b: u32, q: u32) -> (r: u32)
    requires
        0 < q < 0x4000_0000,
        a < q,
        b < q,
    ensures
        r == (a as int + b as int) % (q as int),
        r < q,
{
    let sum = a + b;
    let diff = sum.wrapping_sub(q);
    proof {
        lemma_lt_bit(sum, q);
        lemma_neg_bit(diff >> 31u32);
    }
    let mask = 0u32.wrapping_sub(diff >> 31u32);
    proof {
        lemma_blend(sum, diff, mask);
        if sum < q {
            lemma_small_mod(sum as nat, q as nat);
        } else {
            lemma_small_mod((sum - q) as nat, q as nat);
            lemma_mod_sub_multiples_vanish(sum as int, q as int);
        }
    }
    (sum & mask) | (diff & !mask)
}

/// Branchless `a - b mod q` for canonical inputs.
pub fn sub_mod(a: u32, b: u32, q: u32) -> (r: u32)
    requires
        0 < q < 0x4000_0000,
        a < q,
        b < q,
    ensures
        r == (a as int - b as int) % (q as int),
        r < q,
{
    let diff = a.wrapping_sub(b);
    proof {
        lemma_lt_bit(a, b);
        lemma_neg_bit(diff >> 31u32);
        lemma_blend(q, 0, 0u32.wrapping_sub(diff >> 31u32));
    }
    let mask = 0u32.wrapping_sub(diff >> 31u32);
    let r = diff.wrapping_add(q & mask);
    proof {
        if a < b {
            lemma_small_mod((a - b + q) as nat, q as nat);
            lemma_mod_add_multiples_vanish(a - b, q as int);
        } else {
            lemma_small_mod((a - b) as nat, q as nat);
        }
    }
    r
}

/// `a * b mod q`.
pub fn mul_mod(a: u32, b: u32, q: u32) -> (r: u32)
    requires
        q > 0,
    ensures
        r == (a as int * b as int) % (q as int),
        r < q,
{
    proof {
        lemma_mul_upper_bound(a as int, 0xFFFF_FFFF, b as int, 0xFFFF_FFFF);
        lemma_mod_bound(a as int * b as int, q as int);
    }
    ((a as u64) * (b as u64) % (q as u64)) as u32
}

/// `b^e mod q` by repeated multiplication (the exponents of this crate
/// are below 512).
pub fn exp_mod(b: u32, e: u32, q: u32) -> (r: u32)
    requires
        q > 1,
    ensures
        r == pow(b as int, e as nat) % (q as int),
        r < q,
{
    let mut r: u32 = 1;
    let mut i: u32 = 0;
    proof {
        reveal_with_fuel(pow, 1);
        lemma_small_mod(1, q as nat);
    }
    while i < e
        invariant
            q > 1,
            i <= e,
            r == pow(b as int, i as nat) % (q as int),
        decreases e - i,
    {
        proof {
            lemma_pow_adds(b as int, i as nat, 1);
            assert(pow(b as int, 1) == b) by {
                reveal_with_fuel(pow, 2);
            }
            lemma_mul_mod_noop_left(pow(b as int, i as nat), b as int, q as int);
        }
        r = mul_mod(r, b, q);
        i = i + 1;
    }
    r
}

/// `R^2 mod q`, the factor that moves a value into Montgomery form.
pub open spec fn mont_r2(q: int) -> int {
    (mont_r() * mont_r()) % q
}

/// `R^2 mod q` for the two moduli of the crate.
pub proof fn lemma_r2_values()
    ensures
        mont_r2(8_380_417) == 2_365_951,
        mont_r2(3329) == 2988,
{
    lemma_fundamental_div_mod_converse(mont_r() * mont_r(), 8_380_417, 2_201_172_575_745, 2_365_951);
    lemma_fundamental_div_mod_converse(mont_r() * mont_r(), 3329, 5_541_226_816_974_932, 2988);
}

/// One square-and-multiply step: `v^e = v^(e mod 2) * (v^2)^(e / 2)`.
proof fn lemma_pow_step(v: int, e: nat)
    ensures
        pow(v, e) == pow(v, e % 2) * pow(v * v, e / 2),
{
    lemma_pow_adds(v, 2 * (e / 2), e % 2);
    lemma_pow_multiplies(v, 2, e / 2);
    assert(pow(v, 2) == v * v) by {
        reveal_with_fuel(pow, 3);
    }
    assert(2 * (e / 2) + e % 2 == e);
    assert(pow(v, e) == pow(v, 2 * (e / 2)) * pow(v, e % 2));
    assert(pow(v, e) == pow(v, e % 2) * pow(v * v, e / 2)) by (nonlinear_arith)
        requires
            pow(v, e) == pow(v, 2 * (e / 2)) * pow(v, e % 2),
            pow(pow(v, 2), e / 2) == pow(v, 2 * (e / 2)),
            pow(v, 2) == v * v,
    ;
}

/// Montgomery-domain exponentiation by square-and-multiply with a
/// public exponent: the result stands for `b^e mod q` where `b` is the
/// value `base_mont` stands for.
pub fn mont_exp(base_mont: u32, exp: u32, q: u32, n_prime: u32, r2_mod_q: u32) -> (r: u32)
    requires
        mont_params(q, n_prime),
        r2_mod_q == (mont_r() * mont_r()) % (q as int),
        base_mont < q,
    ensures
        r < q,
        mont_value(r as int, q as int) == pow(mont_value(base_mont as int, q as int), exp as nat)
            % (q as int),
{
    proof {
        lemma_constants(q, n_prime);
    }
    let ghost qq = q as int;
    let ghost v0 = mont_value(base_mont as int, qq);
    let mut result = to_mont(1, q, n_prime, r2_mod_q);
    let mut base = base_mont;
    let mut e = exp;
    proof {
        lemma_small_mod(1, q as nat);
        reveal_with_fuel(pow, 1);
        assert(pow(v0, exp as nat) == 1 * pow(v0, exp as nat));
    }
    while e > 0
        invariant
            mont_params(q, n_prime),
            1 < q < 0x100_0000,
            qq == q as int,
            result < q,
            base < q,
            v0 == mont_value(base_mont as int, qq),
            (mont_value(result as int, qq) * pow(mont_value(base as int, qq), e as nat)) % qq
                == pow(v0, exp as nat) % qq,
        decreases e,
    {
        let ghost vr = mont_value(result as int, qq);
        let ghost vb = mont_value(base as int, qq);
        let ghost e0 = e as nat;
        proof {
            lemma_pow_step(vb, e0);
            assert((result as int) * (base as int) < qq * mont_r()) by (nonlinear_arith)
                requires
                    result < q,
                    base < q,
                    qq == q,
            ;
            assert((base as int) * (base as int) < qq * mont_r()) by (nonlinear_arith)
                requires
                    base < q,
                    qq == q,
            ;
            lemma_mont_mul_value(result as int, base as int, q, n_prime);
            lemma_mont_mul_value(base as int, base as int, q, n_prime);
        }
        assert(e & 1 == e % 2) by (bit_vector);
        let ghost vr1 = if e % 2 == 1 { (vr * vb) % qq } else { vr };
        if e & 1 == 1 {
            result = mul_mont(result, base, q, n_prime);
        }
        base = mul_mont(base, base, q, n_prime);
        assert(e >> 1u32 == e / 2) by (bit_vector);
        e = e >> 1u32;
        proof {
            let vb2 = (vb * vb) % qq;
            assert(mont_value(base as int, qq) == vb2);
            assert(mont_value(result as int, qq) == vr1);
            lemma_pow_mod_noop(vb * vb, e as nat, qq);
            // vr1 * pow(vb2, e) == vr * pow(vb, e0 % 2) * pow(vb * vb, e0 / 2)  (mod q)
            let pe = pow(vb * vb, e as nat);
            let pb = pow(vb, e0 % 2);
            assert(pb == (if e0 % 2 == 1 { vb } else { 1 })) by {
                reveal_with_fuel(pow, 2);
            }
            lemma_mul_mod_noop_right(vr1, pow(vb2, e as nat), qq);
            lemma_mul_mod_noop_right(vr1, pe, qq);
            if e0 % 2 == 1 {
                lemma_mul_mod_noop_left(vr * vb, pe, qq);
                assert((vr * vb) * pe == vr * (pb * pe)) by (nonlinear_arith)
                    requires
                        pb == vb,
                ;
            } else {
                assert(vr * pe == vr * (pb * pe)) by (nonlinear_arith)
                    requires
                        pb == 1,
                ;
            }
        }
    }
    proof {
        reveal_with_fuel(pow, 1);
        lemma_mod_bound(mont_value(result as int, qq) as int, qq);
        lemma_small_mod(mont_value(result as int, qq) as nat, q as nat);
    }
    result
}

/// Modular inverse by Fermat's little theorem, `x^(q-2) mod q`, computed
/// in the Montgomery domain with the public exponent `q - 2`. For the
/// ML-KEM modulus the result is the inverse of every nonzero residue.
pub fn inv_mod(x: u32, q: u32, n_prime: u32, r2_mod_q: u32) -> (r: u32)
    requires
        mont_params(q, n_prime),
        r2_mod_q == (mont_r() * mont_r()) % (q as int),
    ensures
        r < q,
        r as int == pow((x as int) % (q as int), (q - 2) as nat) % (q as int),
        q == 3329 && (x as int) % 3329 != 0 ==> ((x as int) * (r as int)) % 3329 == 1,
{
    proof {
        lemma_constants(q, n_prime);
    }
    let x_mont = to_mont(x, q, n_prime, r2_mod_q);
    let acc = mont_exp(x_mont, q - 2, q, n_prime, r2_mod_q);
    let r = from_mont(acc, q, n_prime);
    proof {
        if q == 3329 && (x as int) % 3329 != 0 {
            let qq = q as int;
            let a = (x as int) % qq;
            let pa = pow(a, (q - 2) as nat);
            lemma_fermat(a);
            lemma_pow_adds(a, 1, (q - 2) as nat);
            assert(pow(a, 1) == a) by {
                reveal_with_fuel(pow, 2);
            }
            assert(pow(a, (q - 1) as nat) == a * pa);
            lemma_mul_mod_noop_right(x as int, pa, qq);
            lemma_mul_mod_noop_left(x as int, pa, qq);
        }
    }
    r
}

} // verus!

//! Multiplicative scalar blinding for the secret-mixed multiplication
//! of ML-KEM decapsulation: a factor `r` in `[1, q-1]` is derived from
//! the inputs with SHAKE-256, the secret operand is scaled by `r`
//! before the multiplication and the result by `r^-1` after it.

use vstd::arithmetic::power::pow;
use vstd::prelude::*;

use crate::field::{lemma_mont_of_value, mont_exp, mont_mul_spec, mont_params, mont_r, mont_value, mul_mont, to_mont};
use crate::hashing::{concat_pieces, pieces_of, shake256, shake256_byte};
use crate::poly::{poly_canonical, Poly};
use crate::polyvec::PolyVec;

verus! {

/// Little-endian value of four bytes.
pub open spec fn le32(b0: int, b1: int, b2: int, b3: int) -> int {
    b0 + 256 * b1 + 65536 * b2 + 16777216 * b3
}

/// The blinding factor derived from `input`: the first four SHAKE-256
/// output bytes, read little-endian as `x`, mapped to
/// `floor(x (q - 1) / 2^32) + 1` in `[1, q - 1]`.
pub open spec fn blind_factor(input: Seq<u8>, q: int) -> int {
    let x = le32(
        shake256_byte(input, 0) as int,
        shake256_byte(input, 1) as int,
        shake256_byte(input, 2) as int,
        shake256_byte(input, 3) as int,
    );
    (x * (q - 1)) / 0x1_0000_0000 + 1
}

/// Montgomery form of the blinding factor derived from `input`.
pub open spec fn blind_mont(input: Seq<u8>, q: int) -> int {
    (blind_factor(input, q) * mont_r()) % q
}

/// Montgomery form of `r^(q-2) mod q` for the blinding factor `r`
/// derived from `input` (its inverse, `q` being prime).
pub open spec fn blind_inv_mont(input: Seq<u8>, q: int) -> int {
    ((pow(blind_factor(input, q), (q - 2) as nat) % q) * mont_r()) % q
}

/// The blinding factor for the concatenation of `absorb` (Lemire's
/// bounded reduction, with no division on the secret value).
pub fn derive_r(absorb: &[&[u8]], q: u32) -> (r: u32)
    requires
        2 <= q < 0x100_0000,
    ensures
        r as int == blind_factor(concat_pieces(pieces_of(absorb@)), q as int),
        1 <= r < q,
{
    let mut buf = [0u8; 8];
    shake256(absorb, &mut buf);
    let x = (buf[0] as u32) | ((buf[1] as u32) << 8u32) | ((buf[2] as u32) << 16u32) | ((
    buf[3] as u32) << 24u32);
    let b0 = buf[0];
    let b1 = buf[1];
    let b2 = buf[2];
    let b3 = buf[3];
    assert(x == le32(b0 as int, b1 as int, b2 as int, b3 as int)) by (bit_vector)
        requires
            x == (b0 as u32) | ((b1 as u32) << 8u32) | ((b2 as u32) << 16u32) | ((b3 as u32)
                << 24u32),
    ;
    assert((x as int) * ((q - 1) as int) <= 0xFFFF_FFFF * 0x100_0000) by (nonlinear_arith)
        requires
            x <= 0xFFFF_FFFF,
            q < 0x100_0000,
    ;
    let prod: u64 = (x as u64) * ((q - 1) as u64);
    proof {
        vstd::bits::lemma_u64_shr_is_div(prod, 32);
        vstd::arithmetic::power2::lemma2_to64();
        assert(prod < (q as int) * 0x1_0000_0000) by (nonlinear_arith)
            requires
                prod == x * (q - 1),
                x < 0x1_0000_0000,
                q >= 2,
        ;
        assert(prod / 0x1_0000_0000 < q as int) by {
            vstd::arithmetic::div_mod::lemma_div_is_ordered(
                prod as int,
                (q as int) * 0x1_0000_0000 - 1,
                0x1_0000_0000,
            );
            vstd::arithmetic::div_mod::lemma_fundamental_div_mod_converse(
                (q as int) * 0x1_0000_0000 - 1,
                0x1_0000_0000,
                q as int - 1,
                0xFFFF_FFFF,
            );
        }
        assert(prod / 0x1_0000_0000 <= q - 2) by {
            assert(prod <= 0xFFFF_FFFF * (q - 1)) by (nonlinear_arith)
                requires
                    prod == x * (q - 1),
                    x <= 0xFFFF_FFFF,
                    q >= 2,
            ;
            vstd::arithmetic::div_mod::lemma_div_is_ordered(
                prod as int,
                0xFFFF_FFFF * (q - 1),
                0x1_0000_0000,
            );
            vstd::arithmetic::div_mod::lemma_fundamental_div_mod_converse(
                0xFFFF_FFFF * (q - 1),
                0x1_0000_0000,
                q - 2,
                0x1_0000_0000 - (q - 1),
            );
        }
    }
    let mapped = (prod >> 32u64) as u32;
    mapped + 1
}

/// A Montgomery-form blinding factor `r` and its inverse: `r` comes from
/// [`derive_r`] on `absorb`; the second value stands for `r^(q-2)`,
/// which is `r^-1` since `q` is prime and `r` is in `[1, q-1]`.
pub fn derive_pair(absorb: &[&[u8]], q: u32, q_n_prime: u32, q_r2_mod_q: u32) -> (res: (u32, u32))
    requires
        mont_params(q, q_n_prime),
        q_r2_mod_q == (mont_r() * mont_r()) % (q as int),
    ensures
        res.0 as int == blind_mont(concat_pieces(pieces_of(absorb@)), q as int),
        res.1 as int == blind_inv_mont(concat_pieces(pieces_of(absorb@)), q as int),
        mont_value(res.1 as int, q as int) == pow(
            blind_factor(concat_pieces(pieces_of(absorb@)), q as int),
            (q - 2) as nat,
        ) % (q as int),
        res.0 < q,
        res.1 < q,
{
    let r = derive_r(absorb, q);
    let r_mont = to_mont(r, q, q_n_prime, q_r2_mod_q);
    proof {
        vstd::arithmetic::div_mod::lemma_small_mod(r as nat, q as nat);
    }
    let r_inv_mont = mont_exp(r_mont, q - 2, q, q_n_prime, q_r2_mod_q);
    proof {
        lemma_mont_of_value(r_inv_mont as int, q, q_n_prime);
    }
    (r_mont, r_inv_mont)
}

/// Multiply every coefficient of `p` by `r_mont` in the Montgomery
/// domain.
pub fn scale_mont(p: &mut Poly<u32>, r_mont: u32, q: u32, q_n_prime: u32)
    requires
        mont_params(q, q_n_prime),
        r_mont < q,
        poly_canonical(*old(p), q as int),
    ensures
        forall|i: int|
            0 <= i < 256 ==> #[trigger] final(p).coeffs[i] as int == mont_mul_spec(
                old(p).coeffs[i] as int,
                r_mont as int,
                q as int,
            ),
        poly_canonical(*final(p), q as int),
{
    for i in 0..256usize
        invariant
            mont_params(q, q_n_prime),
            r_mont < q,
            q < 0x100_0000,
            forall|k: int|
                0 <= k < 256 ==> #[trigger] p.coeffs[k] as int == if k < i {
                    mont_mul_spec(old(p).coeffs[k] as int, r_mont as int, q as int)
                } else {
                    old(p).coeffs[k] as int
                },
            forall|k: int| 0 <= k < 256 ==> #[trigger] p.coeffs[k] < q,
    {
        let c = p.coeffs[i];
        proof {
            assert((c as int) * (r_mont as int) < (q as int) * mont_r()) by (nonlinear_arith)
                requires
                    c < q,
                    r_mont < q,
            ;
        }
        p.coeffs[i] = mul_mont(c, r_mont, q, q_n_prime);
    }
}

/// [`scale_mont`] on every polynomial of a vector.
pub fn scale_polyvec_mont<const LEN: usize>(v: &mut PolyVec<u32, LEN>, r_mont: u32, q: u32, q_n_prime: u32)
    requires
        mont_params(q, q_n_prime),
        r_mont < q,
        forall|j: int| 0 <= j < LEN ==> poly_canonical(#[trigger] old(v).v[j], q as int),
    ensures
        forall|j: int, i: int|
            0 <= j < LEN && 0 <= i < 256 ==> #[trigger] final(v).v[j].coeffs[i] as int
                == mont_mul_spec(old(v).v[j].coeffs[i] as int, r_mont as int, q as int),
        forall|j: int| 0 <= j < LEN ==> poly_canonical(#[trigger] final(v).v[j], q as int),
{
    for j in 0..LEN
        invariant
            mont_params(q, q_n_prime),
            r_mont < q,
            forall|jj: int|
                0 <= jj < LEN ==> poly_canonical(#[trigger] v.v[jj], q as int),
            forall|jj: int, i: int|
                0 <= jj < LEN && 0 <= i < 256 ==> #[trigger] v.v[jj].coeffs[i] as int == if jj < j {
                    mont_mul_spec(old(v).v[jj].coeffs[i] as int, r_mont as int, q as int)
                } else {
                    old(v).v[jj].coeffs[i] as int
                },
    {
        let mut p = v.v[j];
        scale_mont(&mut p, r_mont, q, q_n_prime);
        v.v[j] = p;
    }
}

} // verus!

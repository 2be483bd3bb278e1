//! Sampling primitives for ML-DSA (FIPS 204 §7.3) and the signed
//! BitUnpack they share with the signature decoder.
//!
//! The rejection samplers read candidates from a SHAKE stream; their
//! contracts name the candidate values through the stream's bytes
//! ([`crate::hashing::shake128_byte`] / [`crate::hashing::shake256_byte`])
//! and say that the output holds the first `N` accepted candidates. A
//! sampler gives up after a fixed budget of candidates, far beyond
//! anything a SHAKE stream needs in practice; the contracts state the
//! result for every stream whose first `N` acceptances fall within it.

use vstd::arithmetic::power2::*;
use vstd::prelude::*;

use crate::bits::{bytes_value, digit, unpack_bits};
use crate::encoding::EncodeError;
use crate::field::{lemma_r2_values, mont_r, to_mont};
use crate::hashing::{
    concat_pieces, lemma_concat_small, pieces_of, shake128_byte, shake256_byte, shake256_bytes,
    Shake128Stream, Shake256Stream,
};
use crate::params::{canon, centered, from_signed, Eta, N, Q, Q_N_PRIME, Q_R2_MOD_Q};
use crate::encoding::{row_signed, row_value};
use crate::poly::{poly_canonical, Poly};
use crate::polyvec::{PolyMatrix, PolyVec};

verus! {

/// Number of candidates a rejection sampler examines before it gives up.
pub const SAMPLE_BUDGET: u64 = 0x1_0000_0000;

/// BitUnpack (FIPS 204 Alg 18) for the signed range `[b - 2^c + 1, b]`:
/// each packed `c`-bit value `z` becomes the canonical residue of
/// `b - z`.
pub fn bit_unpack_signed(bytes: &[u8], b: u32, c_bits: usize) -> (res: Result<
    Poly<u32>,
    EncodeError,
>)
    requires
        1 <= c_bits <= 24,
        b < 2 * Q,
        pow2(c_bits as nat) <= b + 2 * Q,
    ensures
        res is Ok <==> bytes.len() >= 32 * c_bits,
        res matches Ok(p) ==> forall|j: int|
            0 <= j < N ==> #[trigger] p.coeffs[j] as int == canon(
                b - digit(bytes_value(bytes@, (32 * c_bits) as nat), c_bits as nat, j as nat),
                Q as int,
            ),
        res matches Ok(p) ==> poly_canonical(p, Q as int),
        res matches Err(e) ==> e == EncodeError::BufferTooSmall,
{
    let vals = match unpack_bits(bytes, c_bits) {
        Ok(v) => v,
        Err(e) => {
            return Err(e);
        },
    };
    proof {
        if c_bits < 24 {
            lemma_pow2_strictly_increases(c_bits as nat, 24);
        }
        lemma2_to64();
    }
    let mut out = Poly::<u32>::zero();
    for j in 0..N
        invariant
            1 <= c_bits <= 24,
            b < 2 * Q,
            pow2(c_bits as nat) <= b + 2 * Q,
            pow2(c_bits as nat) <= 0x100_0000,
            forall|k: int| 0 <= k < N ==> (#[trigger] vals[k] as nat) < pow2(c_bits as nat),
            forall|k: int|
                0 <= k < N ==> #[trigger] vals[k] as nat == digit(
                    bytes_value(bytes@, (32 * c_bits) as nat),
                    c_bits as nat,
                    k as nat,
                ),
            forall|k: int|
                0 <= k < j ==> #[trigger] out.coeffs[k] as int == canon(
                    b - vals[k],
                    Q as int,
                ),
            forall|k: int| 0 <= k < j ==> #[trigger] out.coeffs[k] < Q,
    {
        let zp = vals[j];
        assert(zp < 0x100_0000);
        let signed = (b as i32) - (zp as i32);
        out.coeffs[j] = from_signed(signed, Q);
    }
    Ok(out)
}

/// CoeffFromHalfByte (FIPS 204 Alg 15).
pub open spec fn half_byte_coeff(b: int, eta: Eta) -> Option<int> {
    match eta {
        Eta::Eta2 => if b < 15 {
            Some(2 - b % 5)
        } else {
            None
        },
        Eta::Eta4 => if b < 9 {
            Some(4 - b)
        } else {
            None
        },
    }
}

/// CoeffFromThreeBytes (FIPS 204 Alg 14): the 23-bit value of the three
/// bytes with the top bit of `b2` cleared.
pub open spec fn three_bytes_value(b0: int, b1: int, b2: int) -> int {
    (b2 % 128) * 65536 + b1 * 256 + b0
}

/// CoeffFromHalfByte (FIPS 204 Alg 15). Variable-time.
pub fn coeff_from_half_byte(b: u8, eta: Eta) -> (r: Option<i32>)
    ensures
        r is Some <==> half_byte_coeff(b as int, eta) is Some,
        r matches Some(z) ==> half_byte_coeff(b as int, eta) == Some(z as int),
{
    match eta {
        Eta::Eta2 => {
            if b < 15 {
                Some(2 - (b as i32 % 5))
            } else {
                None
            }
        },
        Eta::Eta4 => {
            if b < 9 {
                Some(4 - b as i32)
            } else {
                None
            }
        },
    }
}

/// CoeffFromThreeBytes (FIPS 204 Alg 14).
pub fn coeff_from_three_bytes(b0: u8, b1: u8, b2: u8) -> (r: Option<u32>)
    ensures
        r is Some <==> three_bytes_value(b0 as int, b1 as int, b2 as int) < Q,
        r matches Some(z) ==> z as int == three_bytes_value(b0 as int, b1 as int, b2 as int),
{
    let b2p = (b2 & 0x7F) as u32;
    let z = (b2p << 16u32) | ((b1 as u32) << 8u32) | (b0 as u32);
    assert(z == (b2 % 128) * 65536 + b1 * 256 + b0) by (bit_vector)
        requires
            b2p == (b2 & 0x7F) as u32,
            z == (b2p << 16u32) | ((b1 as u32) << 8u32) | (b0 as u32),
    ;
    if z < Q {
        Some(z)
    } else {
        None
    }
}

/// Canonical table of CoeffFromHalfByte for eta = 2 (entry 15 unused).
pub const ETA2_TABLE: [u32; 16] = [
    2,
    1,
    0,
    8380416,
    8380415,
    2,
    1,
    0,
    8380416,
    8380415,
    2,
    1,
    0,
    8380416,
    8380415,
    0,
];

/// Canonical table of CoeffFromHalfByte for eta = 4 (entries 9.. unused).
pub const ETA4_TABLE: [u32; 16] = [
    4,
    3,
    2,
    1,
    0,
    8380416,
    8380415,
    8380414,
    8380413,
    0,
    0,
    0,
    0,
    0,
    0,
    0,
];

/// The accepted value of a candidate nibble, as a canonical residue.
pub open spec fn half_byte_canon(b: int, eta: Eta) -> int {
    match half_byte_coeff(b, eta) {
        Some(z) => canon(z, Q as int),
        None => 0,
    }
}

/// Constant-time CoeffFromHalfByte on a nibble: `(accept, value)` with
/// `value` the canonical residue (meaningful when `accept == 1`),
/// looked up in a table.
fn ct_coeff_from_half_byte(b: u8, eta: Eta) -> (r: (u32, u32))
    requires
        b < 16,
    ensures
        r.0 == (if half_byte_coeff(b as int, eta) is Some { 1u32 } else { 0u32 }),
        r.0 == 1 ==> r.1 as int == half_byte_canon(b as int, eta),
        r.1 < Q,
{
    let bb = b as u32;
    match eta {
        Eta::Eta2 => {
            proof {
                crate::ct::lemma_lt_bit(bb, 15);
            }
            let accept = bb.wrapping_sub(15) >> 31u32;
            proof {
                let z = 2 - b % 5;
                if z < 0 {
                    vstd::arithmetic::div_mod::lemma_fundamental_div_mod_converse(
                        z,
                        Q as int,
                        -1,
                        z + Q,
                    );
                } else {
                    vstd::arithmetic::div_mod::lemma_fundamental_div_mod_converse(
                        z,
                        Q as int,
                        0,
                        z,
                    );
                }
            }
            (accept, ETA2_TABLE[b as usize])
        },
        Eta::Eta4 => {
            proof {
                crate::ct::lemma_lt_bit(bb, 9);
            }
            let accept = bb.wrapping_sub(9) >> 31u32;
            proof {
                let z = 4 - b;
                if z < 0 {
                    vstd::arithmetic::div_mod::lemma_fundamental_div_mod_converse(
                        z,
                        Q as int,
                        -1,
                        z + Q,
                    );
                } else {
                    vstd::arithmetic::div_mod::lemma_fundamental_div_mod_converse(
                        z,
                        Q as int,
                        0,
                        z,
                    );
                }
            }
            (accept, ETA4_TABLE[b as usize])
        },
    }
}

/// Branchless conditional store: write `val` into `coeffs[*j]` and bump
/// `*j` iff `accept == 1` and `*j < N`.
fn ct_maybe_write(coeffs: &mut [u32; N], j: &mut u32, accept: u32, val: u32)
    requires
        accept <= 1,
        *old(j) <= N,
    ensures
        (accept == 1 && *old(j) < N) ==> final(coeffs)@ == old(coeffs)@.update(
            *old(j) as int,
            val,
        ) && *final(j) == *old(j) + 1,
        !(accept == 1 && *old(j) < N) ==> final(coeffs)@ == old(coeffs)@ && *final(j) == *old(j),
{
    let jj = *j;
    proof {
        crate::ct::lemma_lt_bit(jj, N as u32);
    }
    let in_range = (jj.wrapping_sub(N as u32) >> 31u32) & 1u32;
    assert(in_range == (if jj < 256 { 1u32 } else { 0u32 })) by (bit_vector)
        requires
            jj.wrapping_sub(256u32) >> 31u32 == (if jj < 256 { 1u32 } else { 0u32 }),
            in_range == (jj.wrapping_sub(256u32) >> 31u32) & 1u32,
    ;
    let do_write = accept & in_range;
    assert(do_write == (if accept == 1 && jj < 256 { 1u32 } else { 0u32 })) by (bit_vector)
        requires
            accept <= 1,
            in_range == (if jj < 256 { 1u32 } else { 0u32 }),
            do_write == accept & in_range,
    ;
    proof {
        crate::ct::lemma_neg_bit(do_write);
    }
    let mask = 0u32.wrapping_sub(do_write);
    let idx = (jj as usize) & (N - 1);
    assert(idx == jj % 256) by (bit_vector)
        requires
            idx == (jj as usize) & 255usize,
            jj <= 256,
    ;
    let old_val = coeffs[idx];
    proof {
        crate::ct::lemma_blend(val, old_val, mask);
    }
    coeffs[idx] = (val & mask) | (old_val & !mask);
    *j = jj + do_write;
}

/// Candidate `t` of RejNTTPoly: the CoeffFromThreeBytes value of bytes
/// `3t .. 3t + 2` of the SHAKE-128 output on `seed`.
pub open spec fn ntt_candidate(seed: Seq<u8>, t: nat) -> int {
    three_bytes_value(
        shake128_byte(seed, 3 * t) as int,
        shake128_byte(seed, 3 * t + 1) as int,
        shake128_byte(seed, 3 * t + 2) as int,
    )
}

/// The accepted candidates (those below `q`) among the first `t`.
pub open spec fn ntt_accepted(seed: Seq<u8>, t: nat) -> Seq<int>
    decreases t,
{
    if t == 0 {
        Seq::empty()
    } else {
        let p = ntt_accepted(seed, (t - 1) as nat);
        let z = ntt_candidate(seed, (t - 1) as nat);
        if z < Q {
            p.push(z)
        } else {
            p
        }
    }
}

/// More candidates only extend the accepted list.
pub proof fn lemma_ntt_accepted_prefix(seed: Seq<u8>, t1: nat, t2: nat)
    requires
        t1 <= t2,
    ensures
        ntt_accepted(seed, t1).len() <= ntt_accepted(seed, t2).len(),
        forall|k: int|
            0 <= k < ntt_accepted(seed, t1).len() ==> #[trigger] ntt_accepted(seed, t2)[k]
                == ntt_accepted(seed, t1)[k],
    decreases t2,
{
    if t2 > t1 {
        lemma_ntt_accepted_prefix(seed, t1, (t2 - 1) as nat);
    }
}

/// RejNTTPoly's output on `seed`, in Montgomery form: coefficient `j`
/// is `z_j * R mod q` for the `j`-th candidate below `q` among the first
/// [`SAMPLE_BUDGET`] (zero past the last one, a case no SHAKE stream is
/// expected to reach).
pub open spec fn rej_ntt_spec(seed: Seq<u8>) -> Seq<u32> {
    let acc = ntt_accepted(seed, SAMPLE_BUDGET as nat);
    Seq::new(
        N as nat,
        |j: int|
            if j < acc.len() {
                ((acc[j] * mont_r()) % (Q as int)) as u32
            } else {
                0u32
            },
    )
}

/// Every accepted candidate is a candidate value below `q`.
proof fn lemma_ntt_accepted_members(seed: Seq<u8>, t: nat)
    ensures
        forall|k: int|
            0 <= k < ntt_accepted(seed, t).len() ==> exists|u: nat|
                u < t && #[trigger] ntt_accepted(seed, t)[k] == ntt_candidate(seed, u)
                    && ntt_candidate(seed, u) < Q,
    decreases t,
{
    if t > 0 {
        lemma_ntt_accepted_members(seed, (t - 1) as nat);
        let p = ntt_accepted(seed, (t - 1) as nat);
        assert forall|k: int| 0 <= k < ntt_accepted(seed, t).len() implies exists|u: nat|
            u < t && #[trigger] ntt_accepted(seed, t)[k] == ntt_candidate(seed, u)
                && ntt_candidate(seed, u) < Q by {
            if k < p.len() {
                let u = choose|u: nat| u < t - 1 && #[trigger] p[k] == ntt_candidate(seed, u)
                    && ntt_candidate(seed, u) < Q;
                assert(ntt_accepted(seed, t)[k] == p[k]);
                assert(u < t);
            } else {
                assert(ntt_accepted(seed, t)[k] == ntt_candidate(seed, (t - 1) as nat));
            }
        }
    }
}

/// RejNTTPoly (FIPS 204 Alg 30) reads CoeffFromThreeBytes values from
/// SHAKE-128(seed): bytes `b0, b1, b2` at an offset that is a multiple of
/// three give `b0 + 256 b1 + 65536 (b2 mod 128)`, kept when below `q`.
/// Every coefficient is such a value times `R = 2^32` modulo `q` (or 0
/// past the sampling budget), and the first coefficient comes from the
/// first three bytes whenever their value is below `q`.
pub proof fn lemma_rej_ntt_coefficients(seed: Seq<u8>)
    ensures
        forall|j: int|
            0 <= j < 256 ==> #[trigger] rej_ntt_spec(seed)[j] == 0 || exists|o: nat|
                #![trigger shake128_byte(seed, o)]
                o % 3 == 0 && ({
                    let z = shake128_byte(seed, o) as int + 256 * (shake128_byte(seed, o + 1) as int)
                        + 65536 * ((shake128_byte(seed, o + 2) as int) % 128);
                    z < Q && rej_ntt_spec(seed)[j] as int == (z * 0x1_0000_0000) % (Q as int)
                }),
        ({
            let z0 = shake128_byte(seed, 0) as int + 256 * (shake128_byte(seed, 1) as int) + 65536 * ((
            shake128_byte(seed, 2) as int) % 128);
            z0 < Q ==> rej_ntt_spec(seed)[0] as int == (z0 * 0x1_0000_0000) % (Q as int)
        }),
{
    let b = SAMPLE_BUDGET as nat;
    let acc = ntt_accepted(seed, b);
    lemma_ntt_accepted_members(seed, b);
    assert forall|j: int| 0 <= j < 256 implies #[trigger] rej_ntt_spec(seed)[j] == 0 || exists|o: nat|
        #![trigger shake128_byte(seed, o)]
        o % 3 == 0 && ({
            let z = shake128_byte(seed, o) as int + 256 * (shake128_byte(seed, o + 1) as int) + 65536 * ((
            shake128_byte(seed, o + 2) as int) % 128);
            z < Q && rej_ntt_spec(seed)[j] as int == (z * 0x1_0000_0000) % (Q as int)
        }) by {
        if j < acc.len() {
            let u = choose|u: nat| u < b && #[trigger] acc[j] == ntt_candidate(seed, u)
                && ntt_candidate(seed, u) < Q;
            let o = 3 * u;
            assert(o % 3 == 0);
            let z = shake128_byte(seed, o) as int + 256 * (shake128_byte(seed, o + 1) as int) + 65536 * ((
            shake128_byte(seed, o + 2) as int) % 128);
            assert(z == ntt_candidate(seed, u));
            vstd::arithmetic::div_mod::lemma_mod_bound(acc[j] * mont_r(), Q as int);
        }
    }
    let z0 = ntt_candidate(seed, 0);
    if z0 < Q {
        assert(ntt_accepted(seed, 0).len() == 0);
        assert(ntt_accepted(seed, 1) == seq![z0]);
        lemma_ntt_accepted_prefix(seed, 1, b);
        vstd::arithmetic::div_mod::lemma_mod_bound(z0 * mont_r(), Q as int);
    }
}

/// `p` is RejNTTPoly's output on `seed`.
pub open spec fn rej_ntt_result(seed: Seq<u8>, p: Poly<u32>) -> bool {
    &&& poly_canonical(p, Q as int)
    &&& p.coeffs@ == rej_ntt_spec(seed)
}

/// The seed `rho || s || r` of RejNTTPoly.
pub open spec fn matrix_seed(rho: Seq<u8>, s: u8, r: u8) -> Seq<u8> {
    rho + seq![s, r]
}

/// The seed `rho || s || r` of RejNTTPoly.
fn ntt_seed(rho: &[u8; 32], s: u8, r: u8) -> (seed: [u8; 34])
    ensures
        seed@ == rho@ + seq![s, r],
{
    let mut seed = [0u8; 34];
    for k in 0..32
        invariant
            forall|i: int| 0 <= i < k ==> #[trigger] seed@[i] == rho@[i],
    {
        seed[k] = rho[k];
    }
    seed[32] = s;
    seed[33] = r;
    assert(seed@ =~= rho@ + seq![s, r]);
    seed
}

/// RejNTTPoly (FIPS 204 Alg 30) on the SHAKE-128 stream of
/// `rho || s || r`, with the coefficients returned in Montgomery form.
pub fn rej_ntt_poly(rho: &[u8; 32], s: u8, r: u8) -> (out: Poly<u32>)
    ensures
        rej_ntt_result(matrix_seed(rho@, s, r), out),
        out.coeffs@ == rej_ntt_spec(rho@ + seq![s, r]),
{
    let ghost seed_v = rho@ + seq![s, r];
    let seed = ntt_seed(rho, s, r);
    let pieces: [&[u8]; 1] = [&seed];
    proof {
        lemma_concat_small(pieces@);
        lemma_r2_values();
    }
    let mut stream = Shake128Stream::new(&pieces);
    let mut out = Poly::<u32>::zero();
    let mut block = [0u8; 168];
    let mut block_pos: usize = 168;
    let mut j: usize = 0;
    let mut t: u64 = 0;
    while j < N && t < SAMPLE_BUDGET
        invariant
            crate::hashing::shake128_stream_input(stream) == seed_v,
            crate::hashing::shake128_stream_pos(stream) == 3 * t + 168 - block_pos,
            block_pos <= 168,
            block_pos % 3 == 0,
            t <= SAMPLE_BUDGET,
            forall|k: int|
                block_pos <= k < 168 ==> #[trigger] block@[k] == shake128_byte(
                    seed_v,
                    (3 * t + k - block_pos) as nat,
                ),
            j == ntt_accepted(seed_v, t as nat).len(),
            j <= N,
            forall|jj: int|
                0 <= jj < j ==> #[trigger] out.coeffs[jj] as int == (ntt_accepted(
                    seed_v,
                    t as nat,
                )[jj] * mont_r()) % (Q as int),
            forall|jj: int| j <= jj < N ==> #[trigger] out.coeffs[jj] == 0,
            poly_canonical(out, Q as int),
        decreases SAMPLE_BUDGET - t,
    {
        if block_pos + 3 > 168 {
            stream.squeeze(&mut block);
            block_pos = 0;
        }
        let b0 = block[block_pos];
        let b1 = block[block_pos + 1];
        let b2 = block[block_pos + 2];
        block_pos = block_pos + 3;
        let ghost before = ntt_accepted(seed_v, t as nat);
        assert(ntt_candidate(seed_v, t as nat) == three_bytes_value(b0 as int, b1 as int, b2 as int));
        if let Some(c) = coeff_from_three_bytes(b0, b1, b2) {
            out.coeffs[j] = to_mont(c, Q, Q_N_PRIME, Q_R2_MOD_Q);
            j = j + 1;
        }
        t = t + 1;
        assert(ntt_accepted(seed_v, t as nat) == (if ntt_candidate(seed_v, (t - 1) as nat) < Q {
            before.push(ntt_candidate(seed_v, (t - 1) as nat))
        } else {
            before
        }));
    }
    proof {
        lemma_ntt_accepted_prefix(seed_v, t as nat, SAMPLE_BUDGET as nat);
        let acc = ntt_accepted(seed_v, SAMPLE_BUDGET as nat);
        assert forall|jj: int| 0 <= jj < N implies #[trigger] out.coeffs@[jj] == rej_ntt_spec(
            seed_v,
        )[jj] by {
            if jj < j {
                assert(acc[jj] == ntt_accepted(seed_v, t as nat)[jj]);
            } else {
                assert(t == SAMPLE_BUDGET);
            }
        }
        assert(out.coeffs@ =~= rej_ntt_spec(seed_v));
    }
    out
}

/// Candidate `t` of RejBoundedPoly: the low (even `t`) or high (odd `t`)
/// nibble of byte `t / 2` of the SHAKE-256 output on `seed`.
pub open spec fn nibble_candidate(seed: Seq<u8>, t: nat) -> int {
    let b = shake256_byte(seed, t / 2) as int;
    if t % 2 == 0 {
        b % 16
    } else {
        b / 16
    }
}

/// The accepted nibbles among the first `t`, as canonical residues of
/// their CoeffFromHalfByte values.
pub open spec fn bounded_accepted(seed: Seq<u8>, eta: Eta, t: nat) -> Seq<int>
    decreases t,
{
    if t == 0 {
        Seq::empty()
    } else {
        let p = bounded_accepted(seed, eta, (t - 1) as nat);
        let c = nibble_candidate(seed, (t - 1) as nat);
        if half_byte_coeff(c, eta) is Some {
            p.push(half_byte_canon(c, eta))
        } else {
            p
        }
    }
}

/// More candidates only extend the accepted list.
pub proof fn lemma_bounded_accepted_prefix(seed: Seq<u8>, eta: Eta, t1: nat, t2: nat)
    requires
        t1 <= t2,
    ensures
        bounded_accepted(seed, eta, t1).len() <= bounded_accepted(seed, eta, t2).len(),
        forall|k: int|
            0 <= k < bounded_accepted(seed, eta, t1).len() ==> #[trigger] bounded_accepted(
                seed,
                eta,
                t2,
            )[k] == bounded_accepted(seed, eta, t1)[k],
    decreases t2,
{
    if t2 > t1 {
        lemma_bounded_accepted_prefix(seed, eta, t1, (t2 - 1) as nat);
    }
}

/// Accepted nibbles are canonical residues.
proof fn lemma_bounded_canonical(seed: Seq<u8>, eta: Eta, t: nat, k: int)
    requires
        0 <= k < bounded_accepted(seed, eta, t).len(),
    ensures
        0 <= bounded_accepted(seed, eta, t)[k] < Q,
    decreases t,
{
    if t > 0 {
        let p = bounded_accepted(seed, eta, (t - 1) as nat);
        if k < p.len() {
            lemma_bounded_canonical(seed, eta, (t - 1) as nat, k);
        } else {
            let c = nibble_candidate(seed, (t - 1) as nat);
            vstd::arithmetic::div_mod::lemma_mod_bound(half_byte_coeff(c, eta)->0, Q as int);
        }
    }
}

/// Every accepted nibble is a nibble of the stream that CoeffFromHalfByte
/// accepts, as the canonical residue of its value.
proof fn lemma_bounded_accepted_members(seed: Seq<u8>, eta: Eta, t: nat)
    ensures
        forall|k: int|
            0 <= k < bounded_accepted(seed, eta, t).len() ==> exists|u: nat|
                u < t && half_byte_coeff(nibble_candidate(seed, u), eta) is Some
                    && #[trigger] bounded_accepted(seed, eta, t)[k] == half_byte_canon(
                    nibble_candidate(seed, u),
                    eta,
                ),
    decreases t,
{
    if t > 0 {
        lemma_bounded_accepted_members(seed, eta, (t - 1) as nat);
        let p = bounded_accepted(seed, eta, (t - 1) as nat);
        assert forall|k: int| 0 <= k < bounded_accepted(seed, eta, t).len() implies exists|u: nat|
            u < t && half_byte_coeff(nibble_candidate(seed, u), eta) is Some
                && #[trigger] bounded_accepted(seed, eta, t)[k] == half_byte_canon(
                nibble_candidate(seed, u),
                eta,
            ) by {
            if k < p.len() {
                let u = choose|u: nat|
                    u < t - 1 && half_byte_coeff(nibble_candidate(seed, u), eta) is Some
                        && #[trigger] p[k] == half_byte_canon(nibble_candidate(seed, u), eta);
                assert(bounded_accepted(seed, eta, t)[k] == p[k]);
            } else {
                assert(bounded_accepted(seed, eta, t)[k] == half_byte_canon(
                    nibble_candidate(seed, (t - 1) as nat),
                    eta,
                ));
            }
        }
    }
}

/// RejBoundedPoly (FIPS 204 Alg 31) reads the nibbles of SHAKE-256(seed),
/// low nibble of each byte first, and keeps a nibble `b` as `2 - (b mod 5)`
/// when `b < 15` (`eta = 2`) or as `4 - b` when `b < 9` (`eta = 4`). Every
/// coefficient is the residue modulo `q` of such a value (or 0 past the
/// sampling budget), and the first coefficient comes from the low nibble
/// of the first byte whenever that nibble is kept.
pub proof fn lemma_rej_bounded_coefficients(seed: Seq<u8>, eta: Eta)
    ensures
        forall|j: int|
            0 <= j < 256 ==> #[trigger] rej_bounded_spec(seed, eta)[j] == 0 || exists|o: nat|
                #![trigger shake256_byte(seed, o)]
                {
                    let c = rej_bounded_spec(seed, eta)[j] as int;
                    let lo = (shake256_byte(seed, o) as int) % 16;
                    let hi = (shake256_byte(seed, o) as int) / 16;
                    match eta {
                        Eta::Eta2 => (lo < 15 && c == (2 - lo % 5) % (Q as int)) || (hi < 15 && c == (2
                            - hi % 5) % (Q as int)),
                        Eta::Eta4 => (lo < 9 && c == (4 - lo) % (Q as int)) || (hi < 9 && c == (4 - hi)
                            % (Q as int)),
                    }
                },
        ({
            let lo = (shake256_byte(seed, 0) as int) % 16;
            let c = rej_bounded_spec(seed, eta)[0] as int;
            match eta {
                Eta::Eta2 => lo < 15 ==> c == (2 - lo % 5) % (Q as int),
                Eta::Eta4 => lo < 9 ==> c == (4 - lo) % (Q as int),
            }
        }),
{
    let b = SAMPLE_BUDGET as nat;
    let acc = bounded_accepted(seed, eta, b);
    lemma_bounded_accepted_members(seed, eta, b);
    assert forall|j: int| 0 <= j < 256 implies #[trigger] rej_bounded_spec(seed, eta)[j] == 0 || exists|o: nat|
        #![trigger shake256_byte(seed, o)]
        {
            let c = rej_bounded_spec(seed, eta)[j] as int;
            let lo = (shake256_byte(seed, o) as int) % 16;
            let hi = (shake256_byte(seed, o) as int) / 16;
            match eta {
                Eta::Eta2 => (lo < 15 && c == (2 - lo % 5) % (Q as int)) || (hi < 15 && c == (2 - hi % 5)
                    % (Q as int)),
                Eta::Eta4 => (lo < 9 && c == (4 - lo) % (Q as int)) || (hi < 9 && c == (4 - hi) % (
                Q as int)),
            }
        } by {
        if j < acc.len() {
            let u = choose|u: nat|
                u < b && half_byte_coeff(nibble_candidate(seed, u), eta) is Some
                    && #[trigger] acc[j] == half_byte_canon(nibble_candidate(seed, u), eta);
            lemma_bounded_canonical(seed, eta, b, j);
            let o = u / 2;
            let x = shake256_byte(seed, o) as int;
            assert(nibble_candidate(seed, u) == if u % 2 == 0 { x % 16 } else { x / 16 });
            assert(rej_bounded_spec(seed, eta)[j] as int == acc[j]);
        }
    }
    let c0 = nibble_candidate(seed, 0);
    if half_byte_coeff(c0, eta) is Some {
        assert(bounded_accepted(seed, eta, 0).len() == 0);
        assert(bounded_accepted(seed, eta, 1) == seq![half_byte_canon(c0, eta)]);
        lemma_bounded_accepted_prefix(seed, eta, 1, b);
        lemma_bounded_canonical(seed, eta, 1, 0);
    }
}

/// The canonical residue `x` stands for a value in `[-eta, eta]`.
pub open spec fn small_coeff(x: int, eta: int) -> bool {
    0 <= x < Q && (x <= eta || x >= Q - eta)
}

/// RejBoundedPoly's output on `seed`: coefficient `j` is the `j`-th
/// accepted nibble among the first [`SAMPLE_BUDGET`] (zero past the
/// last one, a case no SHAKE stream is expected to reach).
pub open spec fn rej_bounded_spec(seed: Seq<u8>, eta: Eta) -> Seq<u32> {
    let acc = bounded_accepted(seed, eta, SAMPLE_BUDGET as nat);
    Seq::new(
        N as nat,
        |j: int|
            if j < acc.len() {
                acc[j] as u32
            } else {
                0u32
            },
    )
}

/// `p` is RejBoundedPoly's output on `seed`; its coefficients lie in
/// `[-eta, eta]`.
pub open spec fn rej_bounded_result(seed: Seq<u8>, eta: Eta, p: Poly<u32>) -> bool {
    &&& poly_canonical(p, Q as int)
    &&& forall|j: int| 0 <= j < N ==> small_coeff(#[trigger] p.coeffs[j] as int, eta.spec_value() as int)
    &&& p.coeffs@ == rej_bounded_spec(seed, eta)
}

proof fn lemma_half_byte_small(c: int, eta: Eta)
    requires
        0 <= c < 16,
        half_byte_coeff(c, eta) is Some,
    ensures
        small_coeff(half_byte_canon(c, eta), eta.spec_value() as int),
{
    let z = half_byte_coeff(c, eta)->0;
    assert(-4 <= z <= 4);
    if z < 0 {
        vstd::arithmetic::div_mod::lemma_fundamental_div_mod_converse(z, Q as int, -1, z + Q);
    } else {
        vstd::arithmetic::div_mod::lemma_fundamental_div_mod_converse(z, Q as int, 0, z);
    }
}

proof fn lemma_nibbles(b: u8)
    ensures
        (b & 0x0F) as int == b % 16,
        (b >> 4u8) as int == b / 16,
        b & 0x0F < 16,
        b >> 4u8 < 16,
{
    assert((b & 0x0F) == b % 16) by (bit_vector);
    assert((b >> 4u8) == b / 16) by (bit_vector);
}

/// Fallback for [`rej_bounded_poly`] when its fixed budget of blocks
/// did not yield `N` accepts: keep reading the stream, variable-time.
fn rej_bounded_poly_fallback(
    stream: &mut Shake256Stream,
    out: &mut Poly<u32>,
    start: usize,
    eta: Eta,
)
    requires
        crate::hashing::shake256_stream_pos(*old(stream)) == 544,
        start < N,
        start == bounded_accepted(crate::hashing::shake256_stream_input(*old(stream)), eta, 1088).len(),
        forall|jj: int|
            0 <= jj < start ==> #[trigger] old(out).coeffs[jj] as int == bounded_accepted(
                crate::hashing::shake256_stream_input(*old(stream)),
                eta,
                1088,
            )[jj],
        poly_canonical(*old(out), Q as int),
        forall|jj: int|
            0 <= jj < N ==> small_coeff(#[trigger] old(out).coeffs[jj] as int, eta.spec_value() as int),
        forall|jj: int| start <= jj < N ==> #[trigger] old(out).coeffs[jj] == 0,
    ensures
        rej_bounded_result(crate::hashing::shake256_stream_input(*old(stream)), eta, *final(out)),
{
    let ghost seed = crate::hashing::shake256_stream_input(*stream);
    let ghost ev = eta.spec_value() as int;
    let mut j: usize = start;
    let mut block = [0u8; 136];
    let mut block_pos: usize = 136;
    let mut t: u64 = 1088;
    while j < N && t < SAMPLE_BUDGET
        invariant
            crate::hashing::shake256_stream_input(*stream) == seed,
            2 * crate::hashing::shake256_stream_pos(*stream) == t + 2 * (136 - block_pos),
            block_pos <= 136,
            t % 2 == 0,
            1088 <= t <= SAMPLE_BUDGET,
            forall|k: int|
                block_pos <= k < 136 ==> #[trigger] block@[k] == shake256_byte(
                    seed,
                    (t / 2 + k - block_pos) as nat,
                ),
            j == if bounded_accepted(seed, eta, t as nat).len() < N {
                bounded_accepted(seed, eta, t as nat).len()
            } else {
                N as nat
            },
            forall|jj: int|
                0 <= jj < j ==> #[trigger] out.coeffs[jj] as int == bounded_accepted(
                    seed,
                    eta,
                    t as nat,
                )[jj],
            forall|jj: int| j <= jj < N ==> #[trigger] out.coeffs[jj] == 0,
            poly_canonical(*out, Q as int),
            forall|jj: int| 0 <= jj < N ==> small_coeff(#[trigger] out.coeffs[jj] as int, ev),
            ev == eta.spec_value(),
        decreases SAMPLE_BUDGET - t,
    {
        if block_pos >= 136 {
            stream.squeeze(&mut block);
            block_pos = 0;
        }
        let b = block[block_pos];
        block_pos = block_pos + 1;
        proof {
            lemma_nibbles(b);
        }
        let ghost a0 = bounded_accepted(seed, eta, t as nat);
        let ghost a1 = bounded_accepted(seed, eta, (t + 1) as nat);
        let ghost a2 = bounded_accepted(seed, eta, (t + 2) as nat);
        assert(nibble_candidate(seed, t as nat) == b % 16);
        assert(nibble_candidate(seed, (t + 1) as nat) == b / 16);
        if let Some(z) = coeff_from_half_byte(b & 0x0F, eta) {
            proof {
                lemma_half_byte_small((b % 16) as int, eta);
                assert(-4 <= z <= 4);
            }
            out.coeffs[j] = from_signed(z, Q);
            j = j + 1;
        }
        if j < N {
            if let Some(z) = coeff_from_half_byte(b >> 4u8, eta) {
                proof {
                    lemma_half_byte_small((b / 16) as int, eta);
                }
                out.coeffs[j] = from_signed(z, Q);
                j = j + 1;
            }
        }
        t = t + 2;
        proof {
            lemma_bounded_accepted_prefix(seed, eta, (t - 2) as nat, (t - 1) as nat);
            lemma_bounded_accepted_prefix(seed, eta, (t - 1) as nat, t as nat);
        }
    }
    proof {
        lemma_bounded_accepted_prefix(seed, eta, t as nat, SAMPLE_BUDGET as nat);
        let acc = bounded_accepted(seed, eta, SAMPLE_BUDGET as nat);
        assert forall|jj: int| 0 <= jj < N implies #[trigger] out.coeffs@[jj] == rej_bounded_spec(
            seed,
            eta,
        )[jj] by {
            if jj < j {
                assert(acc[jj] == bounded_accepted(seed, eta, t as nat)[jj]);
                lemma_bounded_canonical(seed, eta, SAMPLE_BUDGET as nat, jj);
            } else {
                assert(t == SAMPLE_BUDGET);
            }
        }
        assert(out.coeffs@ =~= rej_bounded_spec(seed, eta));
    }
}

/// The seed `rho' || r` (little-endian) of RejBoundedPoly and ExpandMask.
fn seed_66(rho: &[u8; 64], r: u16) -> (seed: [u8; 66])
    ensures
        seed@ == rho@ + seq![(r % 256) as u8, (r / 256) as u8],
{
    let mut seed = [0u8; 66];
    for k in 0..64
        invariant
            forall|i: int| 0 <= i < k ==> #[trigger] seed@[i] == rho@[i],
    {
        seed[k] = rho[k];
    }
    seed[64] = (r & 0xFF) as u8;
    seed[65] = (r >> 8u16) as u8;
    assert(((r & 0xFF) as u8) == (r % 256) as u8 && ((r >> 8u16) as u8) == (r / 256) as u8)
        by (bit_vector);
    assert(seed@ =~= rho@ + seq![(r % 256) as u8, (r / 256) as u8]);
    seed
}

/// RejBoundedPoly (FIPS 204 Alg 31) on the SHAKE-256 stream of
/// `rho' || r`: a polynomial with coefficients in `[-eta, eta]`.
///
/// The first four blocks of the stream are walked branchlessly; the
/// variable-time fallback only runs when they hold fewer than `N`
/// accepted nibbles.
pub fn rej_bounded_poly(rho_prime: &[u8; 64], r: u16, eta: Eta) -> (out: Poly<u32>)
    ensures
        rej_bounded_result(rho_prime@ + seq![(r % 256) as u8, (r / 256) as u8], eta, out),
{
    let ghost seed_v = rho_prime@ + seq![(r % 256) as u8, (r / 256) as u8];
    let ghost ev = eta.spec_value() as int;
    let seed = seed_66(rho_prime, r);
    let pieces: [&[u8]; 1] = [&seed];
    proof {
        lemma_concat_small(pieces@);
    }
    let mut stream = Shake256Stream::new(&pieces);
    let mut out = Poly::<u32>::zero();
    let mut buf = [0u8; 544];
    stream.squeeze(&mut buf);
    let mut j: u32 = 0;
    for k in 0..544
        invariant
            crate::hashing::shake256_stream_input(stream) == seed_v,
            crate::hashing::shake256_stream_pos(stream) == 544,
            forall|i: int| 0 <= i < 544 ==> #[trigger] buf@[i] == shake256_byte(seed_v, i as nat),
            j == if bounded_accepted(seed_v, eta, 2 * k as nat).len() < N {
                bounded_accepted(seed_v, eta, 2 * k as nat).len()
            } else {
                N as nat
            },
            forall|jj: int|
                0 <= jj < j ==> #[trigger] out.coeffs[jj] as int == bounded_accepted(
                    seed_v,
                    eta,
                    2 * k as nat,
                )[jj],
            forall|jj: int| j <= jj < N ==> #[trigger] out.coeffs[jj] == 0,
            poly_canonical(out, Q as int),
            forall|jj: int| 0 <= jj < N ==> small_coeff(#[trigger] out.coeffs[jj] as int, ev),
            ev == eta.spec_value(),
    {
        let b = buf[k];
        proof {
            lemma_nibbles(b);
        }
        assert(nibble_candidate(seed_v, 2 * k as nat) == b % 16);
        assert(nibble_candidate(seed_v, (2 * k + 1) as nat) == b / 16);
        let (accept_lo, val_lo) = ct_coeff_from_half_byte(b & 0x0F, eta);
        proof {
            if accept_lo == 1 {
                lemma_half_byte_small((b % 16) as int, eta);
            }
        }
        ct_maybe_write(&mut out.coeffs, &mut j, accept_lo, val_lo);
        let (accept_hi, val_hi) = ct_coeff_from_half_byte(b >> 4u8, eta);
        proof {
            if accept_hi == 1 {
                lemma_half_byte_small((b / 16) as int, eta);
            }
        }
        ct_maybe_write(&mut out.coeffs, &mut j, accept_hi, val_hi);
        proof {
            lemma_bounded_accepted_prefix(seed_v, eta, (2 * k) as nat, (2 * k + 1) as nat);
            lemma_bounded_accepted_prefix(seed_v, eta, (2 * k + 1) as nat, (2 * k + 2) as nat);
        }
    }
    if (j as usize) < N {
        rej_bounded_poly_fallback(&mut stream, &mut out, j as usize, eta);
    } else {
        proof {
            lemma_bounded_accepted_prefix(seed_v, eta, 1088, SAMPLE_BUDGET as nat);
            let acc = bounded_accepted(seed_v, eta, SAMPLE_BUDGET as nat);
            assert forall|jj: int| 0 <= jj < N implies #[trigger] out.coeffs@[jj]
                == rej_bounded_spec(seed_v, eta)[jj] by {
                assert(acc[jj] == bounded_accepted(seed_v, eta, 1088)[jj]);
                lemma_bounded_canonical(seed_v, eta, SAMPLE_BUDGET as nat, jj);
            }
            assert(out.coeffs@ =~= rej_bounded_spec(seed_v, eta));
        }
    }
    out
}

/// Sign bit `k` of SampleInBall: bit `k % 8` of byte `k / 8` of the
/// SHAKE-256 output on `seed`.
pub open spec fn ball_sign(seed: Seq<u8>, k: int) -> u32 {
    ((shake256_byte(seed, (k / 8) as nat) as u32) >> ((k % 8) as u32)) & 1u32
}

/// The first offset in `[pos, pos + fuel)` whose output byte is at
/// most `i`.
pub open spec fn ball_next(seed: Seq<u8>, i: int, pos: nat, fuel: nat) -> Option<nat>
    decreases fuel,
{
    if fuel == 0 {
        None
    } else if shake256_byte(seed, pos) as int <= i {
        Some(pos)
    } else {
        ball_next(seed, i, pos + 1, (fuel - 1) as nat)
    }
}

/// The `±1` value for a sign bit, as a canonical residue.
pub open spec fn ball_value(sign: u32) -> u32 {
    if sign == 0 {
        1
    } else {
        (Q - 1) as u32
    }
}

/// SampleInBall (FIPS 204 Alg 29) after `n` of its `tau` steps: the
/// coefficients, the offset of the next byte to read, and whether every
/// step so far found its byte within the budget (after a step that did
/// not, the coefficients stay as they were).
pub open spec fn ball_run(seed: Seq<u8>, tau: int, n: nat) -> (Seq<u32>, nat, bool)
    decreases n,
{
    if n == 0 {
        (Seq::new(N as nat, |k: int| 0u32), 8, true)
    } else {
        let prev = ball_run(seed, tau, (n - 1) as nat);
        let c = prev.0;
        let pos = prev.1;
        if !prev.2 {
            prev
        } else {
            let i = N - tau + n - 1;
            match ball_next(seed, i, pos, SAMPLE_BUDGET as nat) {
                None => (c, pos, false),
                Some(p) => {
                    let jj = shake256_byte(seed, p) as int;
                    let v = ball_value(ball_sign(seed, n - 1));
                    (c.update(i, c[jj]).update(jj, v), p + 1, true)
                },
            }
        }
    }
}

/// Number of nonzero entries of `s`.
pub open spec fn nonzero_count(s: Seq<u32>) -> nat
    decreases s.len(),
{
    if s.len() == 0 {
        0
    } else {
        nonzero_count(s.drop_last()) + if s.last() != 0 {
            1nat
        } else {
            0nat
        }
    }
}

proof fn lemma_nonzero_count_update(s: Seq<u32>, k: int, v: u32)
    requires
        0 <= k < s.len(),
    ensures
        nonzero_count(s.update(k, v)) + (if s[k] != 0 {
            1int
        } else {
            0int
        }) == nonzero_count(s) + (if v != 0 {
            1int
        } else {
            0int
        }),
    decreases s.len(),
{
    if k == s.len() - 1 {
        assert(s.update(k, v).drop_last() =~= s.drop_last());
    } else {
        lemma_nonzero_count_update(s.drop_last(), k, v);
        assert(s.update(k, v).drop_last() =~= s.drop_last().update(k, v));
    }
}

proof fn lemma_nonzero_count_zeros(s: Seq<u32>)
    requires
        forall|k: int| 0 <= k < s.len() ==> s[k] == 0,
    ensures
        nonzero_count(s) == 0,
    decreases s.len(),
{
    if s.len() > 0 {
        lemma_nonzero_count_zeros(s.drop_last());
    }
}

proof fn lemma_ball_next_found(seed: Seq<u8>, i: int, pos: nat, fuel: nat)
    ensures
        ball_next(seed, i, pos, fuel) matches Some(p) ==> shake256_byte(seed, p) as int <= i,
    decreases fuel,
{
    if fuel > 0 && shake256_byte(seed, pos) as int > i {
        lemma_ball_next_found(seed, i, pos + 1, (fuel - 1) as nat);
    }
}

/// Each completed step of SampleInBall adds exactly one nonzero
/// coefficient, and the positions it has not reached yet stay zero.
proof fn lemma_ball_run_weight(seed: Seq<u8>, tau: int, n: nat)
    requires
        0 <= tau <= 64,
        n <= tau,
        ball_run(seed, tau, n).2,
    ensures
        ball_run(seed, tau, n).0.len() == N,
        nonzero_count(ball_run(seed, tau, n).0) == n,
        forall|k: int| N - tau + n <= k < N ==> #[trigger] ball_run(seed, tau, n).0[k] == 0,
    decreases n,
{
    if n == 0 {
        lemma_nonzero_count_zeros(ball_run(seed, tau, 0).0);
    } else {
        let prev = ball_run(seed, tau, (n - 1) as nat);
        assert(prev.2);
        lemma_ball_run_weight(seed, tau, (n - 1) as nat);
        let c = prev.0;
        let i = N - tau + n - 1;
        lemma_ball_next_found(seed, i, prev.1, SAMPLE_BUDGET as nat);
        let p = ball_next(seed, i, prev.1, SAMPLE_BUDGET as nat)->Some_0;
        let jj = shake256_byte(seed, p) as int;
        let v = ball_value(ball_sign(seed, n - 1));
        let c1 = c.update(i, c[jj]);
        assert(c[i] == 0);
        lemma_nonzero_count_update(c, i, c[jj]);
        lemma_nonzero_count_update(c1, jj, v);
        if jj == i {
            assert(c1[jj] == 0);
        } else {
            assert(c1[jj] == c[jj]);
        }
        assert(ball_run(seed, tau, n).0 == c1.update(jj, v));
    }
}

/// How many entries of `s` equal `v`.
pub open spec fn count_eq(s: Seq<u32>, v: u32) -> nat
    decreases s.len(),
{
    if s.len() == 0 {
        0
    } else {
        count_eq(s.drop_last(), v) + if s.last() == v {
            1nat
        } else {
            0nat
        }
    }
}

proof fn lemma_count_eq_update(s: Seq<u32>, k: int, x: u32, v: u32)
    requires
        0 <= k < s.len(),
    ensures
        count_eq(s.update(k, x), v) + (if s[k] == v {
            1int
        } else {
            0int
        }) == count_eq(s, v) + (if x == v {
            1int
        } else {
            0int
        }),
    decreases s.len(),
{
    if k == s.len() - 1 {
        assert(s.update(k, x).drop_last() =~= s.drop_last());
    } else {
        lemma_count_eq_update(s.drop_last(), k, x, v);
        assert(s.update(k, x).drop_last() =~= s.drop_last().update(k, x));
    }
}

proof fn lemma_count_eq_zeros(s: Seq<u32>, v: u32)
    requires
        v != 0,
        forall|k: int| 0 <= k < s.len() ==> s[k] == 0,
    ensures
        count_eq(s, v) == 0,
    decreases s.len(),
{
    if s.len() > 0 {
        lemma_count_eq_zeros(s.drop_last(), v);
    }
}

/// Sign bit `t` of SampleInBall on `seed`, for each of the first `n` steps.
spec fn sign_bits(seed: Seq<u8>, n: nat) -> Seq<u32> {
    Seq::new(n, |t: int| ((shake256_byte(seed, (t / 8) as nat) as u32) >> ((t % 8) as u32)) & 1u32)
}

/// After `n` completed steps, the entries `q - 1` and `1` are as many as
/// the sign bits `1` and `0` among the first `n`.
proof fn lemma_ball_counts(seed: Seq<u8>, tau: int, n: nat)
    requires
        0 <= tau <= 64,
        n <= tau,
        ball_run(seed, tau, n).2,
    ensures
        count_eq(ball_run(seed, tau, n).0, (Q - 1) as u32) == count_eq(sign_bits(seed, n), 1),
        count_eq(ball_run(seed, tau, n).0, 1) == count_eq(sign_bits(seed, n), 0),
    decreases n,
{
    let qm = (Q - 1) as u32;
    if n == 0 {
        lemma_count_eq_zeros(ball_run(seed, tau, 0).0, qm);
        lemma_count_eq_zeros(ball_run(seed, tau, 0).0, 1);
        assert(sign_bits(seed, 0).len() == 0);
    } else {
        let prev = ball_run(seed, tau, (n - 1) as nat);
        assert(prev.2);
        lemma_ball_counts(seed, tau, (n - 1) as nat);
        lemma_ball_run_weight(seed, tau, (n - 1) as nat);
        let c = prev.0;
        let i = N - tau + n - 1;
        let p = ball_next(seed, i, prev.1, SAMPLE_BUDGET as nat)->Some_0;
        lemma_ball_next_found(seed, i, prev.1, SAMPLE_BUDGET as nat);
        let jj = shake256_byte(seed, p) as int;
        let b = ball_sign(seed, n - 1);
        let v = ball_value(b);
        let c1 = c.update(i, c[jj]);
        assert(c[i] == 0);
        assert(ball_run(seed, tau, n).0 == c1.update(jj, v));
        lemma_count_eq_update(c, i, c[jj], qm);
        lemma_count_eq_update(c1, jj, v, qm);
        lemma_count_eq_update(c, i, c[jj], 1);
        lemma_count_eq_update(c1, jj, v, 1);
        if jj == i {
            assert(c1[jj] == 0);
        } else {
            assert(c1[jj] == c[jj]);
        }
        let sb = sign_bits(seed, n);
        assert(sb.drop_last() =~= sign_bits(seed, (n - 1) as nat));
        assert(sb.last() == b);
        let x = (shake256_byte(seed, ((n - 1) / 8) as nat) as u32) >> (((n - 1) % 8) as u32);
        vstd::bits::lemma_u32_low_bits_mask_is_mod(x, 1);
        vstd::bits::lemma_low_bits_mask_values();
        vstd::arithmetic::power2::lemma2_to64();
        assert(b == x % 2);
    }
}

/// SampleInBall's output on `seed`: every coefficient is 0, 1 or
/// `q - 1`, and the coefficients are those of the algorithm's run.
pub open spec fn ball_result(seed: Seq<u8>, tau: int, c: Poly<u32>) -> bool {
    &&& forall|k: int|
        0 <= k < N ==> (#[trigger] c.coeffs[k] == 0 || c.coeffs[k] == 1 || c.coeffs[k] == Q - 1)
    &&& c.coeffs@ == ball_run(seed, tau, tau as nat).0
}

/// SampleInBall (FIPS 204 Alg 29): a polynomial with `tau` coefficients
/// `±1` drawn from the SHAKE-256 stream of `rho`.
pub fn sample_in_ball(rho: &[u8], tau: usize) -> (c: Poly<u32>)
    requires
        tau <= 64,
    ensures
        ball_result(rho@, tau as int, c),
        ball_run(rho@, tau as int, tau as nat).2 ==> nonzero_count(c.coeffs@) == tau,
        ball_run(rho@, tau as int, tau as nat).2 ==> count_eq(c.coeffs@, (Q - 1) as u32) == count_eq(
            Seq::new(
                tau as nat,
                |t: int| ((shake256_byte(rho@, (t / 8) as nat) as u32) >> ((t % 8) as u32)) & 1u32,
            ),
            1,
        ),
        ball_run(rho@, tau as int, tau as nat).2 ==> count_eq(c.coeffs@, 1) == count_eq(
            Seq::new(
                tau as nat,
                |t: int| ((shake256_byte(rho@, (t / 8) as nat) as u32) >> ((t % 8) as u32)) & 1u32,
            ),
            0,
        ),
{
    let ghost seed = rho@;
    let pieces: [&[u8]; 1] = [rho];
    proof {
        lemma_concat_small(pieces@);
    }
    let mut stream = Shake256Stream::new(&pieces);
    let mut c = Poly::<u32>::zero();
    let mut s = [0u8; 8];
    stream.squeeze(&mut s);
    let mut block = [0u8; 136];
    let mut block_pos: usize = 136;
    let ghost mut pos: nat = 8;
    let mut ok = true;
    let mut i: usize = N - tau;
    proof {
        assert(c.coeffs@ =~= Seq::new(N as nat, |k: int| 0u32));
    }
    while i < N
        invariant
            tau <= 64,
            N - tau <= i <= N,
            crate::hashing::shake256_stream_input(stream) == seed,
            crate::hashing::shake256_stream_pos(stream) == pos + 136 - block_pos,
            block_pos <= 136,
            forall|k: int|
                block_pos <= k < 136 ==> #[trigger] block@[k] == shake256_byte(
                    seed,
                    (pos + k - block_pos) as nat,
                ),
            forall|k: int| 0 <= k < 8 ==> #[trigger] s@[k] == shake256_byte(seed, k as nat),
            ok ==> ball_run(seed, tau as int, (i - (N - tau)) as nat) == (c.coeffs@, pos, true),
            !ok ==> ball_run(seed, tau as int, tau as nat).0 == c.coeffs@,
            !ok ==> i == N,
            forall|k: int|
                0 <= k < N ==> (#[trigger] c.coeffs[k] == 0 || c.coeffs[k] == 1 || c.coeffs[k] == Q
                    - 1),
        decreases N - i,
    {
        let ghost pos0 = pos;
        let ghost n = (i - (N - tau)) as nat;
        let mut scanned: u64 = 0;
        let mut found = false;
        let mut jfound: usize = 0;
        while !found && scanned < SAMPLE_BUDGET
            invariant
                N - tau <= i < N,
                crate::hashing::shake256_stream_input(stream) == seed,
                crate::hashing::shake256_stream_pos(stream) == pos + 136 - block_pos,
                block_pos <= 136,
                forall|k: int|
                    block_pos <= k < 136 ==> #[trigger] block@[k] == shake256_byte(
                        seed,
                        (pos + k - block_pos) as nat,
                    ),
                scanned <= SAMPLE_BUDGET,
                !found ==> pos == pos0 + scanned,
                !found ==> ball_next(seed, i as int, pos0, SAMPLE_BUDGET as nat) == ball_next(
                    seed,
                    i as int,
                    pos,
                    (SAMPLE_BUDGET - scanned) as nat,
                ),
                found ==> ball_next(seed, i as int, pos0, SAMPLE_BUDGET as nat) == Some(
                    (pos - 1) as nat,
                ),
                found ==> jfound == shake256_byte(seed, (pos - 1) as nat) && jfound <= i,
                pos >= pos0,
            decreases SAMPLE_BUDGET - scanned,
        {
            if block_pos >= 136 {
                stream.squeeze(&mut block);
                block_pos = 0;
            }
            let jb = block[block_pos] as usize;
            block_pos = block_pos + 1;
            proof {
                pos = pos + 1;
            }
            scanned = scanned + 1;
            if jb <= i {
                found = true;
                jfound = jb;
            }
        }
        if !found {
            proof {
                assert(ball_next(seed, i as int, pos, 0) is None);
                if ok {
                    assert(ball_run(seed, tau as int, n + 1) == (c.coeffs@, pos0, false));
                    lemma_ball_run_stuck(seed, tau as int, n + 1, tau as nat);
                }
            }
            ok = false;
            i = N;
        } else {
            let k = i + tau - N;
            let sgn = ((s[k / 8] as u32) >> ((k % 8) as u32)) & 1u32;
            let old_j = c.coeffs[jfound];
            c.coeffs[i] = old_j;
            let val: u32 = if sgn == 0 {
                1
            } else {
                Q - 1
            };
            c.coeffs[jfound] = val;
            proof {
                if ok {
                    assert(sgn == ball_sign(seed, n as int));
                    assert(ball_run(seed, tau as int, n + 1) == (c.coeffs@, pos, true));
                }
            }
            i = i + 1;
        }
    }
    proof {
        if ok {
            assert((i - (N - tau)) as nat == tau as nat);
        }
        if ball_run(seed, tau as int, tau as nat).2 {
            lemma_ball_run_weight(seed, tau as int, tau as nat);
            lemma_ball_counts(seed, tau as int, tau as nat);
            assert(sign_bits(seed, tau as nat) =~= Seq::new(
                tau as nat,
                |t: int| ((shake256_byte(seed, (t / 8) as nat) as u32) >> ((t % 8) as u32)) & 1u32,
            ));
        }
    }
    c
}

/// Once a step of SampleInBall fails, every longer run ends in the same
/// state.
proof fn lemma_ball_run_stuck(seed: Seq<u8>, tau: int, n1: nat, n2: nat)
    requires
        n1 <= n2,
        !ball_run(seed, tau, n1).2,
    ensures
        ball_run(seed, tau, n2) == ball_run(seed, tau, n1),
    decreases n2,
{
    if n2 > n1 {
        lemma_ball_run_stuck(seed, tau, n1, (n2 - 1) as nat);
    }
}

/// SampleInBall turns sign bit `0` into `+1` and sign bit `1` into
/// `-1 = q - 1` (FIPS 204: `c_j = (-1)^h[i + tau - 256]`): over a run that
/// finishes within the budget, the coefficients `q - 1` are exactly as
/// many as the `1` bits among the first `tau` bits of SHAKE-256(rho), the
/// coefficients `1` as many as the `0` bits, and the last step (which
/// accepts any byte, `j <= 255`) takes the next unread byte of the stream
/// as its position and leaves there the value of the last sign bit.
pub proof fn lemma_sample_in_ball_signs(rho: Seq<u8>, tau: int, c: Poly<u32>)
    requires
        1 <= tau <= 64,
        ball_result(rho, tau, c),
        ball_run(rho, tau, tau as nat).2,
    ensures
        count_eq(c.coeffs@, (Q - 1) as u32) == count_eq(
            Seq::new(
                tau as nat,
                |t: int| ((shake256_byte(rho, (t / 8) as nat) as u32) >> ((t % 8) as u32)) & 1u32,
            ),
            1,
        ),
        count_eq(c.coeffs@, 1) == count_eq(
            Seq::new(
                tau as nat,
                |t: int| ((shake256_byte(rho, (t / 8) as nat) as u32) >> ((t % 8) as u32)) & 1u32,
            ),
            0,
        ),
        ({
            let p = ball_run(rho, tau, (tau - 1) as nat).1;
            let bit = ((shake256_byte(rho, ((tau - 1) / 8) as nat) as u32) >> (((tau - 1) % 8) as u32)) & 1u32;
            c.coeffs[shake256_byte(rho, p) as int] == (if bit == 0 {
                1u32
            } else {
                (Q - 1) as u32
            })
        }),
{
    lemma_ball_counts(rho, tau, tau as nat);
    assert(sign_bits(rho, tau as nat) =~= Seq::new(
        tau as nat,
        |t: int| ((shake256_byte(rho, (t / 8) as nat) as u32) >> ((t % 8) as u32)) & 1u32,
    ));
    let n = tau as nat;
    let prev = ball_run(rho, tau, (n - 1) as nat);
    assert(prev.2);
    let i = N - tau + n - 1;
    assert(i == 255);
    lemma_ball_next_found(rho, i, prev.1, SAMPLE_BUDGET as nat);
    let p = ball_next(rho, 255, prev.1, SAMPLE_BUDGET as nat)->Some_0;
    assert(p == prev.1);
    let jj = shake256_byte(rho, p) as int;
    let v = ball_value(ball_sign(rho, n - 1));
    lemma_ball_run_weight(rho, tau, (n - 1) as nat);
    assert(0 <= jj < 256);
    assert(ball_run(rho, tau, n).0 == prev.0.update(i, prev.0[jj]).update(jj, v));
    assert(c.coeffs@ == ball_run(rho, tau, n).0);
    assert(c.coeffs@[jj] == v);
}

/// ExpandA (FIPS 204 Alg 32): the `K x L` matrix `A_hat` in NTT domain
/// (Montgomery form), entry `(r, s)` sampled from `rho || s || r`.
pub fn expand_a<const K: usize, const L: usize>(rho: &[u8; 32]) -> (m: PolyMatrix<u32, K, L>)
    requires
        K <= 256,
        L <= 256,
    ensures
        forall|r: int, s: int|
            0 <= r < K && 0 <= s < L ==> #[trigger] rej_ntt_result(
                matrix_seed(rho@, s as u8, r as u8),
                m.rows[r].v[s],
            ),
        forall|r: int, s: int|
            0 <= r < K && 0 <= s < L ==> #[trigger] m.rows[r].v[s].coeffs@ == rej_ntt_spec(
                rho@ + seq![s as u8, r as u8],
            ),
{
    let mut m = PolyMatrix::<u32, K, L>::zero();
    for r in 0..K
        invariant
            K <= 256,
            L <= 256,
            forall|rr: int, ss: int|
                0 <= rr < r && 0 <= ss < L ==> #[trigger] rej_ntt_result(
                    matrix_seed(rho@, ss as u8, rr as u8),
                    m.rows[rr].v[ss],
                ),
    {
        for s in 0..L
            invariant
                K <= 256,
                L <= 256,
                r < K,
                forall|rr: int, ss: int|
                    0 <= rr < r && 0 <= ss < L ==> #[trigger] rej_ntt_result(
                        matrix_seed(rho@, ss as u8, rr as u8),
                        m.rows[rr].v[ss],
                    ),
                forall|ss: int|
                    0 <= ss < s ==> #[trigger] rej_ntt_result(
                        matrix_seed(rho@, ss as u8, r as u8),
                        m.rows[r as int].v[ss],
                    ),
        {
            let p = rej_ntt_poly(rho, s as u8, r as u8);
            m.rows[r].v[s] = p;
        }
    }
    assert forall|r: int, s: int|
        0 <= r < K && 0 <= s < L implies #[trigger] m.rows[r].v[s].coeffs@ == rej_ntt_spec(
            rho@ + seq![s as u8, r as u8],
        ) by {
        assert(rej_ntt_result(matrix_seed(rho@, s as u8, r as u8), m.rows[r].v[s]));
    }
    m
}

/// The seed `rho' || n` (with `n` as two little-endian bytes).
pub open spec fn seed_with_nonce(rho: Seq<u8>, n: int) -> Seq<u8> {
    rho + seq![(n % 256) as u8, (n / 256) as u8]
}

/// ExpandS (FIPS 204 Alg 33): `s1` (length `L`, nonces `0..L`) and `s2`
/// (length `K`, nonces `L..L+K`) with coefficients in `[-eta, eta]`.
pub fn expand_s<const K: usize, const L: usize>(rho_prime: &[u8; 64], eta: Eta) -> (res: (
    PolyVec<u32, L>,
    PolyVec<u32, K>,
))
    requires
        K + L <= 0x1_0000,
    ensures
        forall|r: int|
            0 <= r < L ==> #[trigger] rej_bounded_result(
                seed_with_nonce(rho_prime@, r),
                eta,
                res.0.v[r],
            ),
        forall|r: int|
            0 <= r < K ==> #[trigger] rej_bounded_result(
                seed_with_nonce(rho_prime@, r + L),
                eta,
                res.1.v[r],
            ),
        forall|r: int|
            0 <= r < L ==> #[trigger] res.0.v[r].coeffs@ == rej_bounded_spec(
                rho_prime@ + seq![(r % 256) as u8, (r / 256) as u8],
                eta,
            ),
        forall|r: int|
            0 <= r < K ==> #[trigger] res.1.v[r].coeffs@ == rej_bounded_spec(
                rho_prime@ + seq![((r + L) % 256) as u8, ((r + L) / 256) as u8],
                eta,
            ),
{
    let mut s1 = PolyVec::<u32, L>::zero();
    let mut s2 = PolyVec::<u32, K>::zero();
    for r in 0..L
        invariant
            K + L <= 0x1_0000,
            forall|rr: int|
                0 <= rr < r ==> #[trigger] rej_bounded_result(
                    seed_with_nonce(rho_prime@, rr),
                    eta,
                    s1.v[rr],
                ),
    {
        s1.v[r] = rej_bounded_poly(rho_prime, r as u16, eta);
    }
    for r in 0..K
        invariant
            K + L <= 0x1_0000,
            forall|rr: int|
                0 <= rr < L ==> #[trigger] rej_bounded_result(
                    seed_with_nonce(rho_prime@, rr),
                    eta,
                    s1.v[rr],
                ),
            forall|rr: int|
                0 <= rr < r ==> #[trigger] rej_bounded_result(
                    seed_with_nonce(rho_prime@, rr + L),
                    eta,
                    s2.v[rr],
                ),
    {
        s2.v[r] = rej_bounded_poly(rho_prime, (r + L) as u16, eta);
    }
    assert forall|r: int| 0 <= r < L implies #[trigger] s1.v[r].coeffs@ == rej_bounded_spec(
        rho_prime@ + seq![(r % 256) as u8, (r / 256) as u8],
        eta,
    ) by {
        assert(rej_bounded_result(seed_with_nonce(rho_prime@, r), eta, s1.v[r]));
    }
    assert forall|r: int| 0 <= r < K implies #[trigger] s2.v[r].coeffs@ == rej_bounded_spec(
        rho_prime@ + seq![((r + L) % 256) as u8, ((r + L) / 256) as u8],
        eta,
    ) by {
        assert(rej_bounded_result(seed_with_nonce(rho_prime@, r + L), eta, s2.v[r]));
    }
    (s1, s2)
}

/// ExpandMask (FIPS 204 Alg 34): row `r` of `y` is the BitUnpack, for
/// the range `(-gamma1, gamma1]`, of the first `32 (1 + gamma1_bits)`
/// bytes of SHAKE-256 on `rho'' || (mu + r mod 2^16)`.
pub fn expand_mask<const L: usize>(rho_pp: &[u8; 64], mu: u16, gamma1: u32, gamma1_bits: usize) -> (res:
    Result<PolyVec<u32, L>, EncodeError>)
    requires
        gamma1 < 0x10_0000,
        1 <= gamma1_bits <= 22,
        L <= 0x1_0000,
    ensures
        res is Ok,
        res matches Ok(y) ==> forall|r: int|
            0 <= r < L ==> #[trigger] y.v[r].coeffs@ == row_signed(
                shake256_bytes(
                    seed_with_nonce(rho_pp@, (mu + r) % 0x1_0000),
                    0,
                    32 * (1 + gamma1_bits) as nat,
                ),
                0,
                (1 + gamma1_bits) as nat,
                gamma1 as int,
            ),
        res matches Ok(y) ==> forall|r: int|
            0 <= r < L ==> #[trigger] y.v[r].coeffs@ == row_signed(
                Seq::new(
                    32 * (1 + gamma1_bits) as nat,
                    |k: int|
                        shake256_byte(
                            rho_pp@ + seq![((mu + r) % 0x1_0000 % 256) as u8, ((mu + r) % 0x1_0000 / 256) as u8],
                            k as nat,
                        ),
                ),
                0,
                (1 + gamma1_bits) as nat,
                gamma1 as int,
            ),
        res matches Err(e) ==> e == EncodeError::BufferTooSmall,
{
    let mut out = PolyVec::<u32, L>::zero();
    let c_bits = 1 + gamma1_bits;
    let bytes_per_poly = N * c_bits / 8;
    assert(bytes_per_poly == 32 * c_bits) by (nonlinear_arith)
        requires
            bytes_per_poly == 256 * c_bits / 8,
    ;
    if bytes_per_poly > 1024 {
        return Err(EncodeError::BufferTooSmall);
    }
    for r in 0..L
        invariant
            gamma1 < 0x10_0000,
            1 <= gamma1_bits <= 22,
            L <= 0x1_0000,
            c_bits == 1 + gamma1_bits,
            bytes_per_poly == 32 * c_bits,
            forall|rr: int|
                0 <= rr < r ==> #[trigger] out.v[rr].coeffs@ == row_signed(
                    shake256_bytes(
                        seed_with_nonce(rho_pp@, (mu + rr) % 0x1_0000),
                        0,
                        32 * (1 + gamma1_bits) as nat,
                    ),
                    0,
                    (1 + gamma1_bits) as nat,
                    gamma1 as int,
                ),
    {
        let mu_r = mu.wrapping_add(r as u16);
        assert(mu_r == (mu + r) % 0x1_0000);
        let seed = seed_66(rho_pp, mu_r);
        let pieces: [&[u8]; 1] = [&seed];
        proof {
            lemma_concat_small(pieces@);
        }
        let mut stream = Shake256Stream::new(&pieces);
        // Room for the widest row this function accepts (`23` bits).
        let mut buf = [0u8; 768];
        stream.squeeze(&mut buf);
        let ghost bytes = buf@;
        assert(bytes =~= shake256_bytes(seed@, 0, 768));
        proof {
            crate::encoding::lemma_unpack_width(c_bits as nat);
        }
        let p = match bit_unpack_signed(&buf, gamma1, c_bits) {
            Ok(p) => p,
            Err(e) => {
                return Err(e);
            },
        };
        proof {
            let want = shake256_bytes(seed@, 0, bytes_per_poly as nat);
            assert(bytes.subrange(0, 32 * c_bits as int) =~= want.subrange(0, 32 * c_bits as int));
            assert(row_value(bytes, 0, c_bits as nat) == row_value(want, 0, c_bits as nat));
            crate::bits::lemma_bytes_value_frame(
                bytes,
                bytes.subrange(0, 32 * c_bits as int),
                (32 * c_bits) as nat,
            );
            assert(bytes_value(bytes, (32 * c_bits) as nat) == row_value(bytes, 0, c_bits as nat));
            assert(p.coeffs@ =~= row_signed(want, 0, c_bits as nat, gamma1 as int));
        }
        out.v[r] = p;
    }
    assert forall|r: int| 0 <= r < L implies #[trigger] out.v[r].coeffs@ == row_signed(
        Seq::new(
            32 * (1 + gamma1_bits) as nat,
            |k: int|
                shake256_byte(
                    rho_pp@ + seq![((mu + r) % 0x1_0000 % 256) as u8, ((mu + r) % 0x1_0000 / 256) as u8],
                    k as nat,
                ),
        ),
        0,
        (1 + gamma1_bits) as nat,
        gamma1 as int,
    ) by {
        let sd = seed_with_nonce(rho_pp@, (mu + r) % 0x1_0000);
        assert(shake256_bytes(sd, 0, 32 * (1 + gamma1_bits) as nat) =~= Seq::new(
            32 * (1 + gamma1_bits) as nat,
            |k: int| shake256_byte(sd, k as nat),
        ));
    }
    Ok(out)
}

} // verus!

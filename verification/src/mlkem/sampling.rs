//! ML-KEM sampling (FIPS 203 §4.2): `SampleNTT` (rejection sampling of
//! 12-bit values from SHAKE-128, producing an NTT-domain polynomial in
//! Montgomery form) and `SamplePolyCBD_eta` (the centered binomial
//! distribution for the secret and error polynomials).

use vstd::prelude::*;

use crate::encoding::EncodeError;
use crate::field::{lemma_r2_values, mont_r, sub_mod, to_mont};
use crate::hashing::{
    lemma_concat_small, shake128_byte, shake256_bytes, Shake128Stream, Shake256Stream,
};
use crate::mlkem::params::{Eta, N, Q, Q_N_PRIME, Q_R2_MOD_Q};
use crate::poly::{poly_canonical, Poly};
use crate::polyvec::{PolyMatrix, PolyVec};
use crate::sampling::{matrix_seed, SAMPLE_BUDGET};
use crate::sums::fsum;
use crate::hashing::shake256_byte;

verus! {

/// Candidate `t` of SampleNTT: the low (even `t`) or high (odd `t`)
/// 12-bit half of the three bytes `3 (t/2) .. 3 (t/2) + 2` of the
/// SHAKE-128 output on `seed`.
pub open spec fn kem_ntt_candidate(seed: Seq<u8>, t: nat) -> int {
    let g = t / 2;
    let b0 = shake128_byte(seed, 3 * g) as int;
    let b1 = shake128_byte(seed, 3 * g + 1) as int;
    let b2 = shake128_byte(seed, 3 * g + 2) as int;
    if t % 2 == 0 {
        b0 + (b1 % 16) * 256
    } else {
        b1 / 16 + b2 * 16
    }
}

/// The accepted candidates (those below `q`) among the first `t`.
pub open spec fn kem_ntt_accepted(seed: Seq<u8>, t: nat) -> Seq<int>
    decreases t,
{
    if t == 0 {
        Seq::empty()
    } else {
        let p = kem_ntt_accepted(seed, (t - 1) as nat);
        let z = kem_ntt_candidate(seed, (t - 1) as nat);
        if z < Q {
            p.push(z)
        } else {
            p
        }
    }
}

/// More candidates only extend the accepted list.
pub proof fn lemma_kem_ntt_accepted_prefix(seed: Seq<u8>, t1: nat, t2: nat)
    requires
        t1 <= t2,
    ensures
        kem_ntt_accepted(seed, t1).len() <= kem_ntt_accepted(seed, t2).len(),
        forall|k: int|
            0 <= k < kem_ntt_accepted(seed, t1).len() ==> #[trigger] kem_ntt_accepted(seed, t2)[k]
                == kem_ntt_accepted(seed, t1)[k],
    decreases t2,
{
    if t2 > t1 {
        lemma_kem_ntt_accepted_prefix(seed, t1, (t2 - 1) as nat);
    }
}

/// SampleNTT's output on `seed`, in Montgomery form: coefficient `j` is
/// `z_j * R mod q` for the `j`-th candidate below `q` among the first
/// [`SAMPLE_BUDGET`] (zero past the last one, a case no SHAKE stream is
/// expected to reach).
pub open spec fn sample_ntt_spec(seed: Seq<u8>) -> Seq<u32> {
    let acc = kem_ntt_accepted(seed, SAMPLE_BUDGET as nat);
    Seq::new(
        N as nat,
        |j: int|
            if j < acc.len() {
                ((acc[j] * mont_r()) % (Q as int)) as u32
            } else {
                0u32
            },
    )
}

/// Every accepted candidate is a candidate value below `q`.
proof fn lemma_kem_ntt_accepted_members(seed: Seq<u8>, t: nat)
    ensures
        forall|k: int|
            0 <= k < kem_ntt_accepted(seed, t).len() ==> exists|u: nat|
                u < t && #[trigger] kem_ntt_accepted(seed, t)[k] == kem_ntt_candidate(seed, u)
                    && kem_ntt_candidate(seed, u) < Q,
    decreases t,
{
    if t > 0 {
        lemma_kem_ntt_accepted_members(seed, (t - 1) as nat);
        let p = kem_ntt_accepted(seed, (t - 1) as nat);
        assert forall|k: int| 0 <= k < kem_ntt_accepted(seed, t).len() implies exists|u: nat|
            u < t && #[trigger] kem_ntt_accepted(seed, t)[k] == kem_ntt_candidate(seed, u)
                && kem_ntt_candidate(seed, u) < Q by {
            if k < p.len() {
                let u = choose|u: nat| u < t - 1 && #[trigger] p[k] == kem_ntt_candidate(seed, u)
                    && kem_ntt_candidate(seed, u) < Q;
                assert(kem_ntt_accepted(seed, t)[k] == p[k]);
            } else {
                assert(kem_ntt_accepted(seed, t)[k] == kem_ntt_candidate(seed, (t - 1) as nat));
            }
        }
    }
}

/// SampleNTT (FIPS 203 Alg 7) reads SHAKE-128(seed) three bytes
/// `b0, b1, b2` at a time (at offsets that are multiples of three) and
/// forms the 12-bit values `b0 + 256 (b1 mod 16)` and
/// `(b1 div 16) + 16 b2`, keeping those below `q`. Every coefficient is
/// such a value times `R = 2^32` modulo `q` (or 0 past the sampling
/// budget), and the first coefficient comes from the first two bytes
/// whenever their value is below `q`.
#[verifier::spinoff_prover]
#[verifier::rlimit(50)]
pub proof fn lemma_sample_ntt_coefficients(seed: Seq<u8>)
    ensures
        forall|j: int|
            0 <= j < 256 ==> #[trigger] sample_ntt_spec(seed)[j] == 0 || exists|o: nat|
                #![trigger shake128_byte(seed, o)]
                o % 3 == 0 && ({
                    let b0 = shake128_byte(seed, o) as int;
                    let b1 = shake128_byte(seed, o + 1) as int;
                    let b2 = shake128_byte(seed, o + 2) as int;
                    let c = sample_ntt_spec(seed)[j] as int;
                    (b0 + 256 * (b1 % 16) < Q && c == ((b0 + 256 * (b1 % 16)) * 0x1_0000_0000) % (
                    Q as int)) || (b1 / 16 + 16 * b2 < Q && c == ((b1 / 16 + 16 * b2) * 0x1_0000_0000)
                        % (Q as int))
                }),
        ({
            let z0 = shake128_byte(seed, 0) as int + 256 * ((shake128_byte(seed, 1) as int) % 16);
            z0 < Q ==> sample_ntt_spec(seed)[0] as int == (z0 * 0x1_0000_0000) % (Q as int)
        }),
{
    let b = SAMPLE_BUDGET as nat;
    let acc = kem_ntt_accepted(seed, b);
    lemma_kem_ntt_accepted_members(seed, b);
    assert forall|j: int| 0 <= j < 256 implies #[trigger] sample_ntt_spec(seed)[j] == 0 || exists|o: nat|
        #![trigger shake128_byte(seed, o)]
        o % 3 == 0 && ({
            let b0 = shake128_byte(seed, o) as int;
            let b1 = shake128_byte(seed, o + 1) as int;
            let b2 = shake128_byte(seed, o + 2) as int;
            let c = sample_ntt_spec(seed)[j] as int;
            (b0 + 256 * (b1 % 16) < Q && c == ((b0 + 256 * (b1 % 16)) * 0x1_0000_0000) % (Q as int)) || (
            b1 / 16 + 16 * b2 < Q && c == ((b1 / 16 + 16 * b2) * 0x1_0000_0000) % (Q as int))
        }) by {
        if j < acc.len() {
            let u = choose|u: nat| u < b && #[trigger] acc[j] == kem_ntt_candidate(seed, u)
                && kem_ntt_candidate(seed, u) < Q;
            let o = 3 * (u / 2);
            assert(o % 3 == 0);
            let b0 = shake128_byte(seed, o) as int;
            let b1 = shake128_byte(seed, o + 1) as int;
            let b2 = shake128_byte(seed, o + 2) as int;
            let z = kem_ntt_candidate(seed, u);
            let c = sample_ntt_spec(seed)[j] as int;
            vstd::arithmetic::div_mod::lemma_mod_bound(acc[j] * mont_r(), Q as int);
            assert(c == (z * 0x1_0000_0000) % (Q as int));
            if u % 2 == 0 {
                assert(z == b0 + (b1 % 16) * 256);
                assert(b0 + 256 * (b1 % 16) < Q && c == ((b0 + 256 * (b1 % 16)) * 0x1_0000_0000) % (Q as int));
            } else {
                assert(z == b1 / 16 + b2 * 16);
                assert(b1 / 16 + 16 * b2 < Q && c == ((b1 / 16 + 16 * b2) * 0x1_0000_0000) % (Q as int));
            }
        }
    }
    let z0 = kem_ntt_candidate(seed, 0);
    if z0 < Q {
        assert(kem_ntt_accepted(seed, 0).len() == 0);
        assert(kem_ntt_accepted(seed, 1) == seq![z0]);
        lemma_kem_ntt_accepted_prefix(seed, 1, b);
        vstd::arithmetic::div_mod::lemma_mod_bound(z0 * mont_r(), Q as int);
    }
}

/// `p` is SampleNTT's output on `seed`.
pub open spec fn sample_ntt_result(seed: Seq<u8>, p: Poly<u32>) -> bool {
    &&& poly_canonical(p, Q as int)
    &&& p.coeffs@ == sample_ntt_spec(seed)
}

proof fn lemma_twelve_bits(b0: u8, b1: u8, b2: u8)
    ensures
        ((b0 as u32) | (((b1 as u32) & 0x0F) << 8u32)) as int == b0 + (b1 % 16) * 256,
        (((b1 as u32) >> 4u32) | ((b2 as u32) << 4u32)) as int == b1 / 16 + b2 * 16,
{
    assert(((b0 as u32) | (((b1 as u32) & 0x0F) << 8u32)) == b0 + (b1 % 16) * 256)
        by (bit_vector);
    assert((((b1 as u32) >> 4u32) | ((b2 as u32) << 4u32)) == b1 / 16 + b2 * 16)
        by (bit_vector);
}

/// SampleNTT (FIPS 203 Alg 7) on the SHAKE-128 stream of `rho || j || i`,
/// with the coefficients returned in Montgomery form.
pub fn sample_ntt(rho: &[u8; 32], j: u8, i: u8) -> (out: Poly<u32>)
    ensures
        sample_ntt_result(matrix_seed(rho@, j, i), out),
{
    let ghost seed_v = matrix_seed(rho@, j, i);
    let mut seed = [0u8; 34];
    for k in 0..32
        invariant
            forall|x: int| 0 <= x < k ==> #[trigger] seed@[x] == rho@[x],
    {
        seed[k] = rho[k];
    }
    seed[32] = j;
    seed[33] = i;
    assert(seed@ =~= seed_v);
    let pieces: [&[u8]; 1] = [&seed];
    proof {
        lemma_concat_small(pieces@);
        lemma_r2_values();
    }
    let mut stream = Shake128Stream::new(&pieces);
    let mut out = Poly::<u32>::zero();
    let mut block = [0u8; 168];
    let mut block_pos: usize = 168;
    let mut idx: usize = 0;
    let mut t: u64 = 0;
    while idx < N && t < SAMPLE_BUDGET
        invariant
            crate::hashing::shake128_stream_input(stream) == seed_v,
            2 * crate::hashing::shake128_stream_pos(stream) == 3 * t + 2 * (168 - block_pos),
            block_pos <= 168,
            block_pos % 3 == 0,
            t % 2 == 0,
            t <= SAMPLE_BUDGET,
            forall|k: int|
                block_pos <= k < 168 ==> #[trigger] block@[k] == shake128_byte(
                    seed_v,
                    (3 * (t / 2) + k - block_pos) as nat,
                ),
            idx == if kem_ntt_accepted(seed_v, t as nat).len() < N {
                kem_ntt_accepted(seed_v, t as nat).len()
            } else {
                N as nat
            },
            forall|jj: int|
                0 <= jj < idx ==> #[trigger] out.coeffs[jj] as int == (kem_ntt_accepted(
                    seed_v,
                    t as nat,
                )[jj] * mont_r()) % (Q as int),
            forall|jj: int| idx <= jj < N ==> #[trigger] out.coeffs[jj] == 0,
            poly_canonical(out, Q as int),
        decreases SAMPLE_BUDGET - t,
    {
        if block_pos + 3 > 168 {
            stream.squeeze(&mut block);
            block_pos = 0;
        }
        let b0 = block[block_pos] as u32;
        let b1 = block[block_pos + 1] as u32;
        let b2 = block[block_pos + 2] as u32;
        block_pos = block_pos + 3;
        proof {
            lemma_twelve_bits(b0 as u8, b1 as u8, b2 as u8);
        }
        let d1 = b0 | ((b1 & 0x0F) << 8u32);
        let d2 = (b1 >> 4u32) | (b2 << 4u32);
        assert(kem_ntt_candidate(seed_v, t as nat) == d1);
        assert(kem_ntt_candidate(seed_v, (t + 1) as nat) == d2);
        if d1 < Q {
            out.coeffs[idx] = to_mont(d1, Q, Q_N_PRIME, Q_R2_MOD_Q);
            idx = idx + 1;
        }
        if d2 < Q && idx < N {
            out.coeffs[idx] = to_mont(d2, Q, Q_N_PRIME, Q_R2_MOD_Q);
            idx = idx + 1;
        }
        t = t + 2;
        proof {
            lemma_kem_ntt_accepted_prefix(seed_v, (t - 2) as nat, (t - 1) as nat);
            lemma_kem_ntt_accepted_prefix(seed_v, (t - 1) as nat, t as nat);
        }
    }
    proof {
        lemma_kem_ntt_accepted_prefix(seed_v, t as nat, SAMPLE_BUDGET as nat);
        let acc = kem_ntt_accepted(seed_v, SAMPLE_BUDGET as nat);
        assert forall|jj: int| 0 <= jj < N implies #[trigger] out.coeffs@[jj] == sample_ntt_spec(
            seed_v,
        )[jj] by {
            if jj < idx {
                assert(acc[jj] == kem_ntt_accepted(seed_v, t as nat)[jj]);
            } else {
                assert(t >= SAMPLE_BUDGET);
            }
        }
        assert(out.coeffs@ =~= sample_ntt_spec(seed_v));
    }
    out
}

/// Bit `k` of a byte string, least significant bit of each byte first.
pub open spec fn bit_of(b: Seq<u8>, k: int) -> int {
    ((b[k / 8] >> ((k % 8) as u8)) & 1u8) as int
}

/// Sum of the `n` bits of `b` starting at bit `start`.
pub open spec fn bit_sum(b: Seq<u8>, start: int, n: nat) -> int
    decreases n,
{
    if n == 0 {
        0
    } else {
        bit_sum(b, start, (n - 1) as nat) + bit_of(b, start + n - 1)
    }
}

/// SamplePolyCBD_eta (FIPS 203 Alg 8): coefficient `i` is the canonical
/// residue of `x - y`, the sums of the two runs of `eta` bits at
/// `2 eta i`.
pub open spec fn cbd_poly(b: Seq<u8>, eta: nat) -> Seq<u32> {
    Seq::new(
        N as nat,
        |i: int|
            ((bit_sum(b, 2 * eta * i, eta) - bit_sum(b, 2 * eta * i + eta, eta)) % (Q as int)) as u32,
    )
}

proof fn lemma_bit_sum_bound(b: Seq<u8>, start: int, n: nat)
    ensures
        0 <= bit_sum(b, start, n) <= n,
    decreases n,
{
    if n > 0 {
        lemma_bit_sum_bound(b, start, (n - 1) as nat);
        let x = b[(start + n - 1) / 8];
        let s = ((start + n - 1) % 8) as u8;
        assert((x >> s) & 1u8 <= 1) by (bit_vector);
    }
}

/// One bit of `bytes`, or `BufferTooSmall` when it lies past the end.
fn read_bit(bytes: &[u8], k: usize) -> (r: Result<u32, EncodeError>)
    ensures
        r is Ok <==> k / 8 < bytes.len(),
        r matches Ok(v) ==> v as int == bit_of(bytes@, k as int),
        r matches Err(e) ==> e == EncodeError::BufferTooSmall,
{
    if k / 8 >= bytes.len() {
        return Err(EncodeError::BufferTooSmall);
    }
    let byte = bytes[k / 8];
    let s = (k % 8) as u8;
    let v = ((byte >> s) & 1u8) as u32;
    Ok(v)
}

/// SamplePolyCBD_eta (FIPS 203 Alg 8) on `bytes`; fails iff fewer than
/// `64 eta` bytes are given.
pub fn sample_poly_cbd(bytes: &[u8], eta: Eta) -> (res: Result<Poly<u32>, EncodeError>)
    ensures
        res is Ok <==> bytes.len() >= 64 * eta.spec_value(),
        res matches Ok(p) ==> p.coeffs@ == cbd_poly(bytes@, eta.spec_value() as nat),
        res matches Ok(p) ==> poly_canonical(p, Q as int),
        res matches Err(e) ==> e == EncodeError::BufferTooSmall,
{
    let mut out = Poly::<u32>::zero();
    let eta_val = eta.value() as usize;
    let ghost ev = eta_val as nat;
    let two_eta = 2 * eta_val;
    for i in 0..N
        invariant
            eta_val == eta.spec_value(),
            ev == eta_val,
            2 <= eta_val <= 3,
            two_eta == 2 * eta_val,
            i > 0 ==> 2 * eta_val * i <= 8 * bytes.len(),
            forall|k: int|
                0 <= k < i ==> #[trigger] out.coeffs[k] == cbd_poly(bytes@, ev)[k],
            forall|k: int| 0 <= k < i ==> #[trigger] out.coeffs[k] < Q,
    {
        assert(i * two_eta <= 6 * 256) by (nonlinear_arith)
            requires
                two_eta <= 6,
                i < 256,
        ;
        let base = i * two_eta;
        assert(base == 2 * ev * i) by (nonlinear_arith)
            requires
                base == i * two_eta,
                two_eta == 2 * ev,
        ;
        assert(base + two_eta <= 6 * 256) by (nonlinear_arith)
            requires
                base == i * two_eta,
                two_eta <= 6,
                i < 256,
        ;
        let mut x: u32 = 0;
        for j in 0..eta_val
            invariant
                2 <= eta_val <= 3,
                eta_val == eta.spec_value(),
                base + 2 * eta_val <= 6 * 256,
                base == 2 * eta_val * i,
                i < 256,
                x as int == bit_sum(bytes@, base as int, j as nat),
                x <= j,
        {
            let bit = match read_bit(bytes, base + j) {
                Ok(v) => v,
                Err(e) => {
                    proof {
                        assert(bytes.len() < 64 * eta_val) by (nonlinear_arith)
                            requires
                                (base + j) / 8 >= bytes.len(),
                                base + j < base + 2 * eta_val,
                                base == 2 * eta_val * i,
                                i < 256,
                        ;
                    }
                    return Err(e);
                },
            };
            proof {
                lemma_bit_sum_bound(bytes@, base as int, j as nat);
                let xb = bytes@[(base + j) / 8];
                let sb = ((base + j) % 8) as u8;
                assert((xb >> sb) & 1u8 <= 1) by (bit_vector);
            }
            x = x + bit;
        }
        let mut y: u32 = 0;
        for j in 0..eta_val
            invariant
                2 <= eta_val <= 3,
                eta_val == eta.spec_value(),
                base + 2 * eta_val <= 6 * 256,
                base == 2 * eta_val * i,
                i < 256,
                y as int == bit_sum(bytes@, (base + eta_val) as int, j as nat),
                y <= j,
                j > 0 ==> (base + eta_val + j - 1) / 8 < bytes.len(),
        {
            let bit = match read_bit(bytes, base + eta_val + j) {
                Ok(v) => v,
                Err(e) => {
                    proof {
                        assert(bytes.len() < 64 * eta_val) by (nonlinear_arith)
                            requires
                                (base + eta_val + j) / 8 >= bytes.len(),
                                base + eta_val + j < base + 2 * eta_val,
                                base == 2 * eta_val * i,
                                i < 256,
                        ;
                    }
                    return Err(e);
                },
            };
            proof {
                let xb = bytes@[(base + eta_val + j) / 8];
                let sb = ((base + eta_val + j) % 8) as u8;
                assert((xb >> sb) & 1u8 <= 1) by (bit_vector);
            }
            y = y + bit;
        }
        out.coeffs[i] = sub_mod(x, y, Q);
        proof {
            assert(2 * eta_val * (i + 1) <= 8 * bytes.len()) by (nonlinear_arith)
                requires
                    (base + 2 * eta_val - 1) / 8 < bytes.len(),
                    base == 2 * eta_val * i,
            ;
        }
    }
    proof {
        assert(bytes.len() >= 64 * eta_val) by (nonlinear_arith)
            requires
                2 * eta_val * 256 <= 8 * bytes.len(),
        ;
        assert(out.coeffs@ =~= cbd_poly(bytes@, ev));
    }
    Ok(out)
}

/// `PRF_eta(s, b)` followed by SamplePolyCBD_eta: the CBD polynomial of
/// the first `64 eta` bytes of SHAKE-256 on `s || b`.
pub open spec fn prf_cbd(s: Seq<u8>, b: u8, eta: Eta) -> Seq<u32> {
    cbd_poly(shake256_bytes(s + seq![b], 0, 64 * eta.spec_value() as nat), eta.spec_value() as nat)
}

proof fn lemma_bit_sum_fsum(b: Seq<u8>, start: int, n: nat)
    ensures
        bit_sum(b, start, n) == fsum(n, |t: int| ((b[(start + t) / 8] >> (((start + t) % 8) as u8)) & 1u8) as int),
    decreases n,
{
    if n > 0 {
        lemma_bit_sum_fsum(b, start, (n - 1) as nat);
    }
}

/// PRF_eta followed by SamplePolyCBD_eta (FIPS 203 Algs 8, 14): with
/// `B = SHAKE-256(s || b)` read as bits `B_k = (B[k div 8] >> (k mod 8)) & 1`,
/// coefficient `i` is `(x - y) mod q` where `x` is the sum of the `eta`
/// bits from `2 eta i` and `y` the sum of the next `eta` bits.
pub proof fn lemma_prf_cbd_coefficients(s: Seq<u8>, b: u8, eta: Eta)
    ensures
        prf_cbd(s, b, eta).len() == 256,
        forall|i: int|
            0 <= i < 256 ==> #[trigger] prf_cbd(s, b, eta)[i] as int == (fsum(
                eta.spec_value() as nat,
                |t: int|
                    ((shake256_byte(s + seq![b], ((2 * eta.spec_value() * i + t) / 8) as nat) >> (((2
                        * eta.spec_value() * i + t) % 8) as u8)) & 1u8) as int,
            ) - fsum(
                eta.spec_value() as nat,
                |t: int|
                    ((shake256_byte(
                        s + seq![b],
                        ((2 * eta.spec_value() * i + eta.spec_value() + t) / 8) as nat,
                    ) >> (((2 * eta.spec_value() * i + eta.spec_value() + t) % 8) as u8)) & 1u8) as int,
            )) % (Q as int),
{
    let e = eta.spec_value() as int;
    let bytes = shake256_bytes(s + seq![b], 0, (64 * e) as nat);
    assert forall|i: int| 0 <= i < 256 implies #[trigger] prf_cbd(s, b, eta)[i] as int == (fsum(
        e as nat,
        |t: int|
            ((shake256_byte(s + seq![b], ((2 * e * i + t) / 8) as nat) >> (((2 * e * i + t) % 8) as u8))
                & 1u8) as int,
    ) - fsum(
        e as nat,
        |t: int|
            ((shake256_byte(s + seq![b], ((2 * e * i + e + t) / 8) as nat) >> (((2 * e * i + e + t) % 8)
                as u8)) & 1u8) as int,
    )) % (Q as int) by {
        let f1 = |t: int| ((bytes[(2 * e * i + t) / 8] >> (((2 * e * i + t) % 8) as u8)) & 1u8) as int;
        let g1 = |t: int|
            ((shake256_byte(s + seq![b], ((2 * e * i + t) / 8) as nat) >> (((2 * e * i + t) % 8) as u8))
                & 1u8) as int;
        let f2 = |t: int| ((bytes[(2 * e * i + e + t) / 8] >> (((2 * e * i + e + t) % 8) as u8)) & 1u8) as int;
        let g2 = |t: int|
            ((shake256_byte(s + seq![b], ((2 * e * i + e + t) / 8) as nat) >> (((2 * e * i + e + t) % 8)
                as u8)) & 1u8) as int;
        lemma_bit_sum_fsum(bytes, 2 * e * i, e as nat);
        lemma_bit_sum_fsum(bytes, 2 * e * i + e, e as nat);
        assert(2 <= e <= 3);
        assert forall|t: int| 0 <= t < e implies #[trigger] f1(t) == g1(t) by {
            assert(0 <= 2 * e * i + t < 8 * 64 * e) by (nonlinear_arith)
                requires
                    0 <= i < 256,
                    0 <= t < e,
                    2 <= e <= 3,
            ;
        }
        assert forall|t: int| 0 <= t < e implies #[trigger] f2(t) == g2(t) by {
            assert(0 <= 2 * e * i + e + t < 8 * 64 * e) by (nonlinear_arith)
                requires
                    0 <= i < 256,
                    0 <= t < e,
                    2 <= e <= 3,
            ;
        }
        crate::sums::lemma_fsum_ext(e as nat, f1, g1);
        crate::sums::lemma_fsum_ext(e as nat, f2, g2);
        let x = bit_sum(bytes, 2 * e * i, e as nat);
        let y = bit_sum(bytes, 2 * e * i + e, e as nat);
        lemma_bit_sum_bound(bytes, 2 * e * i, e as nat);
        lemma_bit_sum_bound(bytes, 2 * e * i + e, e as nat);
        vstd::arithmetic::div_mod::lemma_mod_bound(x - y, Q as int);
    }
}

/// One PRF_eta + SamplePolyCBD_eta step on the seed `s || b`.
pub fn sample_cbd_from_seed(s: &[u8; 32], b: u8, eta: Eta) -> (res: Result<Poly<u32>, EncodeError>)
    ensures
        res is Ok,
        res matches Ok(p) ==> p.coeffs@ == prf_cbd(s@, b, eta),
        res matches Ok(p) ==> poly_canonical(p, Q as int),
        res matches Err(e) ==> e == EncodeError::BufferTooSmall,
{
    let mut seed = [0u8; 33];
    for k in 0..32
        invariant
            forall|x: int| 0 <= x < k ==> #[trigger] seed@[x] == s@[x],
    {
        seed[k] = s[k];
    }
    seed[32] = b;
    assert(seed@ =~= s@ + seq![b]);
    let pieces: [&[u8]; 1] = [&seed];
    proof {
        lemma_concat_small(pieces@);
    }
    let mut stream = Shake256Stream::new(&pieces);
    match eta {
        Eta::Two => {
            let mut buf = [0u8; 128];
            stream.squeeze(&mut buf);
            assert(buf@ =~= shake256_bytes(s@ + seq![b], 0, 64 * eta.spec_value() as nat));
            sample_poly_cbd(&buf, eta)
        },
        Eta::Three => {
            let mut buf = [0u8; 192];
            stream.squeeze(&mut buf);
            assert(buf@ =~= shake256_bytes(s@ + seq![b], 0, 64 * eta.spec_value() as nat));
            sample_poly_cbd(&buf, eta)
        },
    }
}

/// ExpandA (FIPS 203 §6.1): the `K x K` matrix `A_hat` in NTT domain
/// (Montgomery form), entry `(i, j)` sampled from `rho || j || i`.
pub fn expand_a<const K: usize>(rho: &[u8; 32]) -> (m: PolyMatrix<u32, K, K>)
    requires
        K <= 256,
    ensures
        forall|i: int, j: int|
            0 <= i < K && 0 <= j < K ==> #[trigger] sample_ntt_result(
                matrix_seed(rho@, j as u8, i as u8),
                m.rows[i].v[j],
            ),
{
    let mut m = PolyMatrix::<u32, K, K>::zero();
    for i in 0..K
        invariant
            K <= 256,
            forall|ii: int, jj: int|
                0 <= ii < i && 0 <= jj < K ==> #[trigger] sample_ntt_result(
                    matrix_seed(rho@, jj as u8, ii as u8),
                    m.rows[ii].v[jj],
                ),
    {
        for j in 0..K
            invariant
                K <= 256,
                i < K,
                forall|ii: int, jj: int|
                    0 <= ii < i && 0 <= jj < K ==> #[trigger] sample_ntt_result(
                        matrix_seed(rho@, jj as u8, ii as u8),
                        m.rows[ii].v[jj],
                    ),
                forall|jj: int|
                    0 <= jj < j ==> #[trigger] sample_ntt_result(
                        matrix_seed(rho@, jj as u8, i as u8),
                        m.rows[i as int].v[jj],
                    ),
        {
            let p = sample_ntt(rho, j as u8, i as u8);
            m.rows[i].v[j] = p;
        }
    }
    m
}

/// Sample `s` and `e` (K-PKE.KeyGen, FIPS 203 Alg 13 lines 8-15): `s_i`
/// from nonce `i`, `e_i` from nonce `K + i`, both with `eta1`.
pub fn sample_se<const K: usize>(sigma: &[u8; 32], eta1: Eta) -> (res: Result<
    (PolyVec<u32, K>, PolyVec<u32, K>),
    EncodeError,
>)
    requires
        K <= 128,
    ensures
        res is Ok,
        res matches Ok(t) ==> forall|i: int|
            0 <= i < K ==> #[trigger] t.0.v[i].coeffs@ == prf_cbd(sigma@, i as u8, eta1),
        res matches Ok(t) ==> forall|i: int|
            0 <= i < K ==> #[trigger] t.1.v[i].coeffs@ == prf_cbd(sigma@, (K + i) as u8, eta1),
        res matches Ok(t) ==> forall|i: int| 0 <= i < K ==> poly_canonical(#[trigger] t.0.v[i], Q as int),
        res matches Ok(t) ==> forall|i: int| 0 <= i < K ==> poly_canonical(#[trigger] t.1.v[i], Q as int),
        res matches Err(e) ==> e == EncodeError::BufferTooSmall,
{
    let mut s = PolyVec::<u32, K>::zero();
    let mut e = PolyVec::<u32, K>::zero();
    for i in 0..K
        invariant
            K <= 128,
            forall|ii: int| 0 <= ii < i ==> #[trigger] s.v[ii].coeffs@ == prf_cbd(sigma@, ii as u8, eta1),
            forall|ii: int| 0 <= ii < i ==> poly_canonical(#[trigger] s.v[ii], Q as int),
    {
        let p = match sample_cbd_from_seed(sigma, i as u8, eta1) {
            Ok(p) => p,
            Err(x) => {
                return Err(x);
            },
        };
        s.v[i] = p;
    }
    for i in 0..K
        invariant
            K <= 128,
            forall|ii: int| 0 <= ii < K ==> #[trigger] s.v[ii].coeffs@ == prf_cbd(sigma@, ii as u8, eta1),
            forall|ii: int| 0 <= ii < K ==> poly_canonical(#[trigger] s.v[ii], Q as int),
            forall|ii: int|
                0 <= ii < i ==> #[trigger] e.v[ii].coeffs@ == prf_cbd(sigma@, (K + ii) as u8, eta1),
            forall|ii: int| 0 <= ii < i ==> poly_canonical(#[trigger] e.v[ii], Q as int),
    {
        let p = match sample_cbd_from_seed(sigma, (K + i) as u8, eta1) {
            Ok(p) => p,
            Err(x) => {
                return Err(x);
            },
        };
        e.v[i] = p;
    }
    Ok((s, e))
}

/// Sample `y` (nonces `0..K`, `eta1`) and `e2` (nonce `2K`, `eta2`) for
/// K-PKE.Encrypt (FIPS 203 Alg 14); the `e1` rows come from
/// [`sample_e1_row`].
pub fn sample_re_y_e2<const K: usize>(r_seed: &[u8; 32], eta1: Eta, eta2: Eta) -> (res: Result<
    (PolyVec<u32, K>, Poly<u32>),
    EncodeError,
>)
    requires
        K <= 127,
    ensures
        res is Ok,
        res matches Ok(t) ==> forall|i: int|
            0 <= i < K ==> #[trigger] t.0.v[i].coeffs@ == prf_cbd(r_seed@, i as u8, eta1),
        res matches Ok(t) ==> forall|i: int| 0 <= i < K ==> poly_canonical(#[trigger] t.0.v[i], Q as int),
        res matches Ok(t) ==> t.1.coeffs@ == prf_cbd(r_seed@, (2 * K) as u8, eta2),
        res matches Ok(t) ==> poly_canonical(t.1, Q as int),
        res matches Err(e) ==> e == EncodeError::BufferTooSmall,
{
    let mut r = PolyVec::<u32, K>::zero();
    for i in 0..K
        invariant
            K <= 127,
            forall|ii: int| 0 <= ii < i ==> #[trigger] r.v[ii].coeffs@ == prf_cbd(r_seed@, ii as u8, eta1),
            forall|ii: int| 0 <= ii < i ==> poly_canonical(#[trigger] r.v[ii], Q as int),
    {
        let p = match sample_cbd_from_seed(r_seed, i as u8, eta1) {
            Ok(p) => p,
            Err(x) => {
                return Err(x);
            },
        };
        r.v[i] = p;
    }
    let e2 = match sample_cbd_from_seed(r_seed, (2 * K) as u8, eta2) {
        Ok(p) => p,
        Err(x) => {
            return Err(x);
        },
    };
    Ok((r, e2))
}

/// The `i`-th `e1` row of K-PKE.Encrypt (nonce `K + i`, `eta2`).
pub fn sample_e1_row<const K: usize>(r_seed: &[u8; 32], i: usize, eta2: Eta) -> (res: Result<
    Poly<u32>,
    EncodeError,
>)
    requires
        K + i < 256,
    ensures
        res is Ok,
        res matches Ok(p) ==> p.coeffs@ == prf_cbd(r_seed@, (K + i) as u8, eta2),
        res matches Ok(p) ==> poly_canonical(p, Q as int),
        res matches Err(e) ==> e == EncodeError::BufferTooSmall,
{
    sample_cbd_from_seed(r_seed, (K + i) as u8, eta2)
}

} // verus!

//! K-PKE (FIPS 203 Alg 13-15): the IND-CPA scheme that ML-KEM wraps
//! with the Fujisaki-Okamoto transform.
//!
//! NTT-domain values are kept in Montgomery form; they are taken out of
//! it at every ByteEncode and put back after every ByteDecode. The
//! contracts describe each output through the spec functions below,
//! which follow the algorithm step by step on coefficient sequences.

use vstd::prelude::*;

use crate::bits::{digit, fits, packed_value};
use crate::encoding::pack_bits_at;
use crate::ct::{eq_mask, xor_diff};
use crate::blinding::{blind_inv_mont, blind_mont, derive_pair, scale_mont};
use crate::encoding::{copy_into, row_digits, row_value, take_32, EncodeError};
use crate::field::{from_mont, lemma_r2_values, mont_mul_spec, mont_r, mont_value, to_mont};
use crate::hashing::{concat_pieces, pieces_of, sha3_512, sha3_512_digest};
use crate::mlkem::encoding::{
    byte_decode, byte_encode, byte_encode_vec, compress_poly, compress_spec, decompress_poly,
    decompress_spec,
};
use crate::mlkem::ntt::{
    acc_spec, inv_ntt, kem_inv_ntt_spec, kem_ntt_spec, mul_ntt, mul_ntt_acc, mul_ntt_spec,
    polys_coeffs,
};
use crate::mlkem::params::{kem_params_ok, Eta, Params, N, Q, Q_N_PRIME, Q_R2_MOD_Q};
use crate::mlkem::sampling::{
    expand_a, prf_cbd, sample_e1_row, sample_ntt, sample_ntt_result, sample_ntt_spec,
    sample_re_y_e2, sample_se,
};
use crate::sampling::matrix_seed;
use crate::ntt::as_ints;
use crate::poly::{poly_canonical, Poly};
use crate::polyvec::PolyVec;

verus! {

/// The zero polynomial.
pub open spec fn zero_seq() -> Seq<int> {
    Seq::new(N as nat, |c: int| 0int)
}

/// Coefficient-wise `(a + b) mod q`.
pub open spec fn add_q(a: Seq<int>, b: Seq<int>) -> Seq<int> {
    Seq::new(N as nat, |c: int| (a[c] + b[c]) % (Q as int))
}

/// Coefficient-wise `(a - b) mod q`.
pub open spec fn sub_q(a: Seq<int>, b: Seq<int>) -> Seq<int> {
    Seq::new(N as nat, |c: int| (a[c] - b[c]) % (Q as int))
}

/// `sum_{j < n} a[j] o b[j]` in the NTT domain, one MultiplyNTTs per
/// term, accumulated modulo `q`.
pub open spec fn ntt_dot(a: Seq<Seq<int>>, b: Seq<Seq<int>>, n: nat) -> Seq<int>
    decreases n,
{
    if n == 0 {
        zero_seq()
    } else {
        add_q(ntt_dot(a, b, (n - 1) as nat), mul_ntt_spec(a[n - 1], b[n - 1]))
    }
}

/// The canonical values behind Montgomery-form coefficients.
pub open spec fn canon_seq(x: Seq<int>) -> Seq<u32> {
    Seq::new(N as nat, |c: int| mont_value(x[c], Q as int) as u32)
}

/// Montgomery form `x * R mod q` of each coefficient.
pub open spec fn to_mont_seq(x: Seq<u32>) -> Seq<int> {
    Seq::new(N as nat, |c: int| (x[c] as int * mont_r()) % (Q as int))
}

/// `Compress_d` of each coefficient.
pub open spec fn compress_seq(x: Seq<int>, d: nat) -> Seq<u32> {
    Seq::new(N as nat, |c: int| compress_spec(x[c], d) as u32)
}

/// `Decompress_d` of each coefficient.
pub open spec fn decompress_seq(y: Seq<u32>, d: nat) -> Seq<u32> {
    Seq::new(N as nat, |c: int| decompress_spec(y[c] as int, d) as u32)
}

/// NTT of the CBD polynomials of `seed` with nonces `first, first + 1,
/// ..., first + k - 1`.
pub open spec fn ntt_noise(seed: Seq<u8>, first: int, k: nat, eta: Eta) -> Seq<Seq<int>> {
    Seq::new(k, |i: int| kem_ntt_spec(prf_cbd(seed, (first + i) as u8, eta)))
}

/// Row `i` of `A_hat`: entry `j` is SampleNTT of `rho || j || i`.
pub open spec fn a_hat_row(rho: Seq<u8>, i: int, k: nat) -> Seq<Seq<int>> {
    Seq::new(k, |j: int| as_ints(sample_ntt_spec(matrix_seed(rho, j as u8, i as u8))))
}

/// Row `i` of the transpose of `A_hat`: entry `j` is SampleNTT of
/// `rho || i || j`.
pub open spec fn a_hat_t_row(rho: Seq<u8>, i: int, k: nat) -> Seq<Seq<int>> {
    Seq::new(k, |j: int| as_ints(sample_ntt_spec(matrix_seed(rho, i as u8, j as u8))))
}

/// `(rho, sigma) = G(d || k)`: the first half of the digest.
pub open spec fn keygen_rho(d: Seq<u8>, k: nat) -> Seq<u8> {
    sha3_512_digest(d + seq![k as u8]).subrange(0, 32)
}

/// `(rho, sigma) = G(d || k)`: the second half of the digest.
pub open spec fn keygen_sigma(d: Seq<u8>, k: nat) -> Seq<u8> {
    sha3_512_digest(d + seq![k as u8]).subrange(32, 64)
}

/// `s_hat` of K-PKE.KeyGen (Montgomery form).
pub open spec fn keygen_s_hat(d: Seq<u8>, k: nat, eta1: Eta) -> Seq<Seq<int>> {
    ntt_noise(keygen_sigma(d, k), 0, k, eta1)
}

/// Row `i` of `t_hat = A_hat s_hat + e_hat` (Montgomery form).
pub open spec fn keygen_t_hat_row(d: Seq<u8>, k: nat, eta1: Eta, i: int) -> Seq<int> {
    add_q(
        acc_spec(a_hat_row(keygen_rho(d, k), i, k), keygen_s_hat(d, k, eta1), k),
        ntt_noise(keygen_sigma(d, k), k as int, k, eta1)[i],
    )
}

/// `ek` holds the K-PKE encryption key generated from `d`:
/// `ByteEncode_12(t_hat) || rho`.
pub open spec fn keygen_ek(d: Seq<u8>, k: nat, eta1: Eta, ek: Seq<u8>) -> bool {
    &&& ek.len() == 384 * k + 32
    &&& forall|i: int|
        0 <= i < k ==> #[trigger] row_value(ek, 384 * i, 12) == packed_value(
            canon_seq(keygen_t_hat_row(d, k, eta1, i)),
            12,
            N as nat,
        )
    &&& ek.subrange(384 * k as int, 384 * k + 32int) == keygen_rho(d, k)
}

/// The first `384 k` bytes of `dk` hold `ByteEncode_12(s_hat)`.
pub open spec fn keygen_dk(d: Seq<u8>, k: nat, eta1: Eta, dk: Seq<u8>) -> bool {
    forall|i: int|
        0 <= i < k ==> #[trigger] row_value(dk, 384 * i, 12) == packed_value(
            canon_seq(keygen_s_hat(d, k, eta1)[i]),
            12,
            N as nat,
        )
}

/// Montgomery-form coefficients back to canonical form.
fn poly_from_mont(p: &Poly<u32>) -> (out: Poly<u32>)
    ensures
        out.coeffs@ == canon_seq(as_ints(p.coeffs@)),
        poly_canonical(out, Q as int),
{
    let mut out = Poly::<u32>::zero();
    for k in 0..N
        invariant
            forall|c: int|
                0 <= c < k ==> #[trigger] out.coeffs[c] as int == mont_value(
                    p.coeffs[c] as int,
                    Q as int,
                ),
            forall|c: int| 0 <= c < k ==> #[trigger] out.coeffs[c] < Q,
    {
        out.coeffs[k] = from_mont(p.coeffs[k], Q, Q_N_PRIME);
    }
    assert(out.coeffs@ =~= canon_seq(as_ints(p.coeffs@)));
    out
}

/// [`poly_from_mont`] on every polynomial of a vector.
fn polyvec_from_mont<const LEN: usize>(v: &PolyVec<u32, LEN>) -> (out: PolyVec<u32, LEN>)
    ensures
        forall|i: int| 0 <= i < LEN ==> #[trigger] out.v[i].coeffs@ == canon_seq(as_ints(v.v[i].coeffs@)),
        forall|i: int| 0 <= i < LEN ==> poly_canonical(#[trigger] out.v[i], Q as int),
{
    let mut out = PolyVec::<u32, LEN>::zero();
    for i in 0..LEN
        invariant
            forall|ii: int|
                0 <= ii < i ==> #[trigger] out.v[ii].coeffs@ == canon_seq(as_ints(v.v[ii].coeffs@)),
            forall|ii: int| 0 <= ii < i ==> poly_canonical(#[trigger] out.v[ii], Q as int),
    {
        let p = poly_from_mont(&v.v[i]);
        out.v[i] = p;
    }
    out
}

/// Canonical coefficients into Montgomery form.
fn poly_to_mont(p: &Poly<u32>) -> (out: Poly<u32>)
    ensures
        as_ints(out.coeffs@) == to_mont_seq(p.coeffs@),
        poly_canonical(out, Q as int),
{
    proof {
        lemma_r2_values();
    }
    let mut out = Poly::<u32>::zero();
    for k in 0..N
        invariant
            Q_R2_MOD_Q == (mont_r() * mont_r()) % (Q as int),
            forall|c: int|
                0 <= c < k ==> #[trigger] out.coeffs[c] as int == (p.coeffs[c] as int * mont_r()) % (
                Q as int),
            forall|c: int| 0 <= c < k ==> #[trigger] out.coeffs[c] < Q,
    {
        out.coeffs[k] = to_mont(p.coeffs[k], Q, Q_N_PRIME, Q_R2_MOD_Q);
    }
    assert(as_ints(out.coeffs@) =~= to_mont_seq(p.coeffs@));
    out
}

/// NTT of every polynomial of a vector, in place.
fn ntt_all<const LEN: usize>(v: &mut PolyVec<u32, LEN>)
    ensures
        forall|i: int|
            0 <= i < LEN ==> #[trigger] as_ints(final(v).v[i].coeffs@) == kem_ntt_spec(
                old(v).v[i].coeffs@,
            ),
        forall|i: int| 0 <= i < LEN ==> poly_canonical(#[trigger] final(v).v[i], Q as int),
{
    for i in 0..LEN
        invariant
            forall|ii: int|
                0 <= ii < i ==> #[trigger] as_ints(v.v[ii].coeffs@) == kem_ntt_spec(
                    old(v).v[ii].coeffs@,
                ),
            forall|ii: int| 0 <= ii < i ==> poly_canonical(#[trigger] v.v[ii], Q as int),
            forall|ii: int| i <= ii < LEN ==> #[trigger] v.v[ii] == old(v).v[ii],
    {
        let mut p = v.v[i];
        crate::mlkem::ntt::ntt(&mut p);
        v.v[i] = p;
    }
}

/// K-PKE.KeyGen (FIPS 203 Alg 13) from the seed `d`: writes
/// `ByteEncode_12(t_hat) || rho` to `ek_out` and `ByteEncode_12(s_hat)`
/// to the first `384 K` bytes of `dk_out`.
pub fn keygen_impl<const K: usize>(
    params: &Params<K>,
    d: &[u8; 32],
    ek_out: &mut [u8],
    dk_out: &mut [u8],
) -> (res: Result<(), EncodeError>)
    requires
        kem_params_ok(*params),
    ensures
        final(ek_out).len() == old(ek_out).len(),
        final(dk_out).len() == old(dk_out).len(),
        res is Ok <==> (old(ek_out).len() == 384 * K + 32 && old(dk_out).len() >= 384 * K),
        res is Err ==> res == Err::<(), EncodeError>(EncodeError::BufferTooSmall),
        res is Ok ==> keygen_ek(d@, K as nat, params.eta1, final(ek_out)@),
        res is Ok ==> keygen_dk(d@, K as nat, params.eta1, final(dk_out)@),
        res is Ok ==> forall|j: int|
            384 * K <= j < final(dk_out).len() ==> #[trigger] final(dk_out)@[j] == old(dk_out)@[j],
        res is Err && old(ek_out).len() < 384 * K ==> final(ek_out)@ == old(ek_out)@ && final(dk_out)@
            == old(dk_out)@,
        res is Err && old(ek_out).len() >= 384 * K ==> forall|i: int|
            0 <= i < K ==> #[trigger] row_value(final(ek_out)@, 384 * i, 12) == packed_value(
                canon_seq(keygen_t_hat_row(d@, K as nat, params.eta1, i)),
                12,
                N as nat,
            ),
        res is Err && old(ek_out).len() >= 384 * K && old(ek_out).len() != 384 * K + 32
            ==> final(dk_out)@ == old(dk_out)@,
        res is Err && old(ek_out).len() >= 384 * K && old(ek_out).len() != 384 * K + 32 ==> forall|j: int|
            384 * K <= j < final(ek_out).len() ==> #[trigger] final(ek_out)@[j] == old(ek_out)@[j],
        res is Err && old(ek_out).len() == 384 * K + 32 ==> keygen_ek(d@, K as nat, params.eta1, final(ek_out)@),
        res is Err && old(ek_out).len() == 384 * K + 32 ==> forall|i: int|
            0 <= i < rows_fitting(old(dk_out).len() as int, 384) ==> #[trigger] row_value(
                final(dk_out)@,
                384 * i,
                12,
            ) == packed_value(canon_seq(keygen_s_hat(d@, K as nat, params.eta1)[i]), 12, N as nat),
        res is Err && old(ek_out).len() == 384 * K + 32 ==> forall|j: int|
            384 * rows_fitting(old(dk_out).len() as int, 384) <= j < final(dk_out).len()
                ==> #[trigger] final(dk_out)@[j] == old(dk_out)@[j],
{
    let kb: [u8; 1] = [K as u8];
    let pieces: [&[u8]; 2] = [d, &kb];
    proof {
        crate::hashing::lemma_concat_small(pieces@);
        assert(kb@ =~= seq![K as u8]);
    }
    let g = sha3_512(&pieces);
    let rho = take_32(&g, 0);
    let sigma = take_32(&g, 32);
    let ghost kk = K as nat;
    assert(rho@ == keygen_rho(d@, kk));
    assert(sigma@ == keygen_sigma(d@, kk));

    let a_hat = expand_a::<K>(&rho);
    let (mut s_hat, mut e_hat) = match sample_se::<K>(&sigma, params.eta1) {
        Ok(t) => t,
        Err(e) => {
            return Err(e);
        },
    };
    ntt_all(&mut s_hat);
    ntt_all(&mut e_hat);
    assert(polys_coeffs(s_hat.v@) =~= keygen_s_hat(d@, kk, params.eta1));

    let mut t_hat = PolyVec::<u32, K>::zero();
    assert forall|ii: int, jj: int|
        0 <= ii < K && 0 <= jj < K implies #[trigger] sample_ntt_spec(
            matrix_seed(rho@, jj as u8, ii as u8),
        ) == a_hat.rows[ii].v[jj].coeffs@ && poly_canonical(a_hat.rows[ii].v[jj], Q as int) by {
        assert(sample_ntt_result(matrix_seed(rho@, jj as u8, ii as u8), a_hat.rows[ii].v[jj]));
    }
    for i in 0..K
        invariant
            2 <= K <= 4,
            kk == K as nat,
            rho@ == keygen_rho(d@, kk),
            sigma@ == keygen_sigma(d@, kk),
            polys_coeffs(s_hat.v@) == keygen_s_hat(d@, kk, params.eta1),
            forall|ii: int| 0 <= ii < K ==> poly_canonical(#[trigger] s_hat.v[ii], Q as int),
            forall|ii: int| 0 <= ii < K ==> poly_canonical(#[trigger] e_hat.v[ii], Q as int),
            forall|ii: int|
                0 <= ii < K ==> #[trigger] as_ints(e_hat.v[ii].coeffs@) == ntt_noise(
                    sigma@,
                    K as int,
                    kk,
                    params.eta1,
                )[ii],
            forall|ii: int, jj: int|
                0 <= ii < K && 0 <= jj < K ==> #[trigger] sample_ntt_spec(
                    matrix_seed(rho@, jj as u8, ii as u8),
                ) == a_hat.rows[ii].v[jj].coeffs@ && poly_canonical(a_hat.rows[ii].v[jj], Q as int),
            forall|ii: int|
                0 <= ii < i ==> #[trigger] as_ints(t_hat.v[ii].coeffs@) == keygen_t_hat_row(
                    d@,
                    kk,
                    params.eta1,
                    ii,
                ),
            forall|ii: int| 0 <= ii < i ==> poly_canonical(#[trigger] t_hat.v[ii], Q as int),
    {
        let mut row = Poly::<u32>::zero();
        assert forall|j: int| 0 <= j < K implies poly_canonical(#[trigger] a_hat.rows[i as int].v@[j], Q as int) by {
            assert(sample_ntt_spec(matrix_seed(rho@, j as u8, i as u8)) == a_hat.rows[i as int].v[j].coeffs@);
        }
        mul_ntt_acc(&mut row, &a_hat.rows[i].v, &s_hat.v);
        proof {
            assert forall|j: int| 0 <= j < K implies #[trigger] polys_coeffs(a_hat.rows[i as int].v@)[j]
                == a_hat_row(rho@, i as int, kk)[j] by {
                assert(sample_ntt_spec(matrix_seed(rho@, j as u8, i as u8)) == a_hat.rows[i as int].v[j].coeffs@);
            }
            assert(polys_coeffs(a_hat.rows[i as int].v@) =~= a_hat_row(rho@, i as int, kk));
        }
        let sum = row.add(&e_hat.v[i], Q);
        proof {
            let acc = acc_spec(a_hat_row(rho@, i as int, kk), keygen_s_hat(d@, kk, params.eta1), kk);
            assert(as_ints(row.coeffs@) == acc);
            let e = ntt_noise(sigma@, K as int, kk, params.eta1)[i as int];
            assert(as_ints(e_hat.v[i as int].coeffs@) == e);
            assert forall|c: int| 0 <= c < N implies #[trigger] as_ints(sum.coeffs@)[c] == add_q(acc, e)[c] by {
                assert(as_ints(row.coeffs@)[c] == row.coeffs[c]);
                assert(as_ints(e_hat.v[i as int].coeffs@)[c] == e_hat.v[i as int].coeffs[c]);
            }
            assert(as_ints(sum.coeffs@) =~= keygen_t_hat_row(d@, kk, params.eta1, i as int));
        }
        t_hat.v[i] = sum;
    }

    let t_canon = polyvec_from_mont(&t_hat);
    assert forall|i: int| 0 <= i < K implies fits(#[trigger] t_canon.v[i].coeffs@, 12) by {
        vstd::arithmetic::power2::lemma2_to64();
        assert forall|c: int| 0 <= c < t_canon.v[i].coeffs@.len() implies (#[trigger] t_canon.v[i].coeffs@[c] as nat) < vstd::arithmetic::power2::pow2(12) by {
            assert(t_canon.v[i].coeffs[c] < Q);
        }
    }
    if ek_out.len() < 384 * K {
        return Err(EncodeError::BufferTooSmall);
    }
    match byte_encode_vec(&t_canon, 12, ek_out) {
        Ok(()) => {},
        Err(_) => {
            return Err(EncodeError::BufferTooSmall);
        },
    }
    proof {
        assert forall|i: int| 0 <= i < K implies #[trigger] row_value(ek_out@, 384 * i, 12)
            == packed_value(canon_seq(keygen_t_hat_row(d@, kk, params.eta1, i)), 12, N as nat) by {
            assert(row_value(ek_out@, 32 * 12 * i, 12) == packed_value(t_canon.v[i].coeffs@, 12, N as nat));
        }
    }
    if ek_out.len() != 384 * K + 32 {
        return Err(EncodeError::BufferTooSmall);
    }
    let ghost ek_rows = ek_out@;
    copy_into(&rho, ek_out, 384 * K);
    proof {
        assert forall|i: int| 0 <= i < K implies #[trigger] row_value(ek_out@, 384 * i, 12)
            == packed_value(canon_seq(keygen_t_hat_row(d@, kk, params.eta1, i)), 12, N as nat) by {
            assert(row_value(ek_rows, 32 * 12 * i, 12) == packed_value(t_canon.v[i].coeffs@, 12, N as nat));
            assert(384 * i + 384 <= 384 * K) by (nonlinear_arith)
                requires
                    i < K,
            ;
            crate::encoding::lemma_row_value_frame(ek_rows, ek_out@, 384 * i, 12);
        }
    }

    let s_canon = polyvec_from_mont(&s_hat);
    assert forall|i: int| 0 <= i < K implies fits(#[trigger] s_canon.v[i].coeffs@, 12) by {
        vstd::arithmetic::power2::lemma2_to64();
        assert forall|c: int| 0 <= c < s_canon.v[i].coeffs@.len() implies (#[trigger] s_canon.v[i].coeffs@[c] as nat) < vstd::arithmetic::power2::pow2(12) by {
            assert(s_canon.v[i].coeffs[c] < Q);
        }
    }
    match byte_encode_vec(&s_canon, 12, dk_out) {
        Ok(()) => {},
        Err(_) => {
            proof {
                assert forall|i: int| 0 <= i < rows_fitting(old(dk_out).len() as int, 384) implies #[trigger] row_value(
                    dk_out@,
                    384 * i,
                    12,
                ) == packed_value(canon_seq(keygen_s_hat(d@, kk, params.eta1)[i]), 12, N as nat) by {
                    assert((old(dk_out).len() as int) / (32 * 12 as int) == rows_fitting(old(dk_out).len() as int, 384));
                    assert(row_value(dk_out@, 32 * 12 * i, 12) == packed_value(s_canon.v[i].coeffs@, 12, N as nat));
                    assert(i < K) by {
                        if i >= K {
                            assert(384 * i >= 384 * K) by (nonlinear_arith)
                                requires
                                    i >= K,
                            ;
                            vstd::arithmetic::div_mod::lemma_fundamental_div_mod(old(dk_out).len() as int, 384);
                        }
                    }
                    assert(polys_coeffs(s_hat.v@)[i] == as_ints(s_hat.v[i].coeffs@));
                }
            }
            return Err(EncodeError::BufferTooSmall);
        },
    }
    proof {
        assert forall|i: int| 0 <= i < K implies #[trigger] row_value(dk_out@, 384 * i, 12)
            == packed_value(canon_seq(keygen_s_hat(d@, kk, params.eta1)[i]), 12, N as nat) by {
            assert(row_value(dk_out@, 32 * 12 * i, 12) == packed_value(s_canon.v[i].coeffs@, 12, N as nat));
            assert(polys_coeffs(s_hat.v@)[i] == as_ints(s_hat.v[i].coeffs@));
        }
    }
    Ok(())
}


/// `t_hat` decoded from the first `384 k` bytes of `ek`, in Montgomery
/// form.
pub open spec fn ek_t_hat(ek: Seq<u8>, k: nat) -> Seq<Seq<int>> {
    Seq::new(k, |j: int| to_mont_seq(row_digits(ek, 384 * j, 12)))
}

/// `mu = Decompress_1(ByteDecode_1(m))`.
pub open spec fn message_poly(m: Seq<u8>) -> Seq<int> {
    as_ints(decompress_seq(row_digits(m, 0, 1), 1))
}

/// `v = NTT^-1(t_hat^T o y_hat) + e2 + mu` of K-PKE.Encrypt (Alg 14),
/// with `y` from nonces `0..k` and `e2` from nonce `2k`.
pub open spec fn encrypt_v_spec<const K: usize>(
    params: Params<K>,
    ek: Seq<u8>,
    m: Seq<u8>,
    r: Seq<u8>,
) -> Seq<int> {
    add_q(
        add_q(
            kem_inv_ntt_spec(
                ntt_dot(ek_t_hat(ek, K as nat), ntt_noise(r, 0, K as nat, params.eta1), K as nat),
            ),
            as_ints(prf_cbd(r, (2 * K) as u8, params.eta2)),
        ),
        message_poly(m),
    )
}

/// Row `i` of `u = NTT^-1(A_hat^T o y_hat) + e1` of K-PKE.Encrypt
/// (Alg 14), with `rho` the last 32 bytes of `ek` and `e1_i` from nonce
/// `k + i`.
pub open spec fn encrypt_u_spec<const K: usize>(params: Params<K>, ek: Seq<u8>, r: Seq<u8>, i: int) -> Seq<int> {
    add_q(
        kem_inv_ntt_spec(
            acc_spec(
                a_hat_t_row(ek.subrange(384 * K as int, 384 * K + 32int), i, K as nat),
                ntt_noise(r, 0, K as nat, params.eta1),
                K as nat,
            ),
        ),
        as_ints(prf_cbd(r, (K + i) as u8, params.eta2)),
    )
}

/// K-PKE.KeyGen and K-PKE.Encrypt (FIPS 203 Algs 13, 14) in terms of the
/// hash outputs: with `(rho, sigma) = SHA3-512(d || k)` split in halves,
/// row `i` of `t_hat` is `sum_j A_hat[i][j] s_hat[j] + e_hat[i]` with
/// `A_hat[i][j] = SampleNTT(rho || j || i)`, `s_hat` from nonces `0..k`
/// and `e_hat` from nonces `k..2k` of PRF(sigma); row `i` of `u` is
/// `NTT^-1(sum_j A_hat[j][i] y_hat[j]) + e1_i` with `A_hat[j][i] =
/// SampleNTT(rho || i || j)` for the `rho` at the end of `ek`, `y` from
/// nonces `0..k` and `e1_i` from nonce `k + i` of PRF(r); and
/// `v = NTT^-1(t_hat^T y_hat) + e2 + mu` with `e2` from nonce `2k`.
pub proof fn lemma_kpke_structure<const K: usize>(
    params: Params<K>,
    d: Seq<u8>,
    ek: Seq<u8>,
    m: Seq<u8>,
    r: Seq<u8>,
    i: int,
)
    requires
        0 <= i < K,
    ensures
        keygen_t_hat_row(d, K as nat, params.eta1, i) == add_q(
            acc_spec(
                Seq::new(
                    K as nat,
                    |j: int|
                        as_ints(
                            sample_ntt_spec(
                                sha3_512_digest(d + seq![K as u8]).subrange(0, 32) + seq![j as u8, i as u8],
                            ),
                        ),
                ),
                Seq::new(
                    K as nat,
                    |j: int|
                        kem_ntt_spec(
                            prf_cbd(sha3_512_digest(d + seq![K as u8]).subrange(32, 64), j as u8, params.eta1),
                        ),
                ),
                K as nat,
            ),
            kem_ntt_spec(
                prf_cbd(
                    sha3_512_digest(d + seq![K as u8]).subrange(32, 64),
                    (K + i) as u8,
                    params.eta1,
                ),
            ),
        ),
        encrypt_u_spec(params, ek, r, i) == add_q(
            kem_inv_ntt_spec(
                acc_spec(
                    Seq::new(
                        K as nat,
                        |j: int|
                            as_ints(
                                sample_ntt_spec(
                                    ek.subrange(384 * K as int, 384 * K + 32int) + seq![i as u8, j as u8],
                                ),
                            ),
                    ),
                    Seq::new(K as nat, |j: int| kem_ntt_spec(prf_cbd(r, j as u8, params.eta1))),
                    K as nat,
                ),
            ),
            as_ints(prf_cbd(r, (K + i) as u8, params.eta2)),
        ),
        encrypt_v_spec(params, ek, m, r) == add_q(
            add_q(
                kem_inv_ntt_spec(
                    ntt_dot(
                        ek_t_hat(ek, K as nat),
                        Seq::new(K as nat, |j: int| kem_ntt_spec(prf_cbd(r, j as u8, params.eta1))),
                        K as nat,
                    ),
                ),
                as_ints(prf_cbd(r, (2 * K) as u8, params.eta2)),
            ),
            message_poly(m),
        ),
{
    let g = sha3_512_digest(d + seq![K as u8]);
    assert(a_hat_row(keygen_rho(d, K as nat), i, K as nat) =~= Seq::new(
        K as nat,
        |j: int| as_ints(sample_ntt_spec(g.subrange(0, 32) + seq![j as u8, i as u8])),
    ));
    assert(keygen_s_hat(d, K as nat, params.eta1) =~= Seq::new(
        K as nat,
        |j: int| kem_ntt_spec(prf_cbd(g.subrange(32, 64), j as u8, params.eta1)),
    ));
    assert(a_hat_t_row(ek.subrange(384 * K as int, 384 * K + 32int), i, K as nat) =~= Seq::new(
        K as nat,
        |j: int|
            as_ints(sample_ntt_spec(ek.subrange(384 * K as int, 384 * K + 32int) + seq![i as u8, j as u8])),
    ));
    assert(ntt_noise(r, 0, K as nat, params.eta1) =~= Seq::new(
        K as nat,
        |j: int| kem_ntt_spec(prf_cbd(r, j as u8, params.eta1)),
    ));
}

/// `ct` starts with the K-PKE ciphertext of `m` under `ek` with coins
/// `r`: `ByteEncode_du(Compress_du(u)) || ByteEncode_dv(Compress_dv(v))`.
pub open spec fn kpke_ct<const K: usize>(
    params: Params<K>,
    ek: Seq<u8>,
    m: Seq<u8>,
    r: Seq<u8>,
    ct: Seq<u8>,
) -> bool {
    &&& forall|i: int|
        0 <= i < K ==> #[trigger] row_value(ct, 32 * params.du * i, params.du as nat) == packed_value(
            compress_seq(encrypt_u_spec(params, ek, r, i), params.du as nat),
            params.du as nat,
            N as nat,
        )
    &&& row_value(ct, 32 * params.du * K, params.dv as nat) == packed_value(
        compress_seq(encrypt_v_spec(params, ek, m, r), params.dv as nat),
        params.dv as nat,
        N as nat,
    )
}

/// The `32 d` bytes of `bytes` at `off`, ByteDecode_d'ed.
fn decode_row(bytes: &[u8], off: usize, d: usize) -> (p: Poly<u32>)
    requires
        1 <= d <= 12,
        off + 32 * d <= bytes.len(),
    ensures
        p.coeffs@ == row_digits(bytes@, off as int, d as nat),
        fits(p.coeffs@, d as nat),
{
    let slice = &bytes[off..off + 32 * d];
    proof {
        crate::encoding::lemma_row_of_slice(bytes@, slice@, off as int, d as nat);
    }
    match byte_decode(slice, d) {
        Ok(p) => {
            assert(p.coeffs@ =~= row_digits(bytes@, off as int, d as nat));
            p
        },
        Err(_) => {
            assert(false);
            Poly::zero()
        },
    }
}

/// `sum_j t_hat_j o y_j` over the `t_hat` rows decoded from `ek`.
fn t_dot_y<const K: usize>(ek: &[u8], y: &PolyVec<u32, K>) -> (v: Poly<u32>)
    requires
        K <= 4,
        384 * K <= ek.len(),
        forall|j: int| 0 <= j < K ==> poly_canonical(#[trigger] y.v[j], Q as int),
    ensures
        as_ints(v.coeffs@) == ntt_dot(ek_t_hat(ek@, K as nat), polys_coeffs(y.v@), K as nat),
        poly_canonical(v, Q as int),
{
    let mut v = Poly::<u32>::zero();
    assert(as_ints(v.coeffs@) =~= zero_seq());
    for j in 0..K
        invariant
            K <= 4,
            384 * K <= ek.len(),
            forall|jj: int| 0 <= jj < K ==> poly_canonical(#[trigger] y.v[jj], Q as int),
            as_ints(v.coeffs@) == ntt_dot(ek_t_hat(ek@, K as nat), polys_coeffs(y.v@), j as nat),
            poly_canonical(v, Q as int),
    {
        let raw = decode_row(ek, 384 * j, 12);
        let t = poly_to_mont(&raw);
        let prod = mul_ntt(&t, &y.v[j]);
        let next = v.add(&prod, Q);
        proof {
            let a = ek_t_hat(ek@, K as nat);
            let b = polys_coeffs(y.v@);
            assert(as_ints(t.coeffs@) == a[j as int]);
            assert(as_ints(y.v[j as int].coeffs@) == b[j as int]);
            assert forall|c: int| 0 <= c < N implies #[trigger] as_ints(next.coeffs@)[c] == ntt_dot(
                a,
                b,
                (j + 1) as nat,
            )[c] by {
                assert(as_ints(v.coeffs@)[c] == v.coeffs[c]);
                assert(as_ints(prod.coeffs@)[c] == prod.coeffs[c]);
            }
            assert(as_ints(next.coeffs@) =~= ntt_dot(a, b, (j + 1) as nat));
        }
        v = next;
    }
    v
}


/// `NTT^-1(t_hat^T o y) + e2 + Decompress_1(ByteDecode_1(m))`.
fn encrypt_v<const K: usize>(ek: &[u8], y: &PolyVec<u32, K>, e2: &Poly<u32>, m: &[u8; 32]) -> (res:
    Result<Poly<u32>, EncodeError>)
    requires
        K <= 4,
        384 * K <= ek.len(),
        forall|j: int| 0 <= j < K ==> poly_canonical(#[trigger] y.v[j], Q as int),
        poly_canonical(*e2, Q as int),
    ensures
        res is Ok,
        res matches Ok(v) ==> as_ints(v.coeffs@) == add_q(
            add_q(
                kem_inv_ntt_spec(ntt_dot(ek_t_hat(ek@, K as nat), polys_coeffs(y.v@), K as nat)),
                as_ints(e2.coeffs@),
            ),
            message_poly(m@),
        ),
        res matches Ok(v) ==> poly_canonical(v, Q as int),
        res matches Err(e) ==> e == EncodeError::BufferTooSmall,
{
    let mut v = t_dot_y(ek, y);
    let ghost acc = as_ints(v.coeffs@);
    inv_ntt(&mut v);
    let bits = match byte_decode(m, 1) {
        Ok(p) => p,
        Err(e) => {
            return Err(e);
        },
    };
    let mu = decompress_poly(&bits, 1);
    let w = v.add(e2, Q);
    let out = w.add(&mu, Q);
    proof {
        assert(m@.subrange(0, 32) =~= m@);
        let inv = kem_inv_ntt_spec(acc);
        let mp = message_poly(m@);
        assert forall|c: int| 0 <= c < N implies #[trigger] as_ints(out.coeffs@)[c] == add_q(
            add_q(inv, as_ints(e2.coeffs@)),
            mp,
        )[c] by {
            assert(as_ints(v.coeffs@)[c] == v.coeffs[c]);
            assert(as_ints(e2.coeffs@)[c] == e2.coeffs[c]);
            assert(bits.coeffs[c] == row_digits(m@, 0, 1)[c]);
            assert(mp[c] == mu.coeffs[c]);
        }
        assert(as_ints(out.coeffs@) =~= add_q(add_q(inv, as_ints(e2.coeffs@)), mp));
    }
    Ok(out)
}

/// Row `i` of `u`: `NTT^-1(sum_j A_hat[j][i] o y_j) + e1_i`, with the
/// `A_hat` entries sampled on demand from `rho`.
fn encrypt_u_row<const K: usize>(rho: &[u8; 32], y: &PolyVec<u32, K>, r: &[u8; 32], i: usize, eta2: Eta) -> (res:
    Result<Poly<u32>, EncodeError>)
    requires
        K <= 4,
        i < K,
        forall|j: int| 0 <= j < K ==> poly_canonical(#[trigger] y.v[j], Q as int),
    ensures
        res is Ok,
        res matches Ok(u) ==> as_ints(u.coeffs@) == add_q(
            kem_inv_ntt_spec(acc_spec(a_hat_t_row(rho@, i as int, K as nat), polys_coeffs(y.v@), K as nat)),
            as_ints(prf_cbd(r@, (K + i) as u8, eta2)),
        ),
        res matches Ok(u) ==> poly_canonical(u, Q as int),
        res matches Err(e) ==> e == EncodeError::BufferTooSmall,
{
    let mut a_row = PolyVec::<u32, K>::zero();
    for j in 0..K
        invariant
            K <= 4,
            i < K,
            forall|jj: int|
                0 <= jj < j ==> #[trigger] sample_ntt_result(
                    matrix_seed(rho@, i as u8, jj as u8),
                    a_row.v[jj],
                ),
    {
        let p = sample_ntt(rho, i as u8, j as u8);
        a_row.v[j] = p;
    }
    assert forall|j: int| 0 <= j < K implies poly_canonical(#[trigger] a_row.v@[j], Q as int) by {
        assert(sample_ntt_result(matrix_seed(rho@, i as u8, j as u8), a_row.v[j]));
    }
    assert forall|j: int| 0 <= j < K implies #[trigger] polys_coeffs(a_row.v@)[j] == a_hat_t_row(
        rho@,
        i as int,
        K as nat,
    )[j] by {
        assert(sample_ntt_result(matrix_seed(rho@, i as u8, j as u8), a_row.v[j]));
    }
    assert(polys_coeffs(a_row.v@) =~= a_hat_t_row(rho@, i as int, K as nat));
    let mut u = Poly::<u32>::zero();
    mul_ntt_acc(&mut u, &a_row.v, &y.v);
    let ghost acc = as_ints(u.coeffs@);
    inv_ntt(&mut u);
    let e1 = match sample_e1_row::<K>(r, i, eta2) {
        Ok(p) => p,
        Err(e) => {
            return Err(e);
        },
    };
    let out = u.add(&e1, Q);
    proof {
        let e = as_ints(prf_cbd(r@, (K + i) as u8, eta2));
        assert forall|c: int| 0 <= c < N implies #[trigger] as_ints(out.coeffs@)[c] == add_q(
            kem_inv_ntt_spec(acc),
            e,
        )[c] by {
            assert(as_ints(u.coeffs@)[c] == u.coeffs[c]);
            assert(e[c] == e1.coeffs[c]);
        }
        assert(as_ints(out.coeffs@) =~= add_q(kem_inv_ntt_spec(acc), e));
    }
    Ok(out)
}


/// `y_hat` and `e2` of K-PKE.Encrypt: `y` from nonces `0..K` (NTT'ed)
/// and `e2` from nonce `2K`.
fn encrypt_noise<const K: usize>(params: &Params<K>, r: &[u8; 32]) -> (res: Result<
    (PolyVec<u32, K>, Poly<u32>),
    EncodeError,
>)
    requires
        kem_params_ok(*params),
    ensures
        res is Ok,
        res matches Ok(t) ==> polys_coeffs(t.0.v@) == ntt_noise(r@, 0, K as nat, params.eta1),
        res matches Ok(t) ==> forall|j: int| 0 <= j < K ==> poly_canonical(#[trigger] t.0.v[j], Q as int),
        res matches Ok(t) ==> t.1.coeffs@ == prf_cbd(r@, (2 * K) as u8, params.eta2),
        res matches Ok(t) ==> poly_canonical(t.1, Q as int),
        res matches Err(e) ==> e == EncodeError::BufferTooSmall,
{
    let (mut y, e2) = match sample_re_y_e2::<K>(r, params.eta1, params.eta2) {
        Ok(t) => t,
        Err(e) => {
            return Err(e);
        },
    };
    let ghost y0 = y;
    ntt_all(&mut y);
    assert forall|j: int| 0 <= j < K implies #[trigger] polys_coeffs(y.v@)[j] == ntt_noise(
        r@,
        0,
        K as nat,
        params.eta1,
    )[j] by {
        assert(y0.v[j].coeffs@ == prf_cbd(r@, j as u8, params.eta1));
    }
    assert(polys_coeffs(y.v@) =~= ntt_noise(r@, 0, K as nat, params.eta1));
    Ok((y, e2))
}

/// `Compress_d` of a polynomial, ByteEncode_d'ed into the `32 d` bytes
/// of `out` at `off`.
fn encode_compressed(p: &Poly<u32>, d: usize, out: &mut [u8], off: usize) -> (res: Result<(), EncodeError>)
    requires
        poly_canonical(*p, Q as int),
        1 <= d <= 11,
    ensures
        final(out).len() == old(out).len(),
        res is Ok <==> off + 32 * d <= old(out).len(),
        res is Ok ==> row_value(final(out)@, off as int, d as nat) == packed_value(
            compress_seq(as_ints(p.coeffs@), d as nat),
            d as nat,
            N as nat,
        ),
        res is Ok ==> forall|k: int|
            0 <= k < final(out).len() && !(off <= k < off + 32 * d) ==> #[trigger] final(out)@[k]
                == old(out)@[k],
        res is Err ==> final(out)@ == old(out)@,
        res matches Err(e) ==> e == EncodeError::BufferTooSmall,
{
    let pc = compress_poly(p, d);
    assert(pc.coeffs@ =~= compress_seq(as_ints(p.coeffs@), d as nat));
    pack_bits_at(&pc.coeffs, d, out, off)
}

/// How many whole rows of `w` bytes fit in `n` bytes.
pub open spec fn rows_fitting(n: int, w: int) -> int {
    n / w
}

/// `i` rows of `w` bytes fit in `n` bytes but `i + 1` do not: exactly
/// `i` fit.
proof fn lemma_rows_fitting(n: int, w: int, i: int)
    requires
        w > 0,
        0 <= i,
        w * i <= n < w * i + w,
    ensures
        rows_fitting(n, w) == i,
{
    assert(n == i * w + (n - w * i)) by (nonlinear_arith)
        requires
            w * i <= n,
    ;
    vstd::arithmetic::div_mod::lemma_fundamental_div_mod_converse(n, w, i, n - w * i);
}

/// `i` rows of `w` bytes fit in `n` bytes: at least `i` fit.
proof fn lemma_rows_fitting_at_least(n: int, w: int, i: int)
    requires
        w > 0,
        0 <= i,
        w * i <= n,
    ensures
        i <= rows_fitting(n, w),
{
    vstd::arithmetic::div_mod::lemma_fundamental_div_mod(n, w);
    let qd = n / w;
    if qd < i {
        assert(w * qd + w <= w * i) by (nonlinear_arith)
            requires
                qd < i,
                w > 0,
        ;
        vstd::arithmetic::div_mod::lemma_mod_bound(n, w);
    }
}

/// K-PKE.Encrypt (FIPS 203 Alg 14) of `m` under `ek` with coins `r`,
/// written to the first `32 (du K + dv)` bytes of `ct_out`.
pub fn encrypt_impl<const K: usize>(
    params: &Params<K>,
    ek: &[u8],
    m: &[u8; 32],
    r: &[u8; 32],
    ct_out: &mut [u8],
) -> (res: Result<(), EncodeError>)
    requires
        kem_params_ok(*params),
    ensures
        final(ct_out).len() == old(ct_out).len(),
        res is Ok <==> (ek.len() == 384 * K + 32 && old(ct_out).len() >= 32 * (params.du * K
            + params.dv)),
        res is Err ==> res == Err::<(), EncodeError>(EncodeError::BufferTooSmall),
        ek.len() != 384 * K + 32 ==> final(ct_out)@ == old(ct_out)@,
        res is Ok ==> kpke_ct(*params, ek@, m@, r@, final(ct_out)@),
        res is Ok ==> forall|j: int|
            32 * (params.du * K + params.dv) <= j < final(ct_out).len()
                ==> #[trigger] final(ct_out)@[j] == old(ct_out)@[j],
        res is Err && ek.len() == 384 * K + 32 ==> forall|i: int|
            0 <= i < K && i < rows_fitting(old(ct_out).len() as int, 32 * params.du as int)
                ==> #[trigger] row_value(final(ct_out)@, 32 * params.du * i, params.du as nat)
                == packed_value(
                compress_seq(encrypt_u_spec(*params, ek@, r@, i), params.du as nat),
                params.du as nat,
                N as nat,
            ),
        res is Err ==> forall|j: int|
            0 <= j < final(ct_out).len() && (32 * params.du * K <= j || 32 * params.du * rows_fitting(
                old(ct_out).len() as int,
                32 * params.du as int,
            ) <= j) ==> #[trigger] final(ct_out)@[j] == old(ct_out)@[j],
{
    if ek.len() < 384 * K || ek.len() - 384 * K != 32 {
        return Err(EncodeError::BufferTooSmall);
    }
    let rho = take_32(ek, 384 * K);
    let (y, e2) = match encrypt_noise(params, r) {
        Ok(t) => t,
        Err(_) => {
            return Err(EncodeError::BufferTooSmall);
        },
    };
    let v = match encrypt_v(ek, &y, &e2, m) {
        Ok(v) => v,
        Err(_) => {
            return Err(EncodeError::BufferTooSmall);
        },
    };
    assert(as_ints(v.coeffs@) == encrypt_v_spec(*params, ek@, m@, r@));
    let du = params.du;
    let ghost c = du as nat;
    let u_chunk = 32 * du;
    assert(32 * du * 0 == 0);
    for i in 0..K
        invariant
            kem_params_ok(*params),
            du == params.du,
            c == du as nat,
            u_chunk == 32 * du,
            ek.len() == 384 * K + 32,
            rho@ == ek@.subrange(384 * K as int, 384 * K + 32int),
            polys_coeffs(y.v@) == ntt_noise(r@, 0, K as nat, params.eta1),
            forall|j: int| 0 <= j < K ==> poly_canonical(#[trigger] y.v[j], Q as int),
            ct_out.len() == old(ct_out).len(),
            forall|ii: int|
                0 <= ii < i ==> #[trigger] row_value(ct_out@, 32 * du * ii, c) == packed_value(
                    compress_seq(encrypt_u_spec(*params, ek@, r@, ii), c),
                    c,
                    N as nat,
                ),
            forall|k: int|
                0 <= k < ct_out.len() && 32 * du * i <= k ==> #[trigger] ct_out@[k]
                    == old(ct_out)@[k],
            32 * du * i <= ct_out.len(),
    {
        let u = match encrypt_u_row(&rho, &y, r, i, params.eta2) {
            Ok(u) => u,
            Err(_) => {
                return Err(EncodeError::BufferTooSmall);
            },
        };
        assert(as_ints(u.coeffs@) == encrypt_u_spec(*params, ek@, r@, i as int));
        let ghost before = ct_out@;
        proof {
            assert(32 * du * i + 32 * du == 32 * du * (i + 1)) by (nonlinear_arith);
            assert(32 * du * (i + 1) <= 32 * du * K) by (nonlinear_arith)
                requires
                    i < K,
            ;
            assert(i * u_chunk == 32 * du * i) by (nonlinear_arith)
                requires
                    u_chunk == 32 * du,
            ;
            assert(i * u_chunk <= 4 * 352) by (nonlinear_arith)
                requires
                    i < K <= 4,
                    u_chunk <= 352,
            ;
        }
        match encode_compressed(&u, du, ct_out, i * u_chunk) {
            Ok(()) => {},
            Err(_) => {
                proof {
                    assert(32 * (du * K + params.dv) >= 32 * du * (i + 1)) by (nonlinear_arith)
                        requires
                            i < K,
                    ;
                    lemma_rows_fitting(ct_out.len() as int, 32 * du as int, i as int);
                    assert(ct_out@ == before);
                }
                return Err(EncodeError::BufferTooSmall);
            },
        }
        proof {
            assert forall|ii: int| 0 <= ii < i + 1 implies #[trigger] row_value(
                ct_out@,
                32 * du * ii,
                c,
            ) == packed_value(compress_seq(encrypt_u_spec(*params, ek@, r@, ii), c), c, N as nat) by {
                if ii < i {
                    assert(32 * du * ii + 32 * du <= 32 * du * i) by (nonlinear_arith)
                        requires
                            ii < i,
                    ;
                    crate::encoding::lemma_row_value_frame(before, ct_out@, 32 * du * ii, c);
                }
            }
        }
    }
    proof {
        assert(u_chunk * K <= 4 * 352) by (nonlinear_arith)
            requires
                K <= 4,
                u_chunk <= 352,
        ;
    }
    let c1_len = u_chunk * K;
    proof {
        assert(c1_len == 32 * du * K) by (nonlinear_arith)
            requires
                c1_len == u_chunk * K,
                u_chunk == 32 * du,
        ;
        assert(32 * (du * K + params.dv) == 32 * du * K + 32 * params.dv) by (nonlinear_arith);
    }
    let ghost before = ct_out@;
    match encode_compressed(&v, params.dv, ct_out, c1_len) {
        Ok(()) => {},
        Err(_) => {
            proof {
                // Every `u` row fit; only `v` did not.
                lemma_rows_fitting_at_least(ct_out.len() as int, 32 * du as int, K as int);
                let rows = rows_fitting(ct_out.len() as int, 32 * du as int);
                assert(32 * du * K <= 32 * du * rows) by (nonlinear_arith)
                    requires
                        K <= rows,
                ;
                assert(ct_out@ == before);
            }
            return Err(EncodeError::BufferTooSmall);
        },
    }
    proof {
        assert forall|ii: int| 0 <= ii < K implies #[trigger] row_value(ct_out@, 32 * du * ii, c)
            == packed_value(compress_seq(encrypt_u_spec(*params, ek@, r@, ii), c), c, N as nat) by {
            assert(32 * du * ii + 32 * du <= 32 * du * K) by (nonlinear_arith)
                requires
                    ii < K,
            ;
            crate::encoding::lemma_row_value_frame(before, ct_out@, 32 * du * ii, c);
        }
    }
    Ok(())
}


/// The re-encryption check of the FO transform, without a ciphertext
/// buffer: each row of K-PKE.Encrypt(ek, m, r) is encoded into scratch
/// space and compared with the matching bytes of `ct_ref`. Returns
/// `0xFF` if all of them match, else `0x00`.
pub(crate) fn encrypt_compare_impl<const K: usize>(
    params: &Params<K>,
    ek: &[u8],
    m: &[u8; 32],
    r: &[u8; 32],
    ct_ref: &[u8],
) -> (res: Result<u8, EncodeError>)
    requires
        kem_params_ok(*params),
    ensures
        res is Ok <==> (ek.len() == 384 * K + 32 && ct_ref.len() >= 32 * (params.du * K
            + params.dv)),
        res is Err ==> res == Err::<u8, EncodeError>(EncodeError::BufferTooSmall),
        res matches Ok(mask) ==> mask == (if kpke_ct(*params, ek@, m@, r@, ct_ref@) {
            0xFFu8
        } else {
            0u8
        }),
{
    if ek.len() < 384 * K || ek.len() - 384 * K != 32 {
        return Err(EncodeError::BufferTooSmall);
    }
    let rho = take_32(ek, 384 * K);
    let (y, e2) = match encrypt_noise(params, r) {
        Ok(t) => t,
        Err(_) => {
            return Err(EncodeError::BufferTooSmall);
        },
    };
    let v = match encrypt_v(ek, &y, &e2, m) {
        Ok(v) => v,
        Err(_) => {
            return Err(EncodeError::BufferTooSmall);
        },
    };
    assert(as_ints(v.coeffs@) == encrypt_v_spec(*params, ek@, m@, r@));
    let du = params.du;
    let ghost c = du as nat;
    let u_chunk = 32 * du;
    let mut diff: u8 = 0;
    for i in 0..K
        invariant
            kem_params_ok(*params),
            du == params.du,
            c == du as nat,
            u_chunk == 32 * du,
            ek.len() == 384 * K + 32,
            rho@ == ek@.subrange(384 * K as int, 384 * K + 32int),
            polys_coeffs(y.v@) == ntt_noise(r@, 0, K as nat, params.eta1),
            forall|j: int| 0 <= j < K ==> poly_canonical(#[trigger] y.v[j], Q as int),
            i > 0 ==> 32 * du * i <= ct_ref.len(),
            (diff == 0) <==> (forall|ii: int|
                0 <= ii < i ==> #[trigger] row_value(ct_ref@, 32 * du * ii, c) == packed_value(
                    compress_seq(encrypt_u_spec(*params, ek@, r@, ii), c),
                    c,
                    N as nat,
                )),
    {
        let u = match encrypt_u_row(&rho, &y, r, i, params.eta2) {
            Ok(u) => u,
            Err(_) => {
                return Err(EncodeError::BufferTooSmall);
            },
        };
        assert(as_ints(u.coeffs@) == encrypt_u_spec(*params, ek@, r@, i as int));
        // Room for the widest `u` row (`du = 11`).
        let mut tmp = [0u8; 352];
        match encode_compressed(&u, du, &mut tmp, 0) {
            Ok(()) => {},
            Err(_) => {
                return Err(EncodeError::BufferTooSmall);
            },
        }
        proof {
            assert(i * u_chunk == 32 * du * i) by (nonlinear_arith)
                requires
                    u_chunk == 32 * du,
            ;
            assert(i * u_chunk <= 4 * 352) by (nonlinear_arith)
                requires
                    i < K <= 4,
                    u_chunk <= 352,
            ;
            assert(32 * du * i + 32 * du == 32 * du * (i + 1)) by (nonlinear_arith);
            assert(32 * (du * K + params.dv) >= 32 * du * (i + 1)) by (nonlinear_arith)
                requires
                    i < K,
            ;
        }
        let off = i * u_chunk;
        if off + u_chunk > ct_ref.len() {
            return Err(EncodeError::BufferTooSmall);
        }
        let ghost prev = diff;
        diff = xor_diff(&tmp, ct_ref, off, u_chunk, diff);
        proof {
            crate::encoding::lemma_row_value_eq(tmp@, 0, ct_ref@, off as int, c);
            let row_ok = row_value(ct_ref@, 32 * du * i, c) == packed_value(
                compress_seq(encrypt_u_spec(*params, ek@, r@, i as int), c),
                c,
                N as nat,
            );
            assert(row_value(tmp@, 0, c) == packed_value(
                compress_seq(encrypt_u_spec(*params, ek@, r@, i as int), c),
                c,
                N as nat,
            ));
            if row_ok {
                assert forall|k: int| 0 <= k < u_chunk implies #[trigger] tmp@[k] == ct_ref@[off + k] by {
                    assert(tmp@[0 + k] == ct_ref@[off + k]);
                }
            }
            if forall|k: int| 0 <= k < u_chunk ==> #[trigger] tmp@[k] == ct_ref@[off + k] {
                assert forall|k: int| 0 <= k < 32 * c implies #[trigger] tmp@[0 + k] == ct_ref@[off + k] by {
                    assert(tmp@[k] == ct_ref@[off + k]);
                }
                assert(row_ok);
            }
            assert(row_ok <==> (forall|k: int| 0 <= k < u_chunk ==> #[trigger] tmp@[k] == ct_ref@[off + k]));
            if diff == 0 {
                assert forall|ii: int| 0 <= ii < i + 1 implies #[trigger] row_value(
                    ct_ref@,
                    32 * du * ii,
                    c,
                ) == packed_value(compress_seq(encrypt_u_spec(*params, ek@, r@, ii), c), c, N as nat) by {
                    if ii == i {
                        assert(row_ok);
                    }
                }
            } else {
                if prev == 0 {
                    assert(!row_ok);
                }
            }
        }
    }
    proof {
        assert(u_chunk * K <= 4 * 352) by (nonlinear_arith)
            requires
                K <= 4,
                u_chunk <= 352,
        ;
    }
    let c1_len = u_chunk * K;
    proof {
        assert(c1_len == 32 * du * K) by (nonlinear_arith)
            requires
                c1_len == u_chunk * K,
                u_chunk == 32 * du,
        ;
        assert(32 * (du * K + params.dv) == 32 * du * K + 32 * params.dv) by (nonlinear_arith);
    }
    let dv = params.dv;
    let v_len = 32 * dv;
    // Room for the widest `v` row (`dv = 5`).
    let mut vtmp = [0u8; 160];
    match encode_compressed(&v, dv, &mut vtmp, 0) {
        Ok(()) => {},
        Err(_) => {
            return Err(EncodeError::BufferTooSmall);
        },
    }
    if c1_len + v_len > ct_ref.len() {
        return Err(EncodeError::BufferTooSmall);
    }
    let ghost prev = diff;
    diff = xor_diff(&vtmp, ct_ref, c1_len, v_len, diff);
    proof {
        let cv = dv as nat;
        crate::encoding::lemma_row_value_eq(vtmp@, 0, ct_ref@, c1_len as int, cv);
        let v_ok = row_value(ct_ref@, 32 * du * K, cv) == packed_value(
            compress_seq(encrypt_v_spec(*params, ek@, m@, r@), cv),
            cv,
            N as nat,
        );
        if v_ok {
            assert forall|k: int| 0 <= k < v_len implies #[trigger] vtmp@[k] == ct_ref@[c1_len + k] by {
                assert(vtmp@[0 + k] == ct_ref@[c1_len + k]);
            }
        }
        if forall|k: int| 0 <= k < v_len ==> #[trigger] vtmp@[k] == ct_ref@[c1_len + k] {
            assert forall|k: int| 0 <= k < 32 * cv implies #[trigger] vtmp@[0 + k] == ct_ref@[c1_len + k] by {
                assert(vtmp@[k] == ct_ref@[c1_len + k]);
            }
            assert(v_ok);
        }
        assert(v_ok <==> (forall|k: int| 0 <= k < v_len ==> #[trigger] vtmp@[k] == ct_ref@[c1_len + k]));
        if diff == 0 {
            assert(v_ok);
            assert(kpke_ct(*params, ek@, m@, r@, ct_ref@));
        } else {
            if prev == 0 {
                assert(!v_ok);
            } else {
                assert(!(forall|ii: int|
                    0 <= ii < K ==> #[trigger] row_value(ct_ref@, 32 * du * ii, c) == packed_value(
                        compress_seq(encrypt_u_spec(*params, ek@, r@, ii), c),
                        c,
                        N as nat,
                    )));
            }
            assert(!kpke_ct(*params, ek@, m@, r@, ct_ref@));
        }
    }
    Ok(eq_mask(diff))
}


/// Domain tag that ends the input of the decryption blinding factor:
/// the ASCII bytes of `krabipqc/decaps-blind`.
pub const DECAPS_BLIND_TAG: [u8; 21] = [
    107, 114, 97, 98, 105, 112, 113, 99, 47, 100, 101, 99, 97, 112, 115, 45, 98, 108, 105, 110,
    100,
];

/// The input from which decryption derives its blinding factor:
/// `dk || ct || tag`.
pub open spec fn decrypt_blind_input(dk: Seq<u8>, ct: Seq<u8>) -> Seq<u8> {
    dk + ct + DECAPS_BLIND_TAG@
}

/// Coefficient-wise Montgomery product with `r`.
pub open spec fn scale_seq(x: Seq<int>, r: int) -> Seq<int> {
    Seq::new(N as nat, |c: int| mont_mul_spec(x[c], r, Q as int))
}

/// `u_hat_i = NTT(Decompress_du(ByteDecode_du(ct row i)))`.
pub open spec fn ct_u_hat(ct: Seq<u8>, i: int, du: nat) -> Seq<int> {
    kem_ntt_spec(decompress_seq(row_digits(ct, 32 * du * i, du), du))
}

/// `w = v' - NTT^-1(s_hat^T o u_hat)` of K-PKE.Decrypt (Alg 15), with
/// `s_hat` read from `dk` and, as computed, scaled by the blinding factor
/// `r` before the products and the sum scaled by `r^(q-2)` after them.
pub open spec fn decrypt_w<const K: usize>(params: Params<K>, dk: Seq<u8>, ct: Seq<u8>) -> Seq<int> {
    let blind = decrypt_blind_input(dk, ct);
    let rm = blind_mont(blind, Q as int);
    let ri = blind_inv_mont(blind, Q as int);
    let du = params.du as nat;
    let s_scaled = Seq::new(K as nat, |i: int| scale_seq(to_mont_seq(row_digits(dk, 384 * i, 12)), rm));
    let u_hat = Seq::new(K as nat, |i: int| ct_u_hat(ct, i, du));
    let w_ntt = scale_seq(ntt_dot(s_scaled, u_hat, K as nat), ri);
    let v = as_ints(decompress_seq(row_digits(ct, 32 * du * K, params.dv as nat), params.dv as nat));
    sub_q(v, kem_inv_ntt_spec(w_ntt))
}

/// The 32 message bytes `ByteEncode_1(Compress_1(w))`.
pub open spec fn decrypt_m<const K: usize>(params: Params<K>, dk: Seq<u8>, ct: Seq<u8>) -> Seq<u8> {
    Seq::new(
        32,
        |k: int| digit(packed_value(compress_seq(decrypt_w(params, dk, ct), 1), 1, N as nat), 8, k as nat) as u8,
    )
}

/// Montgomery product of each coefficient with `r`, as a sequence.
proof fn lemma_scaled(p0: Poly<u32>, p1: Poly<u32>, r: int)
    requires
        forall|i: int| 0 <= i < 256 ==> #[trigger] p1.coeffs[i] as int == mont_mul_spec(
            p0.coeffs[i] as int,
            r,
            Q as int,
        ),
    ensures
        as_ints(p1.coeffs@) == scale_seq(as_ints(p0.coeffs@), r),
{
    assert forall|c: int| 0 <= c < N implies #[trigger] as_ints(p1.coeffs@)[c] == scale_seq(
        as_ints(p0.coeffs@),
        r,
    )[c] by {
        assert(p1.coeffs[c] as int == mont_mul_spec(p0.coeffs[c] as int, r, Q as int));
    }
    assert(as_ints(p1.coeffs@) =~= scale_seq(as_ints(p0.coeffs@), r));
}

/// K-PKE.Decrypt (FIPS 203 Alg 15) of `ct` under the `s_hat` encoded
/// in `dk`, into `m_out`. The secret operand of the products is
/// blinded by a factor derived from `dk`, `ct` and a domain tag.
pub fn decrypt_impl<const K: usize>(params: &Params<K>, dk: &[u8], ct: &[u8], m_out: &mut [u8; 32]) -> (res:
    Result<(), EncodeError>)
    requires
        kem_params_ok(*params),
    ensures
        res is Ok <==> (ct.len() >= 32 * (params.du * K + params.dv) && dk.len() >= 384 * K),
        res is Err ==> res == Err::<(), EncodeError>(EncodeError::BufferTooSmall),
        res is Err ==> final(m_out)@ == old(m_out)@,
        res is Ok ==> final(m_out)@ == decrypt_m(*params, dk@, ct@),
{
    proof {
        lemma_r2_values();
    }
    let du = params.du;
    let u_chunk = 32 * du;
    let pieces: [&[u8]; 3] = [dk, ct, &DECAPS_BLIND_TAG];
    proof {
        crate::hashing::lemma_concat_small(pieces@);
    }
    let (r_mont, r_inv_mont) = derive_pair(&pieces, Q, Q_N_PRIME, Q_R2_MOD_Q);
    let ghost blind = decrypt_blind_input(dk@, ct@);
    let ghost c = du as nat;
    let ghost s_scaled = Seq::new(
        K as nat,
        |i: int| scale_seq(to_mont_seq(row_digits(dk@, 384 * i, 12)), blind_mont(blind, Q as int)),
    );
    let ghost u_hat = Seq::new(K as nat, |i: int| ct_u_hat(ct@, i, c));
    let mut w = Poly::<u32>::zero();
    assert(as_ints(w.coeffs@) =~= zero_seq());
    for i in 0..K
        invariant
            kem_params_ok(*params),
            du == params.du,
            c == du as nat,
            u_chunk == 32 * du,
            Q_R2_MOD_Q == (mont_r() * mont_r()) % (Q as int),
            r_mont as int == blind_mont(blind, Q as int),
            r_mont < Q,
            s_scaled == Seq::new(
                K as nat,
                |i: int| scale_seq(to_mont_seq(row_digits(dk@, 384 * i, 12)), blind_mont(blind, Q as int)),
            ),
            u_hat == Seq::new(K as nat, |i: int| ct_u_hat(ct@, i, c)),
            as_ints(w.coeffs@) == ntt_dot(s_scaled, u_hat, i as nat),
            poly_canonical(w, Q as int),
            i == 0 || 384 * i <= dk.len(),
    {
        proof {
            assert(i * u_chunk == 32 * du * i) by (nonlinear_arith)
                requires
                    u_chunk == 32 * du,
            ;
            assert(i * u_chunk <= 4 * 352) by (nonlinear_arith)
                requires
                    i < K <= 4,
                    u_chunk <= 352,
            ;
            assert(32 * du * i + 32 * du == 32 * du * (i + 1)) by (nonlinear_arith);
            assert(32 * (du * K + params.dv) >= 32 * du * (i + 1)) by (nonlinear_arith)
                requires
                    i < K,
            ;
        }
        if i * u_chunk + u_chunk > ct.len() {
            return Err(EncodeError::BufferTooSmall);
        }
        let u_raw = decode_row(ct, i * u_chunk, du);
        let mut u_row = decompress_poly(&u_raw, du);
        let ghost u_dec = u_row;
        crate::mlkem::ntt::ntt(&mut u_row);
        proof {
            assert(u_dec.coeffs@ =~= decompress_seq(row_digits(ct@, 32 * du * i, c), c));
            assert(as_ints(u_row.coeffs@) == u_hat[i as int]);
        }
        if 384 * i + 384 > dk.len() {
            return Err(EncodeError::BufferTooSmall);
        }
        let s_raw = decode_row(dk, 384 * i, 12);
        let mut s_row = poly_to_mont(&s_raw);
        let ghost s0 = s_row;
        scale_mont(&mut s_row, r_mont, Q, Q_N_PRIME);
        proof {
            lemma_scaled(s0, s_row, r_mont as int);
            assert(as_ints(s_row.coeffs@) == s_scaled[i as int]);
        }
        let prod = mul_ntt(&s_row, &u_row);
        let next = w.add(&prod, Q);
        proof {
            assert forall|k: int| 0 <= k < N implies #[trigger] as_ints(next.coeffs@)[k] == ntt_dot(
                s_scaled,
                u_hat,
                (i + 1) as nat,
            )[k] by {
                assert(as_ints(w.coeffs@)[k] == w.coeffs[k]);
                assert(as_ints(prod.coeffs@)[k] == prod.coeffs[k]);
            }
            assert(as_ints(next.coeffs@) =~= ntt_dot(s_scaled, u_hat, (i + 1) as nat));
        }
        w = next;
    }
    let ghost w0 = w;
    scale_mont(&mut w, r_inv_mont, Q, Q_N_PRIME);
    proof {
        lemma_scaled(w0, w, r_inv_mont as int);
    }
    let ghost w_ntt = as_ints(w.coeffs@);
    inv_ntt(&mut w);
    proof {
        assert(u_chunk * K <= 4 * 352) by (nonlinear_arith)
            requires
                K <= 4,
                u_chunk <= 352,
        ;
    }
    let c1_len = u_chunk * K;
    proof {
        assert(c1_len == 32 * du * K) by (nonlinear_arith)
            requires
                c1_len == u_chunk * K,
                u_chunk == 32 * du,
        ;
        assert(32 * (du * K + params.dv) == 32 * du * K + 32 * params.dv) by (nonlinear_arith);
    }
    if c1_len + 32 * params.dv > ct.len() {
        return Err(EncodeError::BufferTooSmall);
    }
    let v_raw = decode_row(ct, c1_len, params.dv);
    let v_prime = decompress_poly(&v_raw, params.dv);
    let diff = v_prime.sub(&w, Q);
    let wc = compress_poly(&diff, 1);
    let ghost wv = decrypt_w(*params, dk@, ct@);
    proof {
        assert(v_prime.coeffs@ =~= decompress_seq(row_digits(ct@, 32 * du * K, params.dv as nat), params.dv as nat));
        assert forall|k: int| 0 <= k < N implies #[trigger] as_ints(diff.coeffs@)[k] == wv[k] by {
            assert(as_ints(w.coeffs@)[k] == w.coeffs[k]);
            assert(as_ints(v_prime.coeffs@)[k] == v_prime.coeffs[k]);
        }
        assert(as_ints(diff.coeffs@) =~= wv);
        assert(wc.coeffs@ =~= compress_seq(wv, 1));
    }
    match byte_encode(&wc, 1, m_out) {
        Ok(()) => {},
        Err(_) => {
            return Err(EncodeError::BufferTooSmall);
        },
    }
    proof {
        assert forall|k: int| 0 <= k < 32 implies #[trigger] m_out@[k] == decrypt_m(*params, dk@, ct@)[k] by {
            crate::bits::lemma_byte_of_bytes_value(m_out@, 32, k as nat);
        }
        assert(m_out@ =~= decrypt_m(*params, dk@, ct@));
    }
    Ok(())
}

} // verus!

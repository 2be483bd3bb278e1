//! ML-KEM (FIPS 203 §6): the IND-CCA KEM built from K-PKE by the
//! Fujisaki-Okamoto transform. These `*_internal` forms take the
//! random inputs as arguments, so their results are deterministic.

use vstd::prelude::*;

use crate::ct::{eq_mask, xor_diff};
use crate::encoding::{copy_into, lemma_row_value_eq, row_value, take_32, EncodeError};
use crate::hashing::{
    lemma_concat_small, sha3_256, sha3_256_digest, sha3_512, sha3_512_digest, shake256,
    shake256_bytes,
};
use crate::mlkem::encoding::{ek_canonical, ek_modulus_check};
use crate::mlkem::params::{
    ct_bytes_spec, dk_bytes_spec, ek_bytes_spec, kem_params_ok, Params, SS_BYTES,
};
use crate::mlkem::pke::{
    canon_seq, decrypt_impl, decrypt_m, encrypt_impl, keygen_dk, keygen_ek, keygen_impl, kpke_ct,
    ntt_noise,
};
use crate::bits::packed_value;

verus! {

/// `dk` is the ML-KEM decapsulation key for the encryption key `ek`
/// generated from `(d, z)`: `dk_PKE || ek || H(ek) || z`.
pub open spec fn kem_dk<const K: usize>(
    params: Params<K>,
    d: Seq<u8>,
    z: Seq<u8>,
    ek: Seq<u8>,
    dk: Seq<u8>,
) -> bool {
    let e = ek_bytes_spec(K as int);
    &&& dk.len() == dk_bytes_spec(K as int)
    &&& keygen_dk(d, K as nat, params.eta1, dk)
    &&& dk.subrange(384 * K as int, 384 * K + e) == ek
    &&& dk.subrange(384 * K + e, 384 * K + e + 32) == sha3_256_digest(ek)
    &&& dk.subrange(384 * K + e + 32, 384 * K + e + 64) == z
}

/// `G(m || H(ek))`: the shared secret is its first half, the encryption
/// coins its second half.
pub open spec fn encaps_g(ek: Seq<u8>, m: Seq<u8>) -> Seq<u8> {
    sha3_512_digest(m + sha3_256_digest(ek))
}

/// The message that decapsulation recovers from `ct` with the K-PKE key
/// at the front of `dk`.
pub open spec fn decaps_m<const K: usize>(params: Params<K>, dk: Seq<u8>, ct: Seq<u8>) -> Seq<u8> {
    decrypt_m(params, dk.subrange(0, 384 * K as int), ct)
}

/// `G(m' || h)` of decapsulation, `h` being the hash stored in `dk`.
pub open spec fn decaps_g<const K: usize>(params: Params<K>, dk: Seq<u8>, ct: Seq<u8>) -> Seq<u8> {
    let e = ek_bytes_spec(K as int);
    sha3_512_digest(decaps_m(params, dk, ct) + dk.subrange(384 * K + e, 384 * K + e + 32))
}

/// The shared secret decapsulation returns: `K'` when re-encrypting the
/// recovered message under the `ek` stored in `dk` gives back `ct`,
/// else the implicit-rejection key `J(z || ct)`.
pub open spec fn decaps_ss<const K: usize>(params: Params<K>, dk: Seq<u8>, ct: Seq<u8>) -> Seq<u8> {
    let e = ek_bytes_spec(K as int);
    let g = decaps_g(params, dk, ct);
    let ek = dk.subrange(384 * K as int, 384 * K + e);
    let z = dk.subrange(384 * K + e + 32, 384 * K + e + 64);
    if kpke_ct(params, ek, decaps_m(params, dk, ct), g.subrange(32, 64), ct) {
        g.subrange(0, 32)
    } else {
        shake256_bytes(z + ct, 0, 32)
    }
}

/// Key generation splits `G(d || k) = SHA3-512(d || k)` as FIPS 203
/// Alg 13 does: the last 32 bytes of `ek` are the first half of the
/// digest (`rho`), and the secret `s` whose encoding opens `dk` is
/// sampled from the second half (`sigma`).
pub proof fn lemma_keygen_splits_g<const K: usize>(
    params: Params<K>,
    d: Seq<u8>,
    z: Seq<u8>,
    ek: Seq<u8>,
    dk: Seq<u8>,
)
    requires
        kem_params_ok(params),
        keygen_ek(d, K as nat, params.eta1, ek),
        kem_dk(params, d, z, ek, dk),
    ensures
        ek.subrange(384 * K as int, 384 * K + 32) == sha3_512_digest(d + seq![K as u8]).subrange(0, 32),
        forall|i: int|
            0 <= i < K ==> #[trigger] row_value(dk, 384 * i, 12) == packed_value(
                canon_seq(
                    ntt_noise(
                        sha3_512_digest(d + seq![K as u8]).subrange(32, 64),
                        0,
                        K as nat,
                        params.eta1,
                    )[i],
                ),
                12,
                crate::mlkem::params::N as nat,
            ),
{
}

/// Encapsulation derives `(K, r) = G(m || H(ek))` (FIPS 203 Alg 17):
/// the shared secret is the first half of SHA3-512 of `m` followed by
/// SHA3-256 of `ek`, and the encryption randomness the second half.
pub proof fn lemma_encaps_g(ek: Seq<u8>, m: Seq<u8>)
    ensures
        encaps_g(ek, m).subrange(0, 32) == sha3_512_digest(m + sha3_256_digest(ek)).subrange(0, 32),
        encaps_g(ek, m).subrange(32, 64) == sha3_512_digest(m + sha3_256_digest(ek)).subrange(32, 64),
{
}

/// Decapsulation (FIPS 203 Alg 18): with `m'` the decrypted message,
/// `(K', r') = SHA3-512(m' || h)` for the hash `h` stored in `dk`; when
/// re-encrypting `m'` with `r'` under the `ek` stored in `dk` gives back
/// `ct` the secret is `K'`, otherwise it is the implicit-rejection key:
/// the first 32 bytes of SHAKE-256 of `z` followed by `ct`.
pub proof fn lemma_decaps_secret<const K: usize>(params: Params<K>, dk: Seq<u8>, ct: Seq<u8>)
    ensures
        ({
            let e = ek_bytes_spec(K as int);
            let m_prime = decaps_m(params, dk, ct);
            let g = sha3_512_digest(m_prime + dk.subrange(384 * K + e, 384 * K + e + 32));
            let ok = kpke_ct(params, dk.subrange(384 * K as int, 384 * K + e), m_prime, g.subrange(32, 64), ct);
            &&& ok ==> decaps_ss(params, dk, ct) == g.subrange(0, 32)
            &&& !ok ==> decaps_ss(params, dk, ct) == Seq::new(
                32,
                |k: int|
                    crate::hashing::shake256_byte(
                        dk.subrange(384 * K + e + 32, 384 * K + e + 64) + ct,
                        k as nat,
                    ),
            )
        }),
{
    let e = ek_bytes_spec(K as int);
    let z = dk.subrange(384 * K + e + 32, 384 * K + e + 64);
    assert(shake256_bytes(z + ct, 0, 32) =~= Seq::new(
        32,
        |k: int| crate::hashing::shake256_byte(z + ct, k as nat),
    ));
}

/// ML-KEM.KeyGen_internal (FIPS 203 Alg 16).
pub fn keygen_internal_impl<const K: usize>(
    params: &Params<K>,
    d: &[u8; 32],
    z: &[u8; 32],
    ek_out: &mut [u8],
    dk_out: &mut [u8],
) -> (res: Result<(), EncodeError>)
    requires
        kem_params_ok(*params),
    ensures
        final(ek_out).len() == old(ek_out).len(),
        final(dk_out).len() == old(dk_out).len(),
        res is Ok <==> (old(ek_out).len() == params.ek_bytes && old(dk_out).len() == params.dk_bytes),
        res is Err ==> res == Err::<(), EncodeError>(EncodeError::BufferTooSmall),
        res is Err ==> final(ek_out)@ == old(ek_out)@ && final(dk_out)@ == old(dk_out)@,
        res is Ok ==> keygen_ek(d@, K as nat, params.eta1, final(ek_out)@),
        res is Ok ==> kem_dk(*params, d@, z@, final(ek_out)@, final(dk_out)@),
        res is Ok ==> final(ek_out)@.subrange(384 * K as int, 384 * K + 32) == sha3_512_digest(
            d@ + seq![K as u8],
        ).subrange(0, 32),
        res is Ok ==> forall|i: int|
            0 <= i < K ==> #[trigger] row_value(final(dk_out)@, 384 * i, 12) == packed_value(
                canon_seq(
                    ntt_noise(
                        sha3_512_digest(d@ + seq![K as u8]).subrange(32, 64),
                        0,
                        K as nat,
                        params.eta1,
                    )[i],
                ),
                12,
                crate::mlkem::params::N as nat,
            ),
{
    if ek_out.len() != params.ek_bytes || dk_out.len() != params.dk_bytes {
        return Err(EncodeError::BufferTooSmall);
    }
    match keygen_impl(params, d, ek_out, dk_out) {
        Ok(()) => {},
        Err(_) => {
            return Err(EncodeError::BufferTooSmall);
        },
    }
    let ek_off = 384 * K;
    let h_off = ek_off + params.ek_bytes;
    let z_off = h_off + 32;
    let ghost dk0 = dk_out@;
    copy_into(ek_out, dk_out, ek_off);
    let ek_ref: &[u8] = ek_out;
    let pieces: [&[u8]; 1] = [ek_ref];
    proof {
        lemma_concat_small(pieces@);
    }
    let h = sha3_256(&pieces);
    let ghost dk1 = dk_out@;
    copy_into(&h, dk_out, h_off);
    let ghost dk2 = dk_out@;
    copy_into(z, dk_out, z_off);
    proof {
        assert forall|i: int| 0 <= i < K implies #[trigger] row_value(dk_out@, 384 * i, 12)
            == row_value(dk0, 384 * i, 12) by {
            assert(384 * i + 384 <= 384 * K) by (nonlinear_arith)
                requires
                    i < K,
            ;
            crate::encoding::lemma_row_value_frame(dk0, dk_out@, 384 * i, 12);
        }
        assert(dk_out@.subrange(ek_off as int, h_off as int) =~= dk1.subrange(ek_off as int, h_off as int));
        assert(dk_out@.subrange(h_off as int, z_off as int) =~= dk2.subrange(h_off as int, z_off as int));
    }
    proof {
        lemma_keygen_splits_g(*params, d@, z@, ek_out@, dk_out@);
    }
    Ok(())
}

/// ML-KEM.Encaps_internal (FIPS 203 Alg 17) with the message `m`:
/// checks `ek` (§7.2), then writes the shared secret to `ss_out` and the
/// ciphertext to `ct_out`.
pub fn encaps_internal_impl<const K: usize>(
    params: &Params<K>,
    ek: &[u8],
    m: &[u8; 32],
    ss_out: &mut [u8; SS_BYTES],
    ct_out: &mut [u8],
) -> (res: Result<(), EncodeError>)
    requires
        kem_params_ok(*params),
    ensures
        final(ct_out).len() == old(ct_out).len(),
        res == Err::<(), EncodeError>(EncodeError::BufferTooSmall) <==> (ek.len() != params.ek_bytes
            || old(ct_out).len() != params.ct_bytes),
        res == Err::<(), EncodeError>(EncodeError::NotCanonical) <==> (ek.len() == params.ek_bytes
            && old(ct_out).len() == params.ct_bytes && !ek_canonical(ek@, K as int)),
        res is Err ==> final(ss_out)@ == old(ss_out)@ && final(ct_out)@ == old(ct_out)@,
        res is Ok ==> final(ss_out)@ == encaps_g(ek@, m@).subrange(0, 32),
        res is Ok ==> kpke_ct(*params, ek@, m@, encaps_g(ek@, m@).subrange(32, 64), final(ct_out)@),
        res is Ok ==> final(ss_out)@ == sha3_512_digest(m@ + sha3_256_digest(ek@)).subrange(0, 32),
        res is Ok ==> kpke_ct(
            *params,
            ek@,
            m@,
            sha3_512_digest(m@ + sha3_256_digest(ek@)).subrange(32, 64),
            final(ct_out)@,
        ),
{
    if ek.len() != params.ek_bytes || ct_out.len() != params.ct_bytes {
        return Err(EncodeError::BufferTooSmall);
    }
    match ek_modulus_check::<K>(ek) {
        Ok(()) => {},
        Err(e) => {
            return Err(e);
        },
    }
    let ek_pieces: [&[u8]; 1] = [ek];
    proof {
        lemma_concat_small(ek_pieces@);
    }
    let h_ek = sha3_256(&ek_pieces);
    let g_pieces: [&[u8]; 2] = [m, &h_ek];
    proof {
        lemma_concat_small(g_pieces@);
    }
    let g = sha3_512(&g_pieces);
    let ss = take_32(&g, 0);
    let r = take_32(&g, 32);
    *ss_out = ss;
    proof {
        lemma_encaps_g(ek@, m@);
    }
    match encrypt_impl(params, ek, m, &r, ct_out) {
        Ok(()) => Ok(()),
        Err(_) => {
            proof {
                assert(32 * (params.du * K + params.dv) == params.ct_bytes);
            }
            Err(EncodeError::BufferTooSmall)
        },
    }
}

/// Constant-time equality of two byte strings: `0xFF` if equal, else
/// `0x00`; strings of different lengths are an error, not a mismatch.
pub fn ct_equal(a: &[u8], b: &[u8]) -> (res: Result<u8, EncodeError>)
    ensures
        res is Err <==> a.len() != b.len(),
        res is Err ==> res == Err::<u8, EncodeError>(EncodeError::BufferTooSmall),
        res matches Ok(mask) ==> mask == (if a@ == b@ { 0xFFu8 } else { 0u8 }),
{
    if a.len() != b.len() {
        return Err(EncodeError::BufferTooSmall);
    }
    let diff = xor_diff(a, b, 0, a.len(), 0);
    proof {
        if diff == 0 {
            assert forall|k: int| 0 <= k < a.len() implies a@[k] == b@[k] by {
                assert(a@[k] == b@[0 + k]);
            }
            assert(a@ =~= b@);
        } else {
            if a@ == b@ {
                assert forall|k: int| 0 <= k < a.len() implies #[trigger] a@[k] == b@[0 + k] by {}
            }
        }
    }
    Ok(eq_mask(diff))
}

/// A buffer that holds a K-PKE ciphertext in its first `ct_bytes`
/// bytes: that prefix is the ciphertext.
proof fn lemma_kpke_ct_prefix<const K: usize>(
    params: Params<K>,
    ek: Seq<u8>,
    m: Seq<u8>,
    r: Seq<u8>,
    full: Seq<u8>,
    n: int,
)
    requires
        kem_params_ok(params),
        n == params.ct_bytes,
        n <= full.len(),
        kpke_ct(params, ek, m, r, full),
    ensures
        kpke_ct(params, ek, m, r, full.subrange(0, n)),
{
    let pre = full.subrange(0, n);
    let du = params.du as int;
    let dv = params.dv as int;
    assert(n == 32 * du * K + 32 * dv) by (nonlinear_arith)
        requires
            n == 32 * (du * K + dv),
    ;
    assert forall|i: int| 0 <= i < K implies #[trigger] row_value(pre, 32 * params.du * i, params.du as nat)
        == row_value(full, 32 * params.du * i, params.du as nat) by {
        assert(32 * du * i + 32 * du <= 32 * du * K) by (nonlinear_arith)
            requires
                i < K,
                du >= 0,
        ;
        assert(pre.subrange(32 * du * i, 32 * du * i + 32 * du) =~= full.subrange(
            32 * du * i,
            32 * du * i + 32 * du,
        ));
    }
    assert(pre.subrange(32 * du * K, 32 * du * K + 32 * dv) =~= full.subrange(
        32 * du * K,
        32 * du * K + 32 * dv,
    ));
}

/// Two byte strings of the ciphertext length that both hold the K-PKE
/// ciphertext of the same inputs are equal.
proof fn lemma_kpke_ct_unique<const K: usize>(
    params: Params<K>,
    ek: Seq<u8>,
    m: Seq<u8>,
    r: Seq<u8>,
    c1: Seq<u8>,
    c2: Seq<u8>,
)
    requires
        kem_params_ok(params),
        c1.len() == params.ct_bytes,
        c2.len() == params.ct_bytes,
        kpke_ct(params, ek, m, r, c1),
        kpke_ct(params, ek, m, r, c2),
    ensures
        c1 == c2,
{
    let du = params.du as nat;
    let dv = params.dv as nat;
    let w = 32 * du;
    assert(32 * (du * K + dv) == 32 * du * K + 32 * dv) by (nonlinear_arith);
    assert(c1.len() == 32 * du * K + 32 * dv);
    assert forall|j: int| 0 <= j < c1.len() implies c1[j] == c2[j] by {
        if j < 32 * du * K {
            let i = j / (w as int);
            vstd::arithmetic::div_mod::lemma_fundamental_div_mod(j, w as int);
            assert(0 <= i < K) by (nonlinear_arith)
                requires
                    0 <= j < w * K,
                    w > 0,
                    i == j / (w as int),
                    j == (w as int) * (j / (w as int)) + j % (w as int),
                    0 <= j % (w as int) < w,
            ;
            assert(32 * du * i + 32 * du <= 32 * du * K) by (nonlinear_arith)
                requires
                    i < K,
            ;
            assert(row_value(c1, 32 * du * i, du) == row_value(c2, 32 * du * i, du));
            lemma_row_value_eq(c1, 32 * du * i, c2, 32 * du * i, du);
            let k = j - 32 * du * i;
            assert(c1[32 * du * i + k] == c2[32 * du * i + k]);
        } else {
            assert(32 * (du * K + dv) == 32 * du * K + 32 * dv) by (nonlinear_arith);
            lemma_row_value_eq(c1, 32 * du * K, c2, 32 * du * K, dv);
            let k = j - 32 * du * K;
            assert(c1[32 * du * K + k] == c2[32 * du * K + k]);
        }
    }
    assert(c1 =~= c2);
}

/// Decapsulation gives back the key that encapsulation produced
/// whenever K-PKE decryption of the ciphertext recovers the encapsulated
/// message: `ct` and the key being those of Encaps_internal with `m`
/// under the `ek` of the key pair, the re-encryption matches and `K'`
/// is returned.
pub proof fn lemma_decaps_recovers_key<const K: usize>(
    params: Params<K>,
    d: Seq<u8>,
    z: Seq<u8>,
    ek: Seq<u8>,
    dk: Seq<u8>,
    m: Seq<u8>,
    ct: Seq<u8>,
)
    requires
        kem_params_ok(params),
        kem_dk(params, d, z, ek, dk),
        kpke_ct(params, ek, m, encaps_g(ek, m).subrange(32, 64), ct),
        decaps_m(params, dk, ct) == m,
    ensures
        decaps_ss(params, dk, ct) == encaps_g(ek, m).subrange(0, 32),
{
    let e = ek_bytes_spec(K as int);
    assert(dk.subrange(384 * K as int, 384 * K + e) == ek);
    assert(decaps_g(params, dk, ct) == encaps_g(ek, m));
}

/// ML-KEM.Decaps_internal (FIPS 203 Alg 18): recovers the message,
/// re-encrypts it and selects, without a branch, `K'` on a match and the
/// implicit-rejection key otherwise.
pub fn decaps_internal_impl<const K: usize>(
    params: &Params<K>,
    dk: &[u8],
    ct: &[u8],
    ss_out: &mut [u8; SS_BYTES],
) -> (res: Result<(), EncodeError>)
    requires
        kem_params_ok(*params),
    ensures
        res is Ok <==> (dk.len() == params.dk_bytes && ct.len() == params.ct_bytes),
        res is Err ==> res == Err::<(), EncodeError>(EncodeError::BufferTooSmall),
        res is Err ==> final(ss_out)@ == old(ss_out)@,
        res is Ok ==> final(ss_out)@ == decaps_ss(*params, dk@, ct@),
        res is Ok ==> ({
            let e = ek_bytes_spec(K as int);
            let m_prime = decaps_m(*params, dk@, ct@);
            let g = sha3_512_digest(m_prime + dk@.subrange(384 * K + e, 384 * K + e + 32));
            final(ss_out)@ == if kpke_ct(
                *params,
                dk@.subrange(384 * K as int, 384 * K + e),
                m_prime,
                g.subrange(32, 64),
                ct@,
            ) {
                g.subrange(0, 32)
            } else {
                Seq::new(
                    32,
                    |k: int|
                        crate::hashing::shake256_byte(
                            dk@.subrange(384 * K + e + 32, 384 * K + e + 64) + ct@,
                            k as nat,
                        ),
                )
            }
        }),
{
    if dk.len() != params.dk_bytes || ct.len() != params.ct_bytes {
        return Err(EncodeError::BufferTooSmall);
    }
    let dk_pke_len = 384 * K;
    let ek_len = params.ek_bytes;
    let dk_pke = &dk[0..dk_pke_len];
    let ek_pke = &dk[dk_pke_len..dk_pke_len + ek_len];
    let h_ek = &dk[dk_pke_len + ek_len..dk_pke_len + ek_len + 32];
    let z = &dk[dk_pke_len + ek_len + 32..dk.len()];
    proof {
        assert(32 * (params.du * K + params.dv) == params.ct_bytes);
    }
    let mut m_prime = [0u8; 32];
    match decrypt_impl(params, dk_pke, ct, &mut m_prime) {
        Ok(()) => {},
        Err(_) => {
            return Err(EncodeError::BufferTooSmall);
        },
    }
    let g_pieces: [&[u8]; 2] = [&m_prime, h_ek];
    proof {
        lemma_concat_small(g_pieces@);
    }
    let g = sha3_512(&g_pieces);
    let k_prime = take_32(&g, 0);
    let r_prime = take_32(&g, 32);
    let mut k_bar = [0u8; 32];
    let j_pieces: [&[u8]; 2] = [z, ct];
    proof {
        lemma_concat_small(j_pieces@);
    }
    shake256(&j_pieces, &mut k_bar);
    // Room for the longest ciphertext (ML-KEM-1024: 1568 bytes).
    let mut ct_prime_buf = [0u8; 2048];
    match encrypt_impl(params, ek_pke, &m_prime, &r_prime, &mut ct_prime_buf) {
        Ok(()) => {},
        Err(_) => {
            return Err(EncodeError::BufferTooSmall);
        },
    }
    let ct_prime = &ct_prime_buf[0..params.ct_bytes];
    proof {
        lemma_kpke_ct_prefix(*params, ek_pke@, m_prime@, r_prime@, ct_prime_buf@, params.ct_bytes as int);
        assert(ct_prime@ == ct_prime_buf@.subrange(0, params.ct_bytes as int));
    }
    let eq = match ct_equal(ct, ct_prime) {
        Ok(x) => x,
        Err(_) => {
            return Err(EncodeError::BufferTooSmall);
        },
    };
    let ghost matched = kpke_ct(*params, ek_pke@, m_prime@, r_prime@, ct@);
    proof {
        if matched {
            lemma_kpke_ct_unique(*params, ek_pke@, m_prime@, r_prime@, ct@, ct_prime@);
        }
        assert(eq == (if matched { 0xFFu8 } else { 0u8 }));
    }
    for i in 0..32
        invariant
            eq == 0xFFu8 || eq == 0u8,
            forall|k: int|
                0 <= k < i ==> #[trigger] ss_out@[k] == (if eq == 0xFFu8 {
                    k_prime@[k]
                } else {
                    k_bar@[k]
                }),
    {
        let a = k_prime[i];
        let b = k_bar[i];
        let sel = (a & eq) | (b & !eq);
        assert(sel == (if eq == 0xFFu8 { a } else { b })) by (bit_vector)
            requires
                eq == 0xFFu8 || eq == 0u8,
                sel == (a & eq) | (b & !eq),
        ;
        ss_out[i] = sel;
    }
    proof {
        let e = ek_bytes_spec(K as int);
        assert(dk_pke@ == dk@.subrange(0, 384 * K as int));
        assert(h_ek@ == dk@.subrange(384 * K + e, 384 * K + e + 32));
        assert(z@ =~= dk@.subrange(384 * K + e + 32, 384 * K + e + 64));
        assert(ek_pke@ == dk@.subrange(384 * K as int, 384 * K + e));
        assert(m_prime@ == decaps_m(*params, dk@, ct@));
        assert(g@ == decaps_g(*params, dk@, ct@));
        assert(ss_out@ =~= decaps_ss(*params, dk@, ct@));
    }
    proof {
        lemma_decaps_secret(*params, dk@, ct@);
    }
    Ok(())
}

} // verus!

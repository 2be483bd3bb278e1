//! ML-DSA.Verify_internal (FIPS 204 Alg 8), generic over the parameter
//! set `(K, L)`. Per-set entry points are in `ml_dsa_44`, `ml_dsa_65`
//! and `ml_dsa_87`.
//!
//! The contract of [`verify_internal_impl_pieces`] is [`verify_accepts`]:
//! the signature is accepted iff its encoding is well formed, `z` is in
//! range and the challenge hash recomputed from `mu` and `w1'` is the
//! one in the signature.

use vstd::prelude::*;

use crate::bits::{digit, fits, packed_value};
use crate::encoding::pack_bits_at;
use crate::ct::xor_diff;
use crate::encoding::{
    h_row_positions, h_weight, hint_end, hint_row_ok, hint_start, hint_valid, pk_t1_row,
    row_digits, row_signed, row_value, sig_hint_off, sig_hint_slice, sig_z_off, sig_z_row,
    take_32, validate_hint_bytes,
};
use crate::field::{mont_mul_spec, mul_mod};
use crate::hashing::{concat_pieces, lemma_concat_small, pieces_of, shake256, shake256_bytes, shake256_prefixed};
use crate::mlkem::ntt::polys_coeffs;
use crate::ntt::{as_ints, inv_ntt, inv_ntt_spec, mul_ntt, ntt, ntt_spec};
use crate::params::{
    abs_centered, abs_centered_spec, dsa_params_ok, Params, MAX_CTILDE_BYTES, MAX_W1_PACKED_BYTES, N, Q,
};
use crate::poly::{poly_canonical, Poly};
use crate::polyvec::PolyVec;
use crate::rounding::{gamma2_ok, hint_modulus, use_hint, use_hint_spec};
use crate::sampling::{ball_result, ball_run, matrix_seed, rej_ntt_poly, rej_ntt_result, rej_ntt_spec, sample_in_ball};

verus! {

/// Coefficient-wise `(a + b) mod q`.
pub open spec fn seq_add(a: Seq<int>, b: Seq<int>) -> Seq<int> {
    Seq::new(N as nat, |c: int| (a[c] + b[c]) % (Q as int))
}

/// Coefficient-wise `(a - b) mod q`.
pub open spec fn seq_sub(a: Seq<int>, b: Seq<int>) -> Seq<int> {
    Seq::new(N as nat, |c: int| (a[c] - b[c]) % (Q as int))
}

/// Coefficient-wise Montgomery product (the NTT-domain product).
pub open spec fn seq_mont_mul(a: Seq<int>, b: Seq<int>) -> Seq<int> {
    Seq::new(N as nat, |c: int| mont_mul_spec(a[c], b[c], Q as int))
}

/// `sum_{j < n} a[j] o b[j]`, accumulated modulo `q`.
pub open spec fn ntt_row_dot(a: Seq<Seq<int>>, b: Seq<Seq<int>>, n: nat) -> Seq<int>
    decreases n,
{
    if n == 0 {
        Seq::new(N as nat, |c: int| 0int)
    } else {
        seq_add(ntt_row_dot(a, b, (n - 1) as nat), seq_mont_mul(a[n - 1], b[n - 1]))
    }
}

/// Row `i` of `A_hat = ExpandA(rho)`: entry `j` is RejNTTPoly of
/// `rho || j || i`.
pub open spec fn a_hat_row(rho: Seq<u8>, i: int, l: nat) -> Seq<Seq<int>> {
    Seq::new(l, |j: int| as_ints(rej_ntt_spec(matrix_seed(rho, j as u8, i as u8))))
}

/// Row `j` of `z` as encoded in `sig`.
pub open spec fn sig_z<const K: usize, const L: usize>(params: Params<K, L>, sig: Seq<u8>, j: int) -> Seq<u32> {
    row_signed(sig, sig_z_off(params, j), (1 + params.gamma1_bits) as nat, params.gamma1 as int)
}

/// `NTT(z)` (Montgomery form).
pub open spec fn z_hat<const K: usize, const L: usize>(params: Params<K, L>, sig: Seq<u8>) -> Seq<Seq<int>> {
    Seq::new(L as nat, |j: int| ntt_spec(sig_z(params, sig, j)))
}

/// Every coefficient of `z` has centered absolute value below
/// `gamma1 - beta`.
pub open spec fn z_in_bound<const K: usize, const L: usize>(params: Params<K, L>, sig: Seq<u8>) -> bool {
    forall|j: int, c: int|
        0 <= j < L && 0 <= c < N ==> abs_centered_spec(#[trigger] sig_z(params, sig, j)[c] as int, Q as int)
            < params.gamma1 - params.beta
}

/// `t1_i * 2^d mod q`, with `t1_i` read from `pk`.
pub open spec fn t1_scaled(pk: Seq<u8>, i: int) -> Seq<u32> {
    Seq::new(N as nat, |k: int| ((row_digits(pk, 32 + 320 * i, 10)[k] as int * 8192) % (Q as int)) as u32)
}

/// The commitment hash `c~` at the front of `sig`.
pub open spec fn sig_c_tilde<const K: usize, const L: usize>(params: Params<K, L>, sig: Seq<u8>) -> Seq<u8> {
    sig.subrange(0, params.ctilde_bytes as int)
}

/// `NTT(SampleInBall(c~))`.
pub open spec fn c_hat<const K: usize, const L: usize>(params: Params<K, L>, sig: Seq<u8>) -> Seq<int> {
    ntt_spec(ball_run(sig_c_tilde(params, sig), params.tau as int, params.tau as nat).0)
}

/// Row `i` of `w'_approx = NTT^-1(A_hat o NTT(z) - NTT(c) o NTT(t1 2^d))`.
pub open spec fn w_approx_row<const K: usize, const L: usize>(
    params: Params<K, L>,
    pk: Seq<u8>,
    sig: Seq<u8>,
    i: int,
) -> Seq<int> {
    inv_ntt_spec(
        seq_sub(
            ntt_row_dot(a_hat_row(pk.subrange(0, 32), i, L as nat), z_hat(params, sig), L as nat),
            seq_mont_mul(c_hat(params, sig), ntt_spec(t1_scaled(pk, i))),
        ),
    )
}

/// The encoded hint at the end of `sig`.
pub open spec fn sig_hint<const K: usize, const L: usize>(params: Params<K, L>, sig: Seq<u8>) -> Seq<u8> {
    sig.subrange(sig_hint_off(params), sig_hint_off(params) + params.omega + K)
}

/// Some position of hint row `i`, among the first `n` from its start,
/// is `k`.
pub open spec fn hint_has(h: Seq<u8>, omega: int, i: int, n: int, k: int) -> bool {
    exists|p: int| hint_start(h, omega, i) <= p < hint_start(h, omega, i) + n && h[p] as int == k
}

/// Bit `k` of hint polynomial `i` (HintBitUnpack).
pub open spec fn hint_bit(h: Seq<u8>, omega: int, i: int, k: int) -> u32 {
    if hint_has(h, omega, i, hint_end(h, omega, i) - hint_start(h, omega, i), k) {
        1
    } else {
        0
    }
}

/// Row `i` of `w1' = UseHint(h, w'_approx)`.
pub open spec fn w1_row<const K: usize, const L: usize>(
    params: Params<K, L>,
    pk: Seq<u8>,
    sig: Seq<u8>,
    i: int,
) -> Seq<u32> {
    Seq::new(
        N as nat,
        |k: int|
            use_hint_spec(
                hint_bit(sig_hint(params, sig), params.omega as int, i, k) as int,
                w_approx_row(params, pk, sig, i)[k],
                params.gamma2 as int,
            ) as u32,
    )
}

/// The `32 c` bytes of SimpleBitPack of `v` with `c` bits per value.
pub open spec fn packed_bytes(v: Seq<u32>, c: nat) -> Seq<u8> {
    Seq::new(32 * c, |j: int| digit(packed_value(v, c, N as nat), 8, j as nat) as u8)
}

/// `w1Encode(w1')`: the rows of `w1'` packed one after another.
pub open spec fn w1_encoding<const K: usize, const L: usize>(params: Params<K, L>, pk: Seq<u8>, sig: Seq<u8>) -> Seq<u8> {
    let w = 32 * params.w1_bits;
    Seq::new(
        (K * w) as nat,
        |j: int| packed_bytes(w1_row(params, pk, sig, j / (w as int)), params.w1_bits as nat)[j % (w as int)],
    )
}

/// `mu = H(H(pk, 64) || M', 64)`.
pub open spec fn verify_mu(pk: Seq<u8>, m_prime: Seq<u8>) -> Seq<u8> {
    shake256_bytes(shake256_bytes(pk, 0, 64) + m_prime, 0, 64)
}

/// The message representative of ML-DSA verification (FIPS 204 Alg 8,
/// lines 6-7): `mu` is the 64-byte SHAKE-256 output on the 64-byte
/// SHAKE-256 output `tr` of the public key followed by `M'`.
pub proof fn lemma_verify_mu(pk: Seq<u8>, m_prime: Seq<u8>)
    ensures
        verify_mu(pk, m_prime) == Seq::new(
            64,
            |k: int|
                crate::hashing::shake256_byte(
                    Seq::new(64, |t: int| crate::hashing::shake256_byte(pk, t as nat)) + m_prime,
                    k as nat,
                ),
        ),
        verify_mu(pk, m_prime).len() == 64,
{
    let tr = Seq::new(64, |t: int| crate::hashing::shake256_byte(pk, t as nat));
    assert(shake256_bytes(pk, 0, 64) =~= tr);
    assert(verify_mu(pk, m_prime) =~= Seq::new(
        64,
        |k: int| crate::hashing::shake256_byte(tr + m_prime, k as nat),
    ));
}

/// ML-DSA.Verify_internal accepts `sig` on `m_prime` under `pk`.
pub open spec fn verify_accepts<const K: usize, const L: usize>(
    params: Params<K, L>,
    pk: Seq<u8>,
    m_prime: Seq<u8>,
    sig: Seq<u8>,
) -> bool {
    &&& pk.len() == params.pk_bytes
    &&& sig.len() == params.sig_bytes
    &&& hint_valid(sig_hint(params, sig), params.omega as int, K as int)
    &&& z_in_bound(params, sig)
    &&& sig_c_tilde(params, sig) == shake256_bytes(
        verify_mu(pk, m_prime) + w1_encoding(params, pk, sig),
        0,
        params.ctilde_bytes as nat,
    )
}

/// ML-DSA.Verify_internal (FIPS 204 Alg 8) in terms of its inputs: the
/// challenge is `c = SampleInBall(c~)` for the first `lambda/4` bytes `c~`
/// of the signature; row `i` of `w'_approx` is
/// `NTT^-1(sum_j A_hat[i][j] z_hat[j] - c_hat t1_hat_i 2^13)` with
/// `A_hat[i][j] = RejNTTPoly(rho || j || i)` for the first 32 bytes `rho`
/// of the public key; and a signature is accepted exactly when the
/// lengths match, the hint is well formed, `z` is below `gamma1 - beta`,
/// and `c~` equals SHAKE-256(mu || w1Encode(w1')) truncated to `lambda/4`
/// bytes.
pub proof fn lemma_verify_structure<const K: usize, const L: usize>(
    params: Params<K, L>,
    pk: Seq<u8>,
    m_prime: Seq<u8>,
    sig: Seq<u8>,
    i: int,
)
    ensures
        c_hat(params, sig) == ntt_spec(
            ball_run(sig.subrange(0, params.ctilde_bytes as int), params.tau as int, params.tau as nat).0,
        ),
        w_approx_row(params, pk, sig, i) == inv_ntt_spec(
            seq_sub(
                ntt_row_dot(
                    Seq::new(
                        L as nat,
                        |j: int| as_ints(rej_ntt_spec(pk.subrange(0, 32) + seq![j as u8, i as u8])),
                    ),
                    Seq::new(L as nat, |j: int| ntt_spec(sig_z(params, sig, j))),
                    L as nat,
                ),
                seq_mont_mul(
                    ntt_spec(
                        ball_run(sig.subrange(0, params.ctilde_bytes as int), params.tau as int, params.tau as nat).0,
                    ),
                    ntt_spec(
                        Seq::new(
                            N as nat,
                            |k: int| ((row_digits(pk, 32 + 320 * i, 10)[k] as int * 8192) % (Q as int)) as u32,
                        ),
                    ),
                ),
            ),
        ),
        verify_accepts(params, pk, m_prime, sig) == (pk.len() == params.pk_bytes && sig.len()
            == params.sig_bytes && hint_valid(sig_hint(params, sig), params.omega as int, K as int)
            && z_in_bound(params, sig) && sig.subrange(0, params.ctilde_bytes as int) == Seq::new(
            params.ctilde_bytes as nat,
            |k: int|
                crate::hashing::shake256_byte(
                    Seq::new(
                        64,
                        |t: int|
                            crate::hashing::shake256_byte(
                                Seq::new(64, |u: int| crate::hashing::shake256_byte(pk, u as nat))
                                    + m_prime,
                                t as nat,
                            ),
                    ) + w1_encoding(params, pk, sig),
                    k as nat,
                ),
        )),
{
    lemma_verify_mu(pk, m_prime);
    assert(a_hat_row(pk.subrange(0, 32), i, L as nat) =~= Seq::new(
        L as nat,
        |j: int| as_ints(rej_ntt_spec(pk.subrange(0, 32) + seq![j as u8, i as u8])),
    ));
    assert(z_hat(params, sig) =~= Seq::new(L as nat, |j: int| ntt_spec(sig_z(params, sig, j))));
    let inp = verify_mu(pk, m_prime) + w1_encoding(params, pk, sig);
    assert(shake256_bytes(inp, 0, params.ctilde_bytes as nat) =~= Seq::new(
        params.ctilde_bytes as nat,
        |k: int| crate::hashing::shake256_byte(inp, k as nat),
    ));
}

/// `sum_j A_hat[i][j] o z_hat[j]`, the entries of `A_hat` sampled on
/// demand.
fn az_row<const L: usize>(rho: &[u8; 32], z_hat: &PolyVec<u32, L>, i: usize) -> (row: Poly<u32>)
    requires
        L <= 8,
        i < 256,
        forall|j: int| 0 <= j < L ==> poly_canonical(#[trigger] z_hat.v[j], Q as int),
    ensures
        as_ints(row.coeffs@) == ntt_row_dot(a_hat_row(rho@, i as int, L as nat), polys_coeffs(z_hat.v@), L as nat),
        poly_canonical(row, Q as int),
{
    let ghost a = a_hat_row(rho@, i as int, L as nat);
    let ghost b = polys_coeffs(z_hat.v@);
    let mut row = Poly::<u32>::zero();
    assert(as_ints(row.coeffs@) =~= ntt_row_dot(a, b, 0));
    for j in 0..L
        invariant
            L <= 8,
            i < 256,
            a == a_hat_row(rho@, i as int, L as nat),
            b == polys_coeffs(z_hat.v@),
            forall|jj: int| 0 <= jj < L ==> poly_canonical(#[trigger] z_hat.v[jj], Q as int),
            as_ints(row.coeffs@) == ntt_row_dot(a, b, j as nat),
            poly_canonical(row, Q as int),
    {
        let a_ij = rej_ntt_poly(rho, j as u8, i as u8);
        let p = mul_ntt(&a_ij, &z_hat.v[j]);
        let next = row.add(&p, Q);
        proof {
            assert(as_ints(a_ij.coeffs@) == a[j as int]);
            assert(as_ints(z_hat.v[j as int].coeffs@) == b[j as int]);
            assert forall|c: int| 0 <= c < N implies #[trigger] as_ints(next.coeffs@)[c] == ntt_row_dot(
                a,
                b,
                (j + 1) as nat,
            )[c] by {
                assert(as_ints(row.coeffs@)[c] == row.coeffs[c]);
                assert(p.coeffs[c] as int == mont_mul_spec(a_ij.coeffs[c] as int, z_hat.v[j as int].coeffs[c] as int, Q as int));
            }
            assert(as_ints(next.coeffs@) =~= ntt_row_dot(a, b, (j + 1) as nat));
        }
        row = next;
    }
    row
}

/// `NTT(c) o NTT(t1_i 2^d)`, with `t1_i` read from `pk`.
fn ct1_row(pk: &[u8], c_hat: &Poly<u32>, i: usize) -> (r: Poly<u32>)
    requires
        i < 8,
        32 + (i + 1) * 320 <= pk.len(),
        poly_canonical(*c_hat, Q as int),
    ensures
        as_ints(r.coeffs@) == seq_mont_mul(as_ints(c_hat.coeffs@), ntt_spec(t1_scaled(pk@, i as int))),
        poly_canonical(r, Q as int),
{
    let mut t1 = match pk_t1_row(pk, i) {
        Ok(p) => p,
        Err(_) => {
            assert(false);
            Poly::zero()
        },
    };
    let ghost raw = t1.coeffs@;
    for k in 0..N
        invariant
            forall|c: int|
                0 <= c < N ==> #[trigger] t1.coeffs[c] == if c < k {
                    ((raw[c] as int * 8192) % (Q as int)) as u32
                } else {
                    raw[c]
                },
    {
        t1.coeffs[k] = mul_mod(t1.coeffs[k], 8192, Q);
    }
    assert(t1.coeffs@ =~= t1_scaled(pk@, i as int));
    ntt(&mut t1);
    let r = mul_ntt(c_hat, &t1);
    proof {
        assert forall|c: int| 0 <= c < N implies #[trigger] as_ints(r.coeffs@)[c] == seq_mont_mul(
            as_ints(c_hat.coeffs@),
            ntt_spec(t1_scaled(pk@, i as int)),
        )[c] by {
            assert(r.coeffs[c] as int == mont_mul_spec(c_hat.coeffs[c] as int, t1.coeffs[c] as int, Q as int));
            assert(as_ints(t1.coeffs@)[c] == t1.coeffs[c]);
        }
        assert(as_ints(r.coeffs@) =~= seq_mont_mul(as_ints(c_hat.coeffs@), ntt_spec(t1_scaled(pk@, i as int))));
    }
    r
}

/// The 256 bits of hint polynomial `i` of a valid encoded hint.
fn hint_bits_row<const K: usize>(hint: &[u8], omega: usize, i: usize) -> (b: [u32; 256])
    requires
        hint_valid(hint@, omega as int, K as int),
        i < K,
    ensures
        forall|k: int| 0 <= k < 256 ==> #[trigger] b[k] == hint_bit(hint@, omega as int, i as int, k),
{
    assert(hint_row_ok(hint@, omega as int, i as int));
    let pos = h_row_positions::<K>(hint, omega, i);
    let ghost start = hint_start(hint@, omega as int, i as int);
    let ghost n = hint_end(hint@, omega as int, i as int) - start;
    let mut b = [0u32; 256];
    for q in 0..pos.len()
        invariant
            pos@.len() == n,
            0 <= start,
            start + n <= hint@.len(),
            start == hint_start(hint@, omega as int, i as int),
            forall|k: int| 0 <= k < pos@.len() ==> #[trigger] pos@[k] == hint@[start + k],
            forall|k: int|
                0 <= k < 256 ==> #[trigger] b[k] == (if hint_has(hint@, omega as int, i as int, q as int, k) {
                    1u32
                } else {
                    0u32
                }),
    {
        let x = pos[q] as usize;
        assert(x == hint@[start + q] as usize);
        b[x] = 1;
        proof {
            assert forall|k: int| 0 <= k < 256 implies #[trigger] b[k] == (if hint_has(
                hint@,
                omega as int,
                i as int,
                (q + 1) as int,
                k,
            ) {
                1u32
            } else {
                0u32
            }) by {
                if k == x {
                    assert(hint@[start + q] as int == k);
                    assert(hint_has(hint@, omega as int, i as int, (q + 1) as int, k));
                } else {
                    if hint_has(hint@, omega as int, i as int, (q + 1) as int, k) {
                        let p = choose|p: int| start <= p < start + q + 1 && hint@[p] as int == k;
                        assert(p != start + q);
                        assert(hint_has(hint@, omega as int, i as int, q as int, k));
                    }
                    if hint_has(hint@, omega as int, i as int, q as int, k) {
                        let p = choose|p: int| start <= p < start + q && hint@[p] as int == k;
                        assert(hint_has(hint@, omega as int, i as int, (q + 1) as int, k));
                    }
                }
            }
        }
    }
    b
}


/// `(q - 1) / (2 gamma2)` for the two `gamma2` values.
proof fn lemma_hint_modulus_values()
    ensures
        hint_modulus(95232) == 44,
        hint_modulus(261888) == 16,
{
    vstd::arithmetic::div_mod::lemma_fundamental_div_mod_converse(8380416, 190464, 44, 0);
    vstd::arithmetic::div_mod::lemma_fundamental_div_mod_converse(8380416, 523776, 16, 0);
}

/// Row `i` of `w1' = UseHint(h, NTT^-1(A_hat o z_hat - c_hat o NTT(t1 2^d)))`.
fn w1_row_exec<const K: usize, const L: usize>(
    params: &Params<K, L>,
    rho: &[u8; 32],
    z_hat: &PolyVec<u32, L>,
    c_hat: &Poly<u32>,
    pk: &[u8],
    hint: &[u8],
    i: usize,
) -> (w: Poly<u32>)
    requires
        dsa_params_ok(*params),
        i < K,
        pk.len() == params.pk_bytes,
        hint_valid(hint@, params.omega as int, K as int),
        forall|j: int| 0 <= j < L ==> poly_canonical(#[trigger] z_hat.v[j], Q as int),
        poly_canonical(*c_hat, Q as int),
    ensures
        w.coeffs@ == Seq::new(
            N as nat,
            |k: int|
                use_hint_spec(
                    hint_bit(hint@, params.omega as int, i as int, k) as int,
                    inv_ntt_spec(
                        seq_sub(
                            ntt_row_dot(a_hat_row(rho@, i as int, L as nat), polys_coeffs(z_hat.v@), L as nat),
                            seq_mont_mul(as_ints(c_hat.coeffs@), ntt_spec(t1_scaled(pk@, i as int))),
                        ),
                    )[k],
                    params.gamma2 as int,
                ) as u32,
        ),
        fits(w.coeffs@, params.w1_bits as nat),
{
    let az = az_row(rho, z_hat, i);
    proof {
        assert(32 + (i + 1) * 320 <= 32 + K * 320) by (nonlinear_arith)
            requires
                i < K,
        ;
    }
    let ct1 = ct1_row(pk, c_hat, i);
    let mut row = az.sub(&ct1, Q);
    let ghost diff = as_ints(row.coeffs@);
    proof {
        assert forall|c: int| 0 <= c < N implies #[trigger] diff[c] == seq_sub(as_ints(az.coeffs@), as_ints(ct1.coeffs@))[c] by {
            assert(as_ints(az.coeffs@)[c] == az.coeffs[c]);
            assert(as_ints(ct1.coeffs@)[c] == ct1.coeffs[c]);
        }
        assert(diff =~= seq_sub(as_ints(az.coeffs@), as_ints(ct1.coeffs@)));
    }
    inv_ntt(&mut row);
    let bits = hint_bits_row::<K>(hint, params.omega, i);
    let ghost spec_row = Seq::new(
        N as nat,
        |k: int|
            use_hint_spec(
                hint_bit(hint@, params.omega as int, i as int, k) as int,
                inv_ntt_spec(diff)[k],
                params.gamma2 as int,
            ) as u32,
    );
    let mut w = Poly::<u32>::zero();
    proof {
        lemma_hint_modulus_values();
        vstd::arithmetic::power2::lemma2_to64();
    }
    for k in 0..N
        invariant
            dsa_params_ok(*params),
            hint_modulus(95232) == 44,
            hint_modulus(261888) == 16,
            poly_canonical(row, Q as int),
            as_ints(row.coeffs@) == inv_ntt_spec(diff),
            forall|x: int| 0 <= x < 256 ==> #[trigger] bits[x] == hint_bit(hint@, params.omega as int, i as int, x),
            spec_row == Seq::new(
                N as nat,
                |k: int|
                    use_hint_spec(
                        hint_bit(hint@, params.omega as int, i as int, k) as int,
                        inv_ntt_spec(diff)[k],
                        params.gamma2 as int,
                    ) as u32,
            ),
            forall|x: int| 0 <= x < k ==> #[trigger] w.coeffs[x] == spec_row[x],
            forall|x: int| 0 <= x < k ==> (#[trigger] w.coeffs[x] as nat) < vstd::arithmetic::power2::pow2(params.w1_bits as nat),
    {
        let v = use_hint(bits[k], row.coeffs[k], params.gamma2);
        proof {
            assert(as_ints(row.coeffs@)[k as int] == row.coeffs[k as int]);
            vstd::arithmetic::power2::lemma2_to64();
        }
        w.coeffs[k] = v;
    }
    assert(w.coeffs@ =~= spec_row);
    w
}

/// `z` decoded from `sig`, or `None` if a coefficient is out of range.
fn decode_z<const K: usize, const L: usize>(params: &Params<K, L>, sig: &[u8]) -> (res: Option<PolyVec<u32, L>>)
    requires
        dsa_params_ok(*params),
        sig.len() == params.sig_bytes,
    ensures
        res is Some <==> z_in_bound(*params, sig@),
        res matches Some(z) ==> forall|j: int| 0 <= j < L ==> #[trigger] z.v[j].coeffs@ == sig_z(*params, sig@, j),
        res matches Some(z) ==> forall|j: int| 0 <= j < L ==> poly_canonical(#[trigger] z.v[j], Q as int),
{
    let mut z = PolyVec::<u32, L>::zero();
    for i in 0..L
        invariant
            dsa_params_ok(*params),
            sig.len() == params.sig_bytes,
            forall|j: int| 0 <= j < i ==> #[trigger] z.v[j].coeffs@ == sig_z(*params, sig@, j),
            forall|j: int| 0 <= j < i ==> poly_canonical(#[trigger] z.v[j], Q as int),
    {
        proof {
            assert(sig_z_off(*params, (i + 1) as int) <= sig_hint_off(*params)) by (nonlinear_arith)
                requires
                    i < L,
            ;
        }
        let p = match sig_z_row(params, sig, i) {
            Ok(p) => p,
            Err(_) => {
                assert(false);
                Poly::zero()
            },
        };
        z.v[i] = p;
    }
    let bound = params.gamma1 - params.beta;
    for i in 0..L
        invariant
            dsa_params_ok(*params),
            bound == params.gamma1 - params.beta,
            forall|j: int| 0 <= j < L ==> #[trigger] z.v[j].coeffs@ == sig_z(*params, sig@, j),
            forall|j: int| 0 <= j < L ==> poly_canonical(#[trigger] z.v[j], Q as int),
            forall|j: int, c: int|
                0 <= j < i && 0 <= c < N ==> abs_centered_spec(#[trigger] sig_z(*params, sig@, j)[c] as int, Q as int)
                    < params.gamma1 - params.beta,
    {
        for c in 0..N
            invariant
                dsa_params_ok(*params),
                i < L,
                bound == params.gamma1 - params.beta,
                forall|j: int| 0 <= j < L ==> #[trigger] z.v[j].coeffs@ == sig_z(*params, sig@, j),
                forall|j: int| 0 <= j < L ==> poly_canonical(#[trigger] z.v[j], Q as int),
                forall|j: int, cc: int|
                    0 <= j < i && 0 <= cc < N ==> abs_centered_spec(#[trigger] sig_z(*params, sig@, j)[cc] as int, Q as int)
                        < params.gamma1 - params.beta,
                forall|cc: int|
                    0 <= cc < c ==> abs_centered_spec(#[trigger] sig_z(*params, sig@, i as int)[cc] as int, Q as int)
                        < params.gamma1 - params.beta,
        {
            assert(z.v[i as int].coeffs[c as int] == sig_z(*params, sig@, i as int)[c as int]);
            if abs_centered(z.v[i].coeffs[c], Q) >= bound {
                assert(!z_in_bound(*params, sig@));
                return None;
            }
        }
    }
    Some(z)
}

/// `mu = H(H(pk, 64) || M', 64)`, with `M'` absorbed piece by piece.
fn compute_mu(pk: &[u8], m_prime_pieces: &[&[u8]]) -> (mu: [u8; 64])
    ensures
        mu@ == verify_mu(pk@, concat_pieces(pieces_of(m_prime_pieces@))),
        mu@ == Seq::new(
            64,
            |k: int|
                crate::hashing::shake256_byte(
                    Seq::new(64, |t: int| crate::hashing::shake256_byte(pk@, t as nat)) + concat_pieces(
                        pieces_of(m_prime_pieces@),
                    ),
                    k as nat,
                ),
        ),
{
    let mut tr = [0u8; 64];
    let pk_pieces: [&[u8]; 1] = [pk];
    proof {
        lemma_concat_small(pk_pieces@);
    }
    shake256(&pk_pieces, &mut tr);
    let mut mu = [0u8; 64];
    shake256_prefixed(&tr, m_prime_pieces, &mut mu);
    proof {
        lemma_verify_mu(pk@, concat_pieces(pieces_of(m_prime_pieces@)));
    }
    mu
}

/// `w1Encode(w1')`: all `K` rows of `w1'` packed into one buffer.
fn encode_w1<const K: usize, const L: usize>(
    params: &Params<K, L>,
    rho: &[u8; 32],
    zh: &PolyVec<u32, L>,
    c_poly: &Poly<u32>,
    pk: &[u8],
    sig: &[u8],
    hint: &[u8],
) -> (buf: [u8; MAX_W1_PACKED_BYTES])
    requires
        dsa_params_ok(*params),
        pk.len() == params.pk_bytes,
        hint@ == sig_hint(*params, sig@),
        hint_valid(hint@, params.omega as int, K as int),
        rho@ == pk@.subrange(0, 32),
        polys_coeffs(zh.v@) == z_hat(*params, sig@),
        forall|j: int| 0 <= j < L ==> poly_canonical(#[trigger] zh.v[j], Q as int),
        as_ints(c_poly.coeffs@) == c_hat(*params, sig@),
        poly_canonical(*c_poly, Q as int),
    ensures
        buf@.subrange(0, K * 32 * params.w1_bits) == w1_encoding(*params, pk@, sig@),
{
    let w1_chunk = 32 * params.w1_bits;
    assert(K * w1_chunk == K * 32 * params.w1_bits) by (nonlinear_arith)
        requires
            w1_chunk == 32 * params.w1_bits,
    ;
    let w1_len = K * w1_chunk;
    let mut w1_buf = [0u8; MAX_W1_PACKED_BYTES];
    let ghost wb = params.w1_bits as nat;
    for i in 0..K
        invariant
            dsa_params_ok(*params),
            pk.len() == params.pk_bytes,
            hint@ == sig_hint(*params, sig@),
            hint_valid(hint@, params.omega as int, K as int),
            rho@ == pk@.subrange(0, 32),
            polys_coeffs(zh.v@) == z_hat(*params, sig@),
            forall|j: int| 0 <= j < L ==> poly_canonical(#[trigger] zh.v[j], Q as int),
            as_ints(c_poly.coeffs@) == c_hat(*params, sig@),
            poly_canonical(*c_poly, Q as int),
            wb == params.w1_bits as nat,
            w1_chunk == 32 * params.w1_bits,
            w1_len == K * w1_chunk,
            w1_buf@.len() == MAX_W1_PACKED_BYTES,
            w1_len <= MAX_W1_PACKED_BYTES,
            forall|ii: int|
                0 <= ii < i ==> #[trigger] row_value(w1_buf@, w1_chunk * ii, wb) == packed_value(
                    w1_row(*params, pk@, sig@, ii),
                    wb,
                    N as nat,
                ),
    {
        let w = w1_row_exec(params, rho, zh, c_poly, pk, hint, i);
        assert(w.coeffs@ =~= w1_row(*params, pk@, sig@, i as int));
        proof {
            assert(i * w1_chunk + w1_chunk <= K * w1_chunk) by (nonlinear_arith)
                requires
                    i < K,
            ;
        }
        let ghost before = w1_buf@;
        let res = pack_bits_at(&w.coeffs, params.w1_bits, &mut w1_buf, i * w1_chunk);
        assert(res is Ok);
        proof {
            assert forall|ii: int| 0 <= ii < i + 1 implies #[trigger] row_value(w1_buf@, w1_chunk * ii, wb)
                == packed_value(w1_row(*params, pk@, sig@, ii), wb, N as nat) by {
                if ii < i {
                    assert(w1_chunk * ii + w1_chunk <= i * w1_chunk) by (nonlinear_arith)
                        requires
                            ii < i,
                    ;
                    crate::encoding::lemma_row_value_frame(before, w1_buf@, w1_chunk * ii, wb);
                } else {
                    assert(w1_chunk * ii == i * w1_chunk) by (nonlinear_arith)
                        requires
                            ii == i,
                    ;
                }
            }
        }
    }
    proof {
        let w = w1_chunk as int;
        assert(w * K == w1_len) by (nonlinear_arith)
            requires
                w == w1_chunk,
                w1_len == K * w1_chunk,
        ;
        assert forall|j: int| 0 <= j < w1_len implies #[trigger] w1_buf@[j] == w1_encoding(*params, pk@, sig@)[j] by {
            let ii = j / w;
            let k = j % w;
            vstd::arithmetic::div_mod::lemma_fundamental_div_mod(j, w);
            assert(0 <= ii < K) by (nonlinear_arith)
                requires
                    0 <= j < w * K,
                    w > 0,
                    ii == j / w,
                    j == w * (j / w) + j % w,
                    0 <= j % w < w,
            ;
            assert(w * ii + w <= w * K) by (nonlinear_arith)
                requires
                    ii < K,
                    w >= 0,
            ;
            assert(row_value(w1_buf@, w1_chunk * ii, wb) == packed_value(w1_row(*params, pk@, sig@, ii), wb, N as nat));
            let t = w1_buf@.subrange(w * ii, w * ii + w);
            crate::bits::lemma_byte_of_bytes_value(t, w as nat, k as nat);
            assert(t[k] == w1_buf@[j]);
        }
        assert(w1_buf@.subrange(0, w1_len as int) =~= w1_encoding(*params, pk@, sig@));
    }
    w1_buf
}

/// ML-DSA.Verify_internal (FIPS 204 Alg 8) on the message
/// representative `M'` given as up to six pieces, absorbed in order.
pub fn verify_internal_impl_pieces<const K: usize, const L: usize>(
    params: &Params<K, L>,
    pk: &[u8],
    m_prime_pieces: &[&[u8]],
    sig: &[u8],
) -> (r: bool)
    requires
        dsa_params_ok(*params),
    ensures
        r == (m_prime_pieces.len() <= 6 && verify_accepts(
            *params,
            pk@,
            concat_pieces(pieces_of(m_prime_pieces@)),
            sig@,
        )),
{
    let ghost m_prime = concat_pieces(pieces_of(m_prime_pieces@));
    if m_prime_pieces.len() > 6 || pk.len() != params.pk_bytes || sig.len() != params.sig_bytes {
        return false;
    }
    let rho = take_32(pk, 0);
    let c_tilde = &sig[0..params.ctilde_bytes];
    let hint = sig_hint_slice(params, sig);
    if !validate_hint_bytes::<K>(hint, params.omega) {
        return false;
    }
    let z = match decode_z(params, sig) {
        Some(z) => z,
        None => {
            return false;
        },
    };
    assert(hint_row_ok(hint@, params.omega as int, K - 1));
    if h_weight::<K>(hint, params.omega) as usize > params.omega {
        return false;
    }
    let mu = compute_mu(pk, m_prime_pieces);
    let mut c_poly = sample_in_ball(c_tilde, params.tau);
    ntt(&mut c_poly);
    assert(c_tilde@ == sig_c_tilde(*params, sig@));
    assert(as_ints(c_poly.coeffs@) == c_hat(*params, sig@));
    let mut zh = z;
    for i in 0..L
        invariant
            forall|j: int| 0 <= j < L ==> #[trigger] z.v[j].coeffs@ == sig_z(*params, sig@, j),
            forall|j: int| 0 <= j < i ==> #[trigger] as_ints(zh.v[j].coeffs@) == ntt_spec(sig_z(*params, sig@, j)),
            forall|j: int| 0 <= j < i ==> poly_canonical(#[trigger] zh.v[j], Q as int),
            forall|j: int| i <= j < L ==> #[trigger] zh.v[j] == z.v[j],
    {
        let mut p = zh.v[i];
        ntt(&mut p);
        zh.v[i] = p;
    }
    assert(polys_coeffs(zh.v@) =~= z_hat(*params, sig@));
    assert(rho@ =~= pk@.subrange(0, 32));
    let w1_buf = encode_w1(params, &rho, &zh, &c_poly, pk, sig, hint);
    let w1_len = K * 32 * params.w1_bits;
    let w1 = &w1_buf[0..w1_len];
    let mut c_prime = [0u8; MAX_CTILDE_BYTES];
    let h_pieces: [&[u8]; 2] = [&mu, w1];
    proof {
        lemma_concat_small(h_pieces@);
    }
    shake256(&h_pieces, &mut c_prime);
    let diff = xor_diff(c_tilde, &c_prime, 0, params.ctilde_bytes, 0);
    proof {
        let n = params.ctilde_bytes as int;
        let inp = verify_mu(pk@, m_prime) + w1_encoding(*params, pk@, sig@);
        let expect = shake256_bytes(inp, 0, n as nat);
        assert(w1@ == w1_encoding(*params, pk@, sig@));
        assert(c_prime@ == shake256_bytes(inp, 0, MAX_CTILDE_BYTES as nat));
        assert forall|k: int| 0 <= k < n implies #[trigger] c_prime@[0 + k] == expect[k] by {
            assert(c_prime@[k] == crate::hashing::shake256_byte(inp, k as nat));
        }
        if diff == 0 {
            assert(c_tilde@ =~= expect) by {
                assert forall|k: int| 0 <= k < c_tilde@.len() implies c_tilde@[k] == expect[k] by {
                    assert(c_tilde@[k] == c_prime@[0 + k]);
                }
            }
        } else {
            if c_tilde@ == expect {
                assert forall|k: int| 0 <= k < n implies #[trigger] c_tilde@[k] == c_prime@[0 + k] by {
                    assert(c_prime@[0 + k] == expect[k]);
                }
            }
        }
    }
    diff == 0
}

/// [`verify_internal_impl_pieces`] with `M'` in one slice.
pub fn verify_internal_impl<const K: usize, const L: usize>(
    params: &Params<K, L>,
    pk: &[u8],
    m_prime: &[u8],
    sig: &[u8],
) -> (r: bool)
    requires
        dsa_params_ok(*params),
    ensures
        r == verify_accepts(*params, pk@, m_prime@, sig@),
{
    let pieces: [&[u8]; 1] = [m_prime];
    proof {
        lemma_concat_small(pieces@);
    }
    verify_internal_impl_pieces(params, pk, &pieces, sig)
}

/// ML-DSA.Verify_internal (FIPS 204 Alg 8) on `M'`.
pub fn verify_internal<const K: usize, const L: usize>(
    params: &Params<K, L>,
    pk: &[u8],
    m_prime: &[u8],
    sig: &[u8],
) -> (r: bool)
    requires
        dsa_params_ok(*params),
    ensures
        r == verify_accepts(*params, pk@, m_prime@, sig@),
{
    verify_internal_impl(params, pk, m_prime, sig)
}

} // verus!

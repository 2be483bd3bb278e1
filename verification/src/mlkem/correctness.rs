//! Correctness of K-PKE decryption: for a key pair and a ciphertext
//! produced by this crate, decryption computes the encoded message plus
//! an explicit noise polynomial, and so recovers the message whenever
//! that noise stays below `q/4`.

use vstd::arithmetic::div_mod::*;
use vstd::arithmetic::power::pow;
use vstd::arithmetic::power2::*;
use vstd::prelude::*;

use crate::bits::{
    bytes_value, digit, fits, lemma_byte_of_bytes_value, lemma_bytes_value_bound,
    lemma_repack_digits, packed_value,
};
use crate::blinding::{blind_factor, blind_inv_mont, blind_mont};
use crate::encoding::{lemma_row_digits_roundtrip, lemma_row_value_frame, row_digits, row_value};
use crate::field::{mont_mul_spec, mont_r, mont_value, r_inv};
use crate::mlkem::encoding::{compress_spec, decompress_spec};
use crate::mlkem::algebra::{
    lemma_acc_is_ntt_dot, lemma_ntt_dot_add_right, lemma_ntt_dot_comm, lemma_ntt_dot_len,
    lemma_ntt_dot_scale_left, lemma_transpose_dot, mat_col,
};
use crate::mlkem::ntt::{
    acc_spec, kem_ct_layer, kem_ct_layers, kem_inv_ntt_spec, kem_ntt_spec, mont_seq_kem,
};
use crate::mlkem::ntt_inverse::{lemma_kem_inv_ntt_add, lemma_kem_inv_ntt_roundtrip, lemma_kem_ntt_add};
use crate::mlkem::kem::{decaps_m, decaps_ss, encaps_g, kem_dk, lemma_decaps_recovers_key};
use crate::mlkem::params::{kem_params_ok, Params, N, Q};
use crate::mlkem::pke::{
    a_hat_row, a_hat_t_row, add_q, canon_seq, compress_seq, ct_u_hat, decompress_seq,
    decrypt_blind_input, decrypt_m, decrypt_w, ek_t_hat, encrypt_u_spec, encrypt_v_spec, keygen_dk,
    keygen_ek, keygen_rho, keygen_s_hat, keygen_sigma, keygen_t_hat_row, kpke_ct, message_poly,
    ntt_dot, ntt_noise, scale_seq, sub_q, to_mont_seq, zero_seq,
};
use crate::mlkem::sampling::prf_cbd;
use crate::ntt::{as_ints, layer_len};

verus! {

/// Every entry of `x` is a canonical residue modulo `q`.
pub open spec fn canonical(x: Seq<int>) -> bool {
    &&& x.len() == N
    &&& forall|i: int| 0 <= i < N ==> 0 <= #[trigger] x[i] < Q
}

pub(crate) proof fn lemma_ct_layers_canonical(a: Seq<int>, len: nat)
    requires
        layer_len(len as int),
        len >= 2,
        a.len() == 256,
    ensures
        canonical(kem_ct_layers(a, len)),
    decreases len,
{
    let c = kem_ct_layer(a, len as int);
    assert(kem_ct_layers(a, len) == kem_ct_layers(c, len / 2));
    if len / 2 >= 2 {
        assert(layer_len((len / 2) as int));
        lemma_ct_layers_canonical(c, len / 2);
    } else {
        assert(kem_ct_layers(c, len / 2) == c);
    }
}

/// The forward NTT yields canonical residues.
pub proof fn lemma_kem_ntt_canonical(a: Seq<u32>)
    requires
        a.len() == N,
    ensures
        canonical(kem_ntt_spec(a)),
{
    lemma_ct_layers_canonical(mont_seq_kem(a), 128);
}

/// Leaving and re-entering the Montgomery domain is the identity on
/// canonical residues.
pub proof fn lemma_to_mont_canon(x: Seq<int>)
    requires
        canonical(x),
    ensures
        to_mont_seq(canon_seq(x)) == x,
{
    let q = Q as int;
    let ri = r_inv(q);
    let r = mont_r();
    assert forall|c: int| 0 <= c < N implies #[trigger] to_mont_seq(canon_seq(x))[c] == x[c] by {
        let v = (x[c] * ri) % q;
        assert(canon_seq(x)[c] as int == v);
        lemma_mul_mod_noop_left(x[c] * ri, r, q);
        assert(x[c] * ri * r == x[c] * (ri * r)) by (nonlinear_arith);
        assert((ri * r) % q == 1);
        lemma_mul_mod_noop_right(x[c], ri * r, q);
        lemma_small_mod(x[c] as nat, q as nat);
    }
    assert(to_mont_seq(canon_seq(x)) =~= x);
}

/// A row written as `ByteEncode_12` of the canonical values behind the
/// Montgomery-form polynomial `x` decodes back to `x`.
pub proof fn lemma_key_row(s: Seq<u8>, off: int, x: Seq<int>)
    requires
        canonical(x),
        row_value(s, off, 12) == packed_value(canon_seq(x), 12, N as nat),
    ensures
        to_mont_seq(row_digits(s, off, 12)) == x,
{
    lemma2_to64();
    assert(fits(canon_seq(x), 12)) by {
        assert forall|i: int| 0 <= i < canon_seq(x).len() implies (#[trigger] canon_seq(x)[i] as nat)
            < pow2(12) by {}
    }
    lemma_row_digits_roundtrip(s, off, 12, canon_seq(x));
    lemma_to_mont_canon(x);
}

/// A row written as `ByteEncode_d(Compress_d(x))` decodes to
/// `Compress_d(x)`.
pub proof fn lemma_compressed_row(s: Seq<u8>, off: int, x: Seq<int>, d: nat)
    requires
        1 <= d <= 11,
        row_value(s, off, d) == packed_value(compress_seq(x, d), d, N as nat),
    ensures
        row_digits(s, off, d) == compress_seq(x, d),
{
    lemma2_to64();
    lemma_pow2_strictly_increases(d, 12);
    assert(fits(compress_seq(x, d), d)) by {
        assert forall|i: int| 0 <= i < compress_seq(x, d).len() implies (#[trigger] compress_seq(
            x,
            d,
        )[i] as nat) < pow2(d) by {
            lemma_mod_bound(((x[i] * pow2(d + 1) + Q) / (2 * Q as int)), pow2(d) as int);
        }
    }
    lemma_row_digits_roundtrip(s, off, d, compress_seq(x, d));
}

/// The blinding factor derived from `input` is inverted by the factor
/// that decryption multiplies back: `r * (r^(q-2) mod q) == 1 (mod q)`.
pub open spec fn blind_inverts(input: Seq<u8>) -> bool {
    let r = blind_factor(input, Q as int);
    (r * (pow(r, (Q - 2) as nat) % (Q as int))) % (Q as int) == 1
}

/// Every blinding factor is inverted by the factor that decryption
/// multiplies back (Fermat's little theorem).
pub proof fn lemma_blind_inverts(input: Seq<u8>)
    ensures
        blind_inverts(input),
{
    let q = Q as int;
    let x = crate::blinding::le32(
        crate::hashing::shake256_byte(input, 0) as int,
        crate::hashing::shake256_byte(input, 1) as int,
        crate::hashing::shake256_byte(input, 2) as int,
        crate::hashing::shake256_byte(input, 3) as int,
    );
    assert(0 <= x < 0x1_0000_0000);
    let r = blind_factor(input, q);
    assert(r == (x * (q - 1)) / 0x1_0000_0000 + 1);
    assert(0 <= x * (q - 1) <= 0xFFFF_FFFF * (q - 1)) by (nonlinear_arith)
        requires
            0 <= x < 0x1_0000_0000,
            q == 3329,
    ;
    lemma_div_is_ordered(x * (q - 1), 0xFFFF_FFFF * (q - 1), 0x1_0000_0000);
    lemma_div_pos_is_pos(x * (q - 1), 0x1_0000_0000);
    assert((0xFFFF_FFFFint * 3328) / 0x1_0000_0000 == 3327);
    assert(1 <= r < q);
    crate::mlkem::fermat::lemma_fermat(r);
    assert(pow(r, (q - 1) as nat) == r * pow(r, (q - 2) as nat)) by {
        reveal_with_fuel(pow, 2);
        assert((q - 1) as nat - 1 == (q - 2) as nat);
    }
    lemma_mul_mod_noop_right(r, pow(r, (q - 2) as nat), q);
}

/// Scaling by a Montgomery-form factor multiplies by the factor's value.
pub proof fn lemma_scale_seq_value(x: Seq<int>, f: int)
    ensures
        forall|c: int|
            0 <= c < N ==> #[trigger] scale_seq(x, (f * mont_r()) % (Q as int))[c] == (f * x[c]) % (
            Q as int),
{
    let q = Q as int;
    let ri = r_inv(q);
    let r = mont_r();
    assert forall|c: int| 0 <= c < N implies #[trigger] scale_seq(x, (f * r) % q)[c] == (f * x[c]) % q by {
        lemma_mul_mod_noop_right(x[c], f * r, q);
        lemma_mul_mod_noop_left(x[c] * (f * r), ri, q);
        lemma_mul_mod_noop_left(x[c] * ((f * r) % q), ri, q);
        assert(x[c] * (f * r) * ri == (f * x[c]) * (r * ri)) by (nonlinear_arith);
        assert((r * ri) % q == 1);
        lemma_mul_mod_noop_right(f * x[c], r * ri, q);
    }
}

/// The 32-byte message `m` is recovered from `w = Decompress_1(m) + n`
/// by `ByteEncode_1(Compress_1(w))` when every noise coefficient `n_c`
/// lies in `[-832, 832 - m_c]` (centered), `m_c` being bit `c` of `m`.
pub proof fn lemma_message_decode(m: Seq<u8>, w: Seq<int>, n: Seq<int>)
    requires
        m.len() == 32,
        canonical(n),
        w.len() == N,
        forall|c: int| 0 <= c < N ==> #[trigger] w[c] == (message_poly(m)[c] + n[c]) % (Q as int),
        forall|c: int|
            0 <= c < N ==> -832 <= #[trigger] crate::params::centered(n[c], Q as int) <= 832
                - row_digits(m, 0, 1)[c],
    ensures
        Seq::new(32, |k: int| digit(packed_value(compress_seq(w, 1), 1, N as nat), 8, k as nat) as u8)
            == m,
{
    let q = Q as int;
    let bits = row_digits(m, 0, 1);
    lemma2_to64();
    assert forall|c: int| 0 <= c < N implies #[trigger] compress_seq(w, 1)[c] == bits[c] by {
        let b = bits[c] as int;
        lemma_mod_bound((row_value(m, 0, 1) / pow2(c as nat)) as int, 2);
        assert(0 <= b < 2);
        assert(message_poly(m)[c] == decompress_spec(b, 1));
        assert(decompress_spec(b, 1) == (b * q + 1) / 2);
        let mu = (b * q + 1) / 2;
        assert(mu == 1665 * b);
        let nc = n[c];
        let wc = (mu + nc) % q;
        assert(w[c] == wc);
        assert(compress_spec(wc, 1) == ((wc * 4 + q) / (2 * q)) % 2);
        let e = crate::params::centered(nc, q);
        if nc > q / 2 {
            assert(e == nc - q);
        } else {
            assert(e == nc);
        }
        if b == 0 {
            if nc <= 832 {
                lemma_small_mod(nc as nat, q as nat);
            } else {
                lemma_small_mod(nc as nat, q as nat);
            }
            assert(wc == nc);
            assert(wc <= 832 || wc >= 2497);
            if wc <= 832 {
                assert((wc * 4 + q) / (2 * q) == 0);
            } else {
                assert((wc * 4 + q) / (2 * q) == 2);
            }
        } else {
            if 1665 + nc < q {
                lemma_small_mod((1665 + nc) as nat, q as nat);
                assert(wc == 1665 + nc);
            } else {
                lemma_mod_sub_multiples_vanish(1665 + nc, q);
                lemma_small_mod((1665 + nc - q) as nat, q as nat);
                assert(wc == 1665 + nc - q);
            }
            assert(833 <= wc <= 2496);
            assert((wc * 4 + q) / (2 * q) == 1);
        }
    }
    assert(compress_seq(w, 1) =~= bits);
    let x = row_value(m, 0, 1);
    lemma_bytes_value_bound(m.subrange(0, 32), 32);
    assert(pow2(8 * 32) == pow2(1 * (N as nat)));
    lemma_repack_digits(x, 1, N as nat, N as nat);
    assert(bits =~= Seq::new(N as nat, |j: int| digit(x, 1, j as nat) as u32));
    lemma_small_mod(x, pow2(1 * (N as nat)));
    assert(packed_value(compress_seq(w, 1), 1, N as nat) == bytes_value(m.subrange(0, 32), 32));
    assert forall|k: int| 0 <= k < 32 implies #[trigger] (digit(
        packed_value(compress_seq(w, 1), 1, N as nat),
        8,
        k as nat,
    ) as u8) == m[k] by {
        lemma_byte_of_bytes_value(m.subrange(0, 32), 32, k as nat);
    }
    assert(Seq::new(32, |k: int| digit(packed_value(compress_seq(w, 1), 1, N as nat), 8, k as nat) as u8)
        =~= m);
}


/// An inner product of NTT-domain vectors is canonical.
pub proof fn lemma_ntt_dot_canonical(a: Seq<Seq<int>>, b: Seq<Seq<int>>, n: nat)
    ensures
        canonical(ntt_dot(a, b, n)),
{
    lemma_ntt_dot_len(a, b, n);
    if n > 0 {
        assert(ntt_dot(a, b, n) == add_q(ntt_dot(a, b, (n - 1) as nat), crate::mlkem::ntt::mul_ntt_spec(
            a[n - 1],
            b[n - 1],
        )));
    }
}

/// `A_hat` of the key pair generated from `d`: row `j` holds the entries
/// `A_hat[j][i]`.
pub open spec fn kg_mat(d: Seq<u8>, k: nat) -> Seq<Seq<Seq<int>>> {
    Seq::new(k, |j: int| a_hat_row(keygen_rho(d, k), j, k))
}

/// `A_hat s_hat` of the key pair generated from `d`.
pub open spec fn kg_as(d: Seq<u8>, k: nat, s_hat: Seq<Seq<int>>) -> Seq<Seq<int>> {
    Seq::new(k, |j: int| ntt_dot(kg_mat(d, k)[j], s_hat, k))
}

/// The rounding error of `Decompress_d(Compress_d(x))`, modulo `q`.
pub open spec fn round_err(x: Seq<int>, d: nat) -> Seq<int> {
    sub_q(as_ints(decompress_seq(compress_seq(x, d), d)), x)
}

/// `e1_i` plus the rounding error of `u_i`, as canonical coefficients.
pub open spec fn u_err<const K: usize>(params: Params<K>, ek: Seq<u8>, r: Seq<u8>, i: int) -> Seq<u32> {
    let e1 = prf_cbd(r, (K + i) as u8, params.eta2);
    let cu = round_err(encrypt_u_spec(params, ek, r, i), params.du as nat);
    Seq::new(N as nat, |c: int| ((e1[c] + cu[c]) % (Q as int)) as u32)
}

/// The decryption noise of the K-PKE ciphertext of `m` with coins `r`
/// under the key pair generated from `d`:
/// `NTT^-1(e_hat^T y_hat) + e2 + c_v - NTT^-1(s_hat^T NTT(e1 + c_u))`,
/// where `c_u`, `c_v` are the rounding errors of the compressed `u` and
/// `v`.
pub open spec fn pke_noise<const K: usize>(
    params: Params<K>,
    d: Seq<u8>,
    ek: Seq<u8>,
    m: Seq<u8>,
    r: Seq<u8>,
) -> Seq<int> {
    let k = K as nat;
    let s_hat = keygen_s_hat(d, k, params.eta1);
    let e_hat = ntt_noise(keygen_sigma(d, k), k as int, k, params.eta1);
    let y_hat = ntt_noise(r, 0, k, params.eta1);
    let e2 = as_ints(prf_cbd(r, (2 * K) as u8, params.eta2));
    let cv = round_err(encrypt_v_spec(params, ek, m, r), params.dv as nat);
    let f_hat = Seq::new(k, |i: int| kem_ntt_spec(u_err(params, ek, r, i)));
    sub_q(
        add_q(add_q(kem_inv_ntt_spec(ntt_dot(e_hat, y_hat, k)), e2), cv),
        kem_inv_ntt_spec(ntt_dot(s_hat, f_hat, k)),
    )
}

/// `t_hat` as stored in `ek` is `A_hat s_hat + e_hat`, row by row.
proof fn lemma_ek_t_hat<const K: usize>(params: Params<K>, d: Seq<u8>, ek: Seq<u8>)
    requires
        kem_params_ok(params),
        keygen_ek(d, K as nat, params.eta1, ek),
    ensures
        forall|j: int|
            0 <= j < K ==> #[trigger] ek_t_hat(ek, K as nat)[j] == add_q(
                kg_as(d, K as nat, keygen_s_hat(d, K as nat, params.eta1))[j],
                ntt_noise(keygen_sigma(d, K as nat), K as int, K as nat, params.eta1)[j],
            ),
{
    let k = K as nat;
    let s_hat = keygen_s_hat(d, k, params.eta1);
    assert forall|j: int| 0 <= j < K implies #[trigger] ek_t_hat(ek, k)[j] == add_q(
        kg_as(d, k, s_hat)[j],
        ntt_noise(keygen_sigma(d, k), k as int, k, params.eta1)[j],
    ) by {
        let t = keygen_t_hat_row(d, k, params.eta1, j);
        lemma_acc_is_ntt_dot(a_hat_row(keygen_rho(d, k), j, k), s_hat, k);
        assert(row_value(ek, 384 * j, 12) == packed_value(canon_seq(t), 12, N as nat));
        lemma_key_row(ek, 384 * j, t);
    }
}

/// `v` of the ciphertext, split along `t_hat = A_hat s_hat + e_hat`.
proof fn lemma_v_form<const K: usize>(params: Params<K>, d: Seq<u8>, ek: Seq<u8>, m: Seq<u8>, r: Seq<u8>)
    requires
        kem_params_ok(params),
        keygen_ek(d, K as nat, params.eta1, ek),
    ensures
        ({
            let k = K as nat;
            let s_hat = keygen_s_hat(d, k, params.eta1);
            let e_hat = ntt_noise(keygen_sigma(d, k), k as int, k, params.eta1);
            let y_hat = ntt_noise(r, 0, k, params.eta1);
            let p = ntt_dot(kg_as(d, k, s_hat), y_hat, k);
            encrypt_v_spec(params, ek, m, r) == add_q(
                add_q(
                    add_q(kem_inv_ntt_spec(p), kem_inv_ntt_spec(ntt_dot(e_hat, y_hat, k))),
                    as_ints(prf_cbd(r, (2 * K) as u8, params.eta2)),
                ),
                message_poly(m),
            )
        }),
{
    let k = K as nat;
    let s_hat = keygen_s_hat(d, k, params.eta1);
    let e_hat = ntt_noise(keygen_sigma(d, k), k as int, k, params.eta1);
    let y_hat = ntt_noise(r, 0, k, params.eta1);
    let asv = kg_as(d, k, s_hat);
    let t_hat = ek_t_hat(ek, k);
    lemma_ek_t_hat(params, d, ek);
    // t_hat^T y_hat = (A s)^T y_hat + e_hat^T y_hat
    lemma_ntt_dot_comm(t_hat, y_hat, k);
    lemma_ntt_dot_add_right(y_hat, asv, e_hat, t_hat, k);
    lemma_ntt_dot_comm(y_hat, asv, k);
    lemma_ntt_dot_comm(y_hat, e_hat, k);
    let p = ntt_dot(asv, y_hat, k);
    let ey = ntt_dot(e_hat, y_hat, k);
    lemma_ntt_dot_len(asv, y_hat, k);
    lemma_ntt_dot_len(e_hat, y_hat, k);
    lemma_kem_inv_ntt_add(p, ey);
}

/// Row `i` of `A_hat^T` read from `ek` is column `i` of `A_hat`.
proof fn lemma_t_row_is_col<const K: usize>(params: Params<K>, d: Seq<u8>, ek: Seq<u8>, i: int)
    requires
        kem_params_ok(params),
        keygen_ek(d, K as nat, params.eta1, ek),
        0 <= i < K,
    ensures
        a_hat_t_row(ek.subrange(384 * K as int, 384 * K + 32int), i, K as nat) == mat_col(
            kg_mat(d, K as nat),
            i,
            K as nat,
        ),
{
    let k = K as nat;
    let rho = keygen_rho(d, k);
    assert(ek.subrange(384 * K as int, 384 * K + 32int) == rho);
    assert(a_hat_t_row(rho, i, k) =~= mat_col(kg_mat(d, k), i, k));
}

/// `u' == (inv + e1) + (e1' - e1)`-style regrouping modulo `q`: if
/// `u == inv + e1` and `cu == u' - u` (all mod `q`), then
/// `u' == inv + ((e1 + cu) mod q)` mod `q`.
proof fn lemma_u_congruence(up: int, u: int, inv: int, e1: int, cu: int)
    requires
        u == (inv + e1) % (Q as int),
        cu == (up - u) % (Q as int),
    ensures
        up % (Q as int) == (inv + ((e1 + cu) % (Q as int)) as u32 as int) % (Q as int),
{
    let q = Q as int;
    lemma_mod_bound(e1 + cu, q);
    let b = (e1 + cu) % q;
    assert(b as u32 as int == b);
    lemma_add_mod_noop(inv, e1 + cu, q);
    lemma_mod_twice(e1 + cu, q);
    lemma_add_mod_noop(inv, b, q);
    // inv + e1 + cu == u + cu + q * t for some t, and u + cu == up (mod q)
    lemma_add_mod_noop(inv + e1, cu, q);
    lemma_mod_twice(inv + e1, q);
    lemma_add_mod_noop(u, cu, q);
    lemma_add_mod_noop(u, up - u, q);
    lemma_mod_twice(up - u, q);
    assert((inv + e1 + cu) % q == (u + cu) % q);
    assert((u + cu) % q == (u + (up - u)) % q);
}

/// The NTT of the decompressed `u_i` of the ciphertext:
/// `(A_hat^T y_hat)_i + NTT(e1_i + c_u,i)`.
#[verifier::spinoff_prover]
proof fn lemma_u_hat_form<const K: usize>(
    params: Params<K>,
    d: Seq<u8>,
    ek: Seq<u8>,
    m: Seq<u8>,
    r: Seq<u8>,
    ct: Seq<u8>,
    i: int,
)
    requires
        kem_params_ok(params),
        keygen_ek(d, K as nat, params.eta1, ek),
        kpke_ct(params, ek, m, r, ct),
        0 <= i < K,
    ensures
        ct_u_hat(ct, i, params.du as nat) == add_q(
            ntt_dot(mat_col(kg_mat(d, K as nat), i, K as nat), ntt_noise(r, 0, K as nat, params.eta1), K as nat),
            kem_ntt_spec(u_err(params, ek, r, i)),
        ),
{
    let k = K as nat;
    let q = Q as int;
    let du = params.du as nat;
    let y_hat = ntt_noise(r, 0, k, params.eta1);
    let col = mat_col(kg_mat(d, k), i, k);
    let x = ntt_dot(col, y_hat, k);
    let u = encrypt_u_spec(params, ek, r, i);
    lemma_t_row_is_col(params, d, ek, i);
    lemma_acc_is_ntt_dot(col, y_hat, k);
    lemma_ntt_dot_canonical(col, y_hat, k);
    assert(u == add_q(kem_inv_ntt_spec(x), as_ints(prf_cbd(r, (K + i) as u8, params.eta2))));
    lemma_compressed_row(ct, 32 * du * i, u, du);
    let up = decompress_seq(compress_seq(u, du), du);
    assert(ct_u_hat(ct, i, du) == kem_ntt_spec(up));
    lemma_kem_inv_ntt_roundtrip(x);
    let inv = kem_inv_ntt_spec(x);
    let a = Seq::new(256, |c: int| inv[c] as u32);
    let e1 = prf_cbd(r, (K + i) as u8, params.eta2);
    let b = u_err(params, ek, r, i);
    assert forall|c: int| 0 <= c < 256 implies #[trigger] (up[c] as int) % q == (a[c] + b[c]) % q by {
        let cu = round_err(u, du);
        lemma_u_congruence(up[c] as int, u[c], inv[c], e1[c] as int, cu[c]);
    }
    lemma_kem_ntt_add(a, b, up);
}


/// The NTT-domain product that decryption computes, after the blinding
/// cancels: `s_hat^T u_hat == (A_hat s_hat)^T y_hat + s_hat^T NTT(e1 + c_u)`.
#[verifier::spinoff_prover]
proof fn lemma_w_ntt_form<const K: usize>(
    params: Params<K>,
    d: Seq<u8>,
    ek: Seq<u8>,
    dk: Seq<u8>,
    m: Seq<u8>,
    r: Seq<u8>,
    ct: Seq<u8>,
)
    requires
        kem_params_ok(params),
        keygen_ek(d, K as nat, params.eta1, ek),
        keygen_dk(d, K as nat, params.eta1, dk),
        kpke_ct(params, ek, m, r, ct),
    ensures
        ({
            let k = K as nat;
            let blind = decrypt_blind_input(dk, ct);
            let rm = blind_mont(blind, Q as int);
            let ri = blind_inv_mont(blind, Q as int);
            let s_scaled = Seq::new(k, |i: int| scale_seq(to_mont_seq(row_digits(dk, 384 * i, 12)), rm));
            let u_hat = Seq::new(k, |i: int| ct_u_hat(ct, i, params.du as nat));
            let s_hat = keygen_s_hat(d, k, params.eta1);
            let y_hat = ntt_noise(r, 0, k, params.eta1);
            let f_hat = Seq::new(k, |i: int| kem_ntt_spec(u_err(params, ek, r, i)));
            scale_seq(ntt_dot(s_scaled, u_hat, k), ri) == add_q(
                ntt_dot(kg_as(d, k, s_hat), y_hat, k),
                ntt_dot(s_hat, f_hat, k),
            )
        }),
{
    let k = K as nat;
    let q = Q as int;
    let blind = decrypt_blind_input(dk, ct);
    lemma_blind_inverts(blind);
    let rb = blind_factor(blind, q);
    let rinv = pow(rb, (q - 2) as nat) % q;
    let rm = blind_mont(blind, q);
    let ri = blind_inv_mont(blind, q);
    let s_scaled = Seq::new(k, |i: int| scale_seq(to_mont_seq(row_digits(dk, 384 * i, 12)), rm));
    let u_hat = Seq::new(k, |i: int| ct_u_hat(ct, i, params.du as nat));
    let s_hat = keygen_s_hat(d, k, params.eta1);
    let y_hat = ntt_noise(r, 0, k, params.eta1);
    let f_hat = Seq::new(k, |i: int| kem_ntt_spec(u_err(params, ek, r, i)));
    let xv = Seq::new(k, |i: int| ntt_dot(mat_col(kg_mat(d, k), i, k), y_hat, k));
    // s_scaled == rb * s_hat
    assert forall|i: int, j: int| 0 <= i < k && 0 <= j < N implies #[trigger] s_scaled[i][j] % q == (rb
        * s_hat[i][j]) % q by {
        lemma_kem_ntt_canonical(prf_cbd(keygen_sigma(d, k), i as u8, params.eta1));
        assert(row_value(dk, 384 * i, 12) == packed_value(canon_seq(s_hat[i]), 12, N as nat));
        lemma_key_row(dk, 384 * i, s_hat[i]);
        lemma_scale_seq_value(s_hat[i], rb);
        lemma_mod_twice(rb * s_hat[i][j], q);
    }
    let dd = ntt_dot(s_hat, u_hat, k);
    lemma_ntt_dot_scale_left(s_hat, s_scaled, u_hat, k, rb);
    lemma_ntt_dot_canonical(s_hat, u_hat, k);
    // the two blinding factors cancel
    let z = crate::ntt_inverse::scale_mod(rb, dd, q);
    lemma_scale_seq_value(z, rinv);
    assert forall|c: int| 0 <= c < N implies #[trigger] scale_seq(z, ri)[c] == dd[c] by {
        lemma_mul_mod_noop_right(rinv, rb * dd[c], q);
        assert(rinv * (rb * dd[c]) == (rb * rinv) * dd[c]) by (nonlinear_arith);
        lemma_mul_mod_noop_left(rb * rinv, dd[c], q);
        lemma_small_mod(dd[c] as nat, q as nat);
    }
    assert(scale_seq(z, ri) =~= dd);
    // u_hat == x + f_hat
    assert forall|i: int, j: int| 0 <= i < k && 0 <= j < N implies #[trigger] u_hat[i][j] % q == (xv[i][j]
        + f_hat[i][j]) % q by {
        lemma_u_hat_form(params, d, ek, m, r, ct, i);
        lemma_mod_twice(xv[i][j] + f_hat[i][j], q);
    }
    lemma_ntt_dot_add_right(s_hat, xv, f_hat, u_hat, k);
    lemma_transpose_dot(kg_mat(d, k), s_hat, y_hat, k);
}

/// The congruence behind `w = v' - NTT^-1(...) == mu + noise`.
proof fn lemma_w_congruence(
    vp: int,
    v: int,
    ip: int,
    ie: int,
    e2: int,
    mu: int,
    is: int,
    cv: int,
    noise: int,
    isum: int,
)
    requires
        v == ((((ip + ie) % (Q as int) + e2) % (Q as int)) + mu) % (Q as int),
        cv == (vp - v) % (Q as int),
        noise == ((((ie + e2) % (Q as int)) + cv) % (Q as int) - is) % (Q as int),
        isum == (ip + is) % (Q as int),
    ensures
        (vp - isum) % (Q as int) == (mu + noise) % (Q as int),
{
    let q = Q as int;
    lemma_fundamental_div_mod(ip + ie, q);
    lemma_fundamental_div_mod((ip + ie) % q + e2, q);
    lemma_fundamental_div_mod(((ip + ie) % q + e2) % q + mu, q);
    lemma_fundamental_div_mod(vp - v, q);
    lemma_fundamental_div_mod(ie + e2, q);
    lemma_fundamental_div_mod((ie + e2) % q + cv, q);
    lemma_fundamental_div_mod(((ie + e2) % q + cv) % q - is, q);
    lemma_fundamental_div_mod(ip + is, q);
    let t1 = (ip + ie) / q;
    let t2 = ((ip + ie) % q + e2) / q;
    let t3 = (((ip + ie) % q + e2) % q + mu) / q;
    let t4 = (vp - v) / q;
    let t5 = (ie + e2) / q;
    let t6 = ((ie + e2) % q + cv) / q;
    let t7 = (((ie + e2) % q + cv) % q - is) / q;
    let t8 = (ip + is) / q;
    let tt = t8 - t1 - t2 - t3 + t4 + t5 + t6 + t7;
    assert(vp - isum == (mu + noise) + q * tt);
    lemma_mod_multiples_vanish(tt, mu + noise, q);
}

/// K-PKE decryption of a ciphertext of `m` computes `mu + noise`:
/// `Decrypt(dk, Encrypt(ek, m, r)) == Decompress_1(m) + pke_noise`
/// coefficient by coefficient (the blinding of the decryption cancels).
pub proof fn lemma_kpke_decrypt_w<const K: usize>(
    params: Params<K>,
    d: Seq<u8>,
    ek: Seq<u8>,
    dk: Seq<u8>,
    m: Seq<u8>,
    r: Seq<u8>,
    ct: Seq<u8>,
)
    requires
        kem_params_ok(params),
        keygen_ek(d, K as nat, params.eta1, ek),
        keygen_dk(d, K as nat, params.eta1, dk),
        kpke_ct(params, ek, m, r, ct),
    ensures
        decrypt_w(params, dk, ct) == add_q(message_poly(m), pke_noise(params, d, ek, m, r)),
{
    let k = K as nat;
    let q = Q as int;
    let du = params.du as nat;
    let dv = params.dv as nat;
    let s_hat = keygen_s_hat(d, k, params.eta1);
    let e_hat = ntt_noise(keygen_sigma(d, k), k as int, k, params.eta1);
    let y_hat = ntt_noise(r, 0, k, params.eta1);
    let f_hat = Seq::new(k, |i: int| kem_ntt_spec(u_err(params, ek, r, i)));
    let p = ntt_dot(kg_as(d, k, s_hat), y_hat, k);
    let ey = ntt_dot(e_hat, y_hat, k);
    let sf = ntt_dot(s_hat, f_hat, k);
    let v = encrypt_v_spec(params, ek, m, r);
    let e2 = as_ints(prf_cbd(r, (2 * K) as u8, params.eta2));
    lemma_w_ntt_form(params, d, ek, dk, m, r, ct);
    lemma_v_form(params, d, ek, m, r);
    lemma_ntt_dot_len(kg_as(d, k, s_hat), y_hat, k);
    lemma_ntt_dot_len(s_hat, f_hat, k);
    lemma_kem_inv_ntt_add(p, sf);
    assert(32 * du * K == 32 * params.du * K);
    lemma_compressed_row(ct, 32 * du * K, v, dv);
    let vp = as_ints(decompress_seq(compress_seq(v, dv), dv));
    let w = decrypt_w(params, dk, ct);
    let noise = pke_noise(params, d, ek, m, r);
    let mu = message_poly(m);
    let ip = kem_inv_ntt_spec(p);
    let ie = kem_inv_ntt_spec(ey);
    let is = kem_inv_ntt_spec(sf);
    let cv = round_err(v, dv);
    assert(w == sub_q(vp, kem_inv_ntt_spec(add_q(p, sf))));
    assert forall|c: int| 0 <= c < N implies #[trigger] w[c] == add_q(mu, noise)[c] by {
        lemma_w_congruence(vp[c], v[c], ip[c], ie[c], e2[c], mu[c], is[c], cv[c], noise[c], add_q(ip, is)[c]);
    }
    assert(w =~= add_q(mu, noise));
}


/// Every coefficient of the noise `n` lies in `[-832, 832 - m_c]`
/// (centered), `m_c` being bit `c` of the message `m`: exactly the
/// noise under which `Compress_1` recovers each bit.
pub open spec fn noise_small(m: Seq<u8>, n: Seq<int>) -> bool {
    forall|c: int|
        0 <= c < N ==> -832 <= #[trigger] crate::params::centered(n[c], Q as int) <= 832 - row_digits(
            m,
            0,
            1,
        )[c]
}

/// K-PKE decryption recovers the message of a ciphertext produced under
/// the key pair generated from `d`, whenever the decryption noise is
/// small.
pub proof fn lemma_kpke_roundtrip<const K: usize>(
    params: Params<K>,
    d: Seq<u8>,
    ek: Seq<u8>,
    dk: Seq<u8>,
    m: Seq<u8>,
    r: Seq<u8>,
    ct: Seq<u8>,
)
    requires
        kem_params_ok(params),
        keygen_ek(d, K as nat, params.eta1, ek),
        keygen_dk(d, K as nat, params.eta1, dk),
        m.len() == 32,
        kpke_ct(params, ek, m, r, ct),
        noise_small(m, pke_noise(params, d, ek, m, r)),
    ensures
        decrypt_m(params, dk, ct) == m,
{
    lemma_kpke_decrypt_w(params, d, ek, dk, m, r, ct);
    let n = pke_noise(params, d, ek, m, r);
    assert(canonical(n));
    lemma_message_decode(m, decrypt_w(params, dk, ct), n);
}

/// ML-KEM round trip: decapsulating the ciphertext that Encaps_internal
/// produces for `m` under `ek` with the `dk` of the same key pair gives
/// back Encaps_internal's shared key, whenever the decryption noise is
/// small.
pub proof fn lemma_kem_roundtrip<const K: usize>(
    params: Params<K>,
    d: Seq<u8>,
    z: Seq<u8>,
    ek: Seq<u8>,
    dk: Seq<u8>,
    m: Seq<u8>,
    ct: Seq<u8>,
)
    requires
        kem_params_ok(params),
        keygen_ek(d, K as nat, params.eta1, ek),
        kem_dk(params, d, z, ek, dk),
        m.len() == 32,
        kpke_ct(params, ek, m, encaps_g(ek, m).subrange(32, 64), ct),
        noise_small(m, pke_noise(params, d, ek, m, encaps_g(ek, m).subrange(32, 64))),
    ensures
        decaps_ss(params, dk, ct) == encaps_g(ek, m).subrange(0, 32),
{
    let k = K as nat;
    let dk_pke = dk.subrange(0, 384 * K as int);
    assert forall|i: int| 0 <= i < k implies #[trigger] row_value(dk_pke, 384 * i, 12) == packed_value(
        canon_seq(keygen_s_hat(d, k, params.eta1)[i]),
        12,
        N as nat,
    ) by {
        assert(384 * i + 384 <= 384 * K) by (nonlinear_arith)
            requires
                0 <= i < K,
        ;
        lemma_row_value_frame(dk_pke, dk, 384 * i, 12);
    }
    lemma_kpke_roundtrip(params, d, ek, dk_pke, m, encaps_g(ek, m).subrange(32, 64), ct);
    lemma_decaps_recovers_key(params, d, z, ek, dk, m, ct);
}

} // verus!

//! ML-KEM encoding helpers (FIPS 203 §4.2): `Compress_d` /
//! `Decompress_d` (d-bit rounding) and `ByteEncode_d` / `ByteDecode_d`
//! (256 d-bit integers packed little-endian).

use vstd::arithmetic::div_mod::*;
use vstd::arithmetic::power2::*;
use vstd::bits::{lemma_u32_low_bits_mask_is_mod, lemma_u32_shl_is_mul, lemma_u32_shr_is_div};
use vstd::prelude::*;

use crate::bits::{
    bytes_value, digit, fits, lemma_low_bits_mask_is_pow2_minus_one, pack_bits,
    packed_value, unpack_bits,
};
use crate::encoding::{lemma_row_value_frame, pack_bits_at, row_digits, row_value, EncodeError};
use crate::mlkem::params::{N, Q};
use crate::params::centered;
use crate::poly::{poly_canonical, Poly};
use crate::polyvec::PolyVec;

verus! {

/// Compress_d (Alg 4): `round(2^d x / q) mod 2^d`.
pub open spec fn compress_spec(x: int, d: nat) -> int {
    ((x * pow2(d + 1) + Q) / (2 * Q as int)) % (pow2(d) as int)
}

/// Decompress_d (Alg 5): `round(q y / 2^d)`.
pub open spec fn decompress_spec(y: int, d: nat) -> int {
    (y * Q + pow2((d - 1) as nat)) / (pow2(d) as int)
}

/// Compress_d (Alg 4) on a canonical `x`, for `d` in `1..=11`.
pub fn compress_d(x: u32, d: usize) -> (y: u32)
    requires
        x < Q,
        1 <= d <= 11,
    ensures
        y as int == compress_spec(x as int, d as nat),
        (y as nat) < pow2(d as nat),
{
    proof {
        lemma2_to64();
        lemma_pow2_strictly_increases(d as nat, 12);
        vstd::arithmetic::mul::lemma_mul_upper_bound(
            x as int,
            3329,
            pow2(d as nat) as int,
            pow2(12) as int,
        );
        lemma_u32_shl_is_mul(x, d as u32);
        lemma_u32_shl_is_mul(1, d as u32);
        lemma_pow2_unfold((d + 1) as nat);
    }
    let num = (x << (d as u32)) * 2 + Q;
    assert(num == x * pow2((d + 1) as nat) + Q) by (nonlinear_arith)
        requires
            num == (x << (d as u32)) * 2 + Q,
            (x << (d as u32)) == x * pow2(d as nat),
            pow2((d + 1) as nat) == 2 * pow2(d as nat),
    ;
    let y = num / (2 * Q);
    let mask = (1u32 << (d as u32)) - 1;
    proof {
        lemma_low_bits_mask_is_pow2_minus_one(d as nat);
        lemma_u32_low_bits_mask_is_mod(y, d as nat);
        lemma_mod_bound(y as int, pow2(d as nat) as int);
    }
    y & mask
}

/// Decompress undoes Compress up to rounding: for a canonical `x`, the
/// centered residue of `Decompress_d(Compress_d(x)) - x` lies within
/// `ceil(q / 2^(d+1))` of zero.
pub proof fn lemma_compress_error(x: int, d: nat)
    requires
        0 <= x < Q,
        1 <= d <= 11,
    ensures
        ({
            let e = centered(
                (decompress_spec(compress_spec(x, d), d) - x) % (Q as int),
                Q as int,
            );
            let b = (Q + pow2(d + 1) - 1) / (pow2(d + 1) as int);
            -b <= e <= b
        }),
{
    let q = Q as int;
    let p = pow2(d) as int;
    let h = pow2((d - 1) as nat) as int;
    lemma_pow2_unfold(d);
    lemma_pow2_unfold(d + 1);
    lemma2_to64();
    lemma_pow2_strictly_increases(d, 12);
    lemma_pow2_pos((d - 1) as nat);
    assert(p == 2 * h && pow2(d + 1) == 2 * p);
    assert(2 <= p <= 2048);
    let b = (q + 2 * p - 1) / (2 * p);
    let num1 = x * (2 * p) + q;
    let y0 = num1 / (2 * q);
    let r1 = num1 % (2 * q);
    lemma_fundamental_div_mod(num1, 2 * q);
    lemma_mod_bound(num1, 2 * q);
    assert(compress_spec(x, d) == y0 % p);
    assert(0 <= y0 <= p) by (nonlinear_arith)
        requires
            num1 == x * (2 * p) + q,
            num1 == 2 * q * y0 + r1,
            0 <= r1 < 2 * q,
            0 <= x < q,
            q == 3329,
            p >= 2,
    ;
    lemma_fundamental_div_mod(q + 2 * p - 1, 2 * p);
    lemma_mod_bound(q + 2 * p - 1, 2 * p);
    assert(b * (2 * p) <= q + 2 * p - 1 < b * (2 * p) + 2 * p) by (nonlinear_arith)
        requires
            q + 2 * p - 1 == (2 * p) * b + (q + 2 * p - 1) % (2 * p),
            0 <= (q + 2 * p - 1) % (2 * p) < 2 * p,
    ;
    assert(b <= 833) by (nonlinear_arith)
        requires
            b * (2 * p) <= q + 2 * p - 1,
            q == 3329,
            p >= 2,
    ;
    if y0 < p {
        lemma_small_mod(y0 as nat, p as nat);
        let num2 = y0 * q + h;
        let xr = num2 / p;
        let r2 = num2 % p;
        lemma_fundamental_div_mod(num2, p);
        lemma_mod_bound(num2, p);
        assert(decompress_spec(compress_spec(x, d), d) == xr);
        let t = xr - x;
        assert(2 * p * t == q + p - 2 * r2 - r1) by (nonlinear_arith)
            requires
                num1 == x * (2 * p) + q,
                num1 == 2 * q * y0 + r1,
                num2 == y0 * q + h,
                num2 == p * xr + r2,
                p == 2 * h,
                t == xr - x,
        ;
        assert(-b <= t <= b) by (nonlinear_arith)
            requires
                2 * p * t == q + p - 2 * r2 - r1,
                0 <= r1 < 2 * q,
                0 <= r2 < p,
                b * (2 * p) <= q + 2 * p - 1 < b * (2 * p) + 2 * p,
                p >= 2,
        ;
        if t >= 0 {
            lemma_small_mod(t as nat, q as nat);
        } else {
            lemma_mod_add_multiples_vanish(t, q);
            lemma_small_mod((t + q) as nat, q as nat);
        }
    } else {
        assert(y0 == p);
        lemma_mod_self_0(p);
        assert(compress_spec(x, d) == 0);
        lemma_small_mod(h as nat, p as nat);
        assert(decompress_spec(0, d) == h / p);
        assert(h / p == 0) by {
            lemma_basic_div(h, p);
        }
        assert(0 <= q - x <= b) by (nonlinear_arith)
            requires
                x * (2 * p) + q == 2 * q * p + r1,
                0 <= r1 < 2 * q,
                0 <= x < q,
                b * (2 * p) <= q + 2 * p - 1 < b * (2 * p) + 2 * p,
                p >= 2,
        ;
        lemma_mod_add_multiples_vanish(-x, q);
        lemma_small_mod((q - x) as nat, q as nat);
    }
}

/// Decompress_d (Alg 5), for `d` in `1..=11` and `y < 2^d`.
pub fn decompress_d(y: u32, d: usize) -> (x: u32)
    requires
        1 <= d <= 11,
        (y as nat) < pow2(d as nat),
    ensures
        x as int == decompress_spec(y as int, d as nat),
        x < Q,
{
    proof {
        lemma2_to64();
        lemma_pow2_strictly_increases(d as nat, 12);
        lemma_pow2_strictly_increases((d - 1) as nat, d as nat);
        lemma_u32_shl_is_mul(1, (d - 1) as u32);
        lemma_u32_shr_is_div((y * Q + pow2((d - 1) as nat)) as u32, d as u32);
        vstd::arithmetic::mul::lemma_mul_upper_bound(
            y as int,
            pow2(12) as int,
            3329,
            3329,
        );
    }
    let half = 1u32 << ((d - 1) as u32);
    let num = y * Q + half;
    let x = num >> (d as u32);
    proof {
        lemma_pow2_unfold(d as nat);
        let p = pow2(d as nat) as int;
        lemma_pow2_strictly_increases((d - 1) as nat, 11);
        assert(half == pow2((d - 1) as nat));
        assert(half <= 1024);
        assert(num < p * Q) by (nonlinear_arith)
            requires
                y + 1 <= p,
                num == y * Q + half,
                half <= 1024,
                Q == 3329,
        ;
        lemma_div_strictly_bounded(num as int, p, Q as int);
    }
    x
}

proof fn lemma_div_strictly_bounded(x: int, d: int, k: int)
    requires
        0 <= x < d * k,
        d > 0,
    ensures
        x / d < k,
{
    lemma_div_is_ordered(x, d * k - 1, d);
    assert(d * k - 1 == d * (k - 1) + (d - 1)) by (nonlinear_arith);
    lemma_fundamental_div_mod_converse(d * k - 1, d, k - 1, d - 1);
}

/// Apply [`compress_d`] coefficient-wise.
pub fn compress_poly(p: &Poly<u32>, d: usize) -> (out: Poly<u32>)
    requires
        poly_canonical(*p, Q as int),
        1 <= d <= 11,
    ensures
        forall|i: int|
            0 <= i < N ==> #[trigger] out.coeffs[i] as int == compress_spec(
                p.coeffs[i] as int,
                d as nat,
            ),
        fits(out.coeffs@, d as nat),
{
    let mut out = Poly::<u32>::zero();
    for i in 0..N
        invariant
            poly_canonical(*p, Q as int),
            1 <= d <= 11,
            forall|k: int|
                0 <= k < i ==> #[trigger] out.coeffs[k] as int == compress_spec(
                    p.coeffs[k] as int,
                    d as nat,
                ),
            forall|k: int| 0 <= k < i ==> (#[trigger] out.coeffs[k] as nat) < pow2(d as nat),
    {
        out.coeffs[i] = compress_d(p.coeffs[i], d);
    }
    out
}

/// Apply [`decompress_d`] coefficient-wise.
pub fn decompress_poly(p: &Poly<u32>, d: usize) -> (out: Poly<u32>)
    requires
        fits(p.coeffs@, d as nat),
        1 <= d <= 11,
    ensures
        forall|i: int|
            0 <= i < N ==> #[trigger] out.coeffs[i] as int == decompress_spec(
                p.coeffs[i] as int,
                d as nat,
            ),
        poly_canonical(out, Q as int),
{
    let mut out = Poly::<u32>::zero();
    for i in 0..N
        invariant
            fits(p.coeffs@, d as nat),
            1 <= d <= 11,
            forall|k: int|
                0 <= k < i ==> #[trigger] out.coeffs[k] as int == decompress_spec(
                    p.coeffs[k] as int,
                    d as nat,
                ),
            forall|k: int| 0 <= k < i ==> #[trigger] out.coeffs[k] < Q,
    {
        assert((p.coeffs@[i as int] as nat) < pow2(d as nat));
        out.coeffs[i] = decompress_d(p.coeffs[i], d);
    }
    out
}

/// ByteEncode_d (Alg 5): 256 coefficients of `d` bits each into the
/// first `32 d` bytes of `out`, whose remaining bytes are zeroed.
pub fn byte_encode(p: &Poly<u32>, d: usize, out: &mut [u8]) -> (res: Result<(), EncodeError>)
    requires
        1 <= d <= 12,
        fits(p.coeffs@, d as nat),
    ensures
        final(out).len() == old(out).len(),
        res is Ok <==> old(out).len() >= 32 * d,
        res is Ok ==> bytes_value(final(out)@, (32 * d) as nat) == packed_value(
            p.coeffs@,
            d as nat,
            N as nat,
        ),
        res is Ok ==> forall|k: int| 32 * d <= k < final(out).len() ==> #[trigger] final(out)@[k]
            == 0,
        res is Err ==> bytes_value(final(out)@, old(out).len() as nat) == packed_value(
            p.coeffs@,
            d as nat,
            N as nat,
        ) % pow2(8 * old(out).len() as nat),
        res matches Err(e) ==> e == EncodeError::BufferTooSmall,
{
    pack_bits(&p.coeffs, d, out)
}

/// ByteDecode_d (Alg 6): inverse of [`byte_encode`].
pub fn byte_decode(bytes: &[u8], d: usize) -> (res: Result<Poly<u32>, EncodeError>)
    requires
        1 <= d <= 12,
    ensures
        res is Ok <==> bytes.len() >= 32 * d,
        res matches Ok(p) ==> forall|j: int|
            0 <= j < N ==> #[trigger] p.coeffs[j] as nat == digit(
                bytes_value(bytes@, (32 * d) as nat),
                d as nat,
                j as nat,
            ),
        res matches Ok(p) ==> fits(p.coeffs@, d as nat),
        res matches Err(e) ==> e == EncodeError::BufferTooSmall,
{
    match unpack_bits(bytes, d) {
        Ok(v) => Ok(Poly { coeffs: v }),
        Err(e) => Err(e),
    }
}

/// ByteDecode_d undoes ByteEncode_d: bytes holding the packing of `d`-bit
/// values `v` (as [`byte_encode`] writes them) decode to `v`.
pub proof fn lemma_byte_encode_decode(bytes: Seq<u8>, v: Seq<u32>, d: nat)
    requires
        v.len() == N,
        fits(v, d),
        bytes_value(bytes, 32 * d) == packed_value(v, d, N as nat),
    ensures
        forall|j: int| 0 <= j < N ==> #[trigger] digit(bytes_value(bytes, 32 * d), d, j as nat) == v[j],
{
    assert forall|j: int| 0 <= j < N implies #[trigger] digit(bytes_value(bytes, 32 * d), d, j as nat) == v[j] by {
        crate::bits::lemma_digit_of_packed(v, d, N as nat, j as nat);
    }
}

/// ByteEncode for a vector: row `i` goes to bytes `[32 d i, 32 d (i+1))`.
pub fn byte_encode_vec<const LEN: usize>(v: &PolyVec<u32, LEN>, d: usize, out: &mut [u8]) -> (res:
    Result<(), EncodeError>)
    requires
        1 <= d <= 12,
        LEN <= 8,
        forall|i: int| 0 <= i < LEN ==> fits(#[trigger] v.v[i].coeffs@, d as nat),
    ensures
        final(out).len() == old(out).len(),
        res is Ok <==> 32 * d * LEN <= old(out).len(),
        res is Ok ==> forall|i: int|
            0 <= i < LEN ==> #[trigger] row_value(final(out)@, 32 * d * i, d as nat)
                == packed_value(v.v[i].coeffs@, d as nat, N as nat),
        res is Ok ==> forall|k: int|
            32 * d * LEN <= k < final(out).len() ==> #[trigger] final(out)@[k] == old(out)@[k],
        res is Err ==> forall|i: int|
            0 <= i < (old(out).len() as int) / (32 * d as int) ==> #[trigger] row_value(
                final(out)@,
                32 * d * i,
                d as nat,
            ) == packed_value(v.v[i].coeffs@, d as nat, N as nat),
        res is Err ==> forall|k: int|
            32 * d * ((old(out).len() as int) / (32 * d as int)) <= k < final(out).len()
                ==> #[trigger] final(out)@[k] == old(out)@[k],
        res matches Err(e) ==> e == EncodeError::BufferTooSmall,
{
    let ghost c = d as nat;
    let chunk = 32 * d;
    proof {
        assert(32 * d * LEN <= 32 * 12 * 8) by (nonlinear_arith)
            requires
                d <= 12,
                LEN <= 8,
        ;
        assert(32 * c * 0 == 0);
    }
    let mut off: usize = 0;
    for i in 0..LEN
        invariant
            1 <= d <= 12,
            LEN <= 8,
            c == d as nat,
            chunk == 32 * d,
            32 * d * LEN <= 32 * 12 * 8,
            off == 32 * c * i,
            forall|ii: int| 0 <= ii < LEN ==> fits(#[trigger] v.v[ii].coeffs@, c),
            out.len() == old(out).len(),
            i == 0 || off <= out.len(),
            forall|ii: int|
                0 <= ii < i ==> #[trigger] row_value(out@, 32 * c * ii, c) == packed_value(
                    v.v[ii].coeffs@,
                    c,
                    N as nat,
                ),
            forall|k: int| 32 * c * i <= k < out.len() ==> #[trigger] out@[k] == old(out)@[k],
    {
        proof {
            assert(32 * c * i + 32 * c == 32 * c * (i + 1)) by (nonlinear_arith);
            assert(32 * c * (i + 1) <= 32 * c * LEN) by (nonlinear_arith)
                requires
                    i < LEN,
            ;
        }
        let ghost before = out@;
        let r = pack_bits_at(&v.v[i].coeffs, d, out, off);
        if r.is_err() {
            proof {
                // The rows that fit were written; `i` is how many fit.
                let n = old(out).len() as int;
                let w = (32 * c) as int;
                assert(w * i <= n < w * (i + 1));
                assert(n == i * w + (n - w * i)) by (nonlinear_arith)
                    requires
                        w * i <= n,
                ;
                assert(w * (i + 1) == w * i + w) by (nonlinear_arith);
                lemma_fundamental_div_mod_converse(n, w, i as int, n - w * i);
                assert(out@ == before);
            }
            return Err(EncodeError::BufferTooSmall);
        }
        proof {
            assert forall|ii: int| 0 <= ii < i + 1 implies #[trigger] row_value(
                out@,
                32 * c * ii,
                c,
            ) == packed_value(v.v[ii].coeffs@, c, N as nat) by {
                if ii < i {
                    assert(32 * c * ii + 32 * c <= 32 * c * i) by (nonlinear_arith)
                        requires
                            ii < i,
                    ;
                    lemma_row_value_frame(before, out@, 32 * c * ii, c);
                } else {
                    assert(ii == i);
                    assert(32 * c * ii == off);
                    assert(row_value(out@, off as int, c) == packed_value(
                        v.v[ii].coeffs@,
                        c,
                        N as nat,
                    ));
                }
            }
        }
        off = off + chunk;
    }
    Ok(())
}

/// Every 12-bit coefficient packed in the first `384 k` bytes is below
/// `q`: the FIPS 203 §7.2 encapsulation-key modulus check.
pub open spec fn ek_canonical(t_hat: Seq<u8>, k: int) -> bool {
    forall|i: int, j: int|
        0 <= i < k && 0 <= j < N ==> #[trigger] row_digits(t_hat, 384 * i, 12)[j] < Q
}

/// FIPS 203 §7.2 encapsulation-key modulus check on the `t_hat` part of
/// an encapsulation key: `ByteEncode_12(ByteDecode_12(t)) == t`, i.e.
/// no packed coefficient reaches `q`.
pub fn ek_modulus_check<const K: usize>(t_hat: &[u8]) -> (res: Result<(), EncodeError>)
    requires
        K <= 8,
    ensures
        res == Err::<(), EncodeError>(EncodeError::BufferTooSmall) <==> t_hat.len() < 384 * K,
        res == Err::<(), EncodeError>(EncodeError::NotCanonical) <==> (t_hat.len() >= 384 * K
            && !ek_canonical(t_hat@, K as int)),
        res is Ok <==> (t_hat.len() >= 384 * K && ek_canonical(t_hat@, K as int)),
{
    if t_hat.len() < 384 * K {
        return Err(EncodeError::BufferTooSmall);
    }
    for i in 0..K
        invariant
            K <= 8,
            t_hat.len() >= 384 * K,
            forall|ii: int, j: int|
                0 <= ii < i && 0 <= j < N ==> #[trigger] row_digits(t_hat@, 384 * ii, 12)[j] < Q,
    {
        let start = 384 * i;
        let slice = &t_hat[start..start + 384];
        let row = match byte_decode(slice, 12) {
            Ok(p) => p,
            Err(e) => {
                return Err(e);
            },
        };
        proof {
            assert(bytes_value(slice@, 384) == row_value(t_hat@, 384 * i, 12));
        }
        for j in 0..N
            invariant
                K <= 8,
                i < K,
                t_hat.len() >= 384 * K,
                forall|jj: int|
                    0 <= jj < N ==> #[trigger] row.coeffs[jj] as nat == row_digits(
                        t_hat@,
                        384 * i,
                        12,
                    )[jj],
                forall|jj: int|
                    0 <= jj < j ==> #[trigger] row_digits(t_hat@, 384 * i, 12)[jj] < Q,
        {
            if row.coeffs[j] >= Q {
                proof {
                    assert(row_digits(t_hat@, 384 * i, 12)[j as int] >= Q);
                }
                return Err(EncodeError::NotCanonical);
            }
        }
    }
    Ok(())
}

} // verus!

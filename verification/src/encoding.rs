//! ML-DSA byte / bit encoding (FIPS 204 §7).
//!
//! * Bit packers / unpackers: [`simple_bit_pack`] / [`simple_bit_unpack`]
//!   for unsigned ranges, [`bit_pack`] / [`bit_unpack`] for centered
//!   ranges.
//! * Key codecs: [`pk_encode`], [`sk_encode`] / [`sk_decode`], and
//!   [`decode_sk_secrets`] which decodes the secret rows in place.
//! * Verify-side accessors: [`pk_t1_row`], [`sig_z_row`],
//!   [`sig_hint_slice`], [`h_row_positions`], [`h_weight`],
//!   [`validate_hint_bytes`].
//!
//! Every packed row of `32 * c` bytes is described through
//! [`row_value`], its little-endian value, so that packing and
//! unpacking meet at [`crate::bits::packed_value`] and
//! [`crate::bits::digit`].

use vstd::arithmetic::power2::*;
use vstd::prelude::*;

use crate::bits::{
    bytes_value, digit, fits, lemma_bytes_value_frame, lemma_pack_unpack_roundtrip, pack_bits, packed_value,
    unpack_bits,
};
use crate::params::{
    bitlen_spec, canon, centered, dsa_params_ok, lemma_bitlen_le, lemma_signed_roundtrip,
    sk_bytes_spec, to_signed, Params, D, N, Q,
};
use crate::poly::{poly_canonical, Poly};
use crate::polyvec::PolyVec;
use crate::sampling::bit_unpack_signed;

verus! {

/// Out-of-range slice access while encoding or decoding, or a value
/// outside its valid range surfaced by an input-validation check.
#[derive(Debug, Clone, Copy, PartialEq, Eq)]
pub enum EncodeError {
    BufferTooSmall,
    /// A decoded coefficient was not in canonical range.
    NotCanonical,
}

impl EncodeError {
    /// Human-readable description of the error.
    pub fn message(&self) -> (s: &'static str)
        ensures
            *self is BufferTooSmall ==> s@ == "buffer too small"@,
            *self is NotCanonical ==> s@ == "non-canonical encoding"@,
    {
        match self {
            EncodeError::BufferTooSmall => "buffer too small",
            EncodeError::NotCanonical => "non-canonical encoding",
        }
    }
}

/// Little-endian value of the `32 * c` bytes of `s` that start at `off`.
pub open spec fn row_value(s: Seq<u8>, off: int, c: nat) -> nat {
    bytes_value(s.subrange(off, off + 32 * c), 32 * c)
}

/// The 256 `c`-bit values packed in the row of `s` at `off`
/// (SimpleBitUnpack).
pub open spec fn row_digits(s: Seq<u8>, off: int, c: nat) -> Seq<u32> {
    Seq::new(N as nat, |j: int| digit(row_value(s, off, c), c, j as nat) as u32)
}

/// BitUnpack of the row at `off` for the range `[b - 2^c + 1, b]`: the
/// canonical residue of `b - digit` for each packed value.
pub open spec fn row_signed(s: Seq<u8>, off: int, c: nat, b: int) -> Seq<u32> {
    Seq::new(
        N as nat,
        |j: int| canon(b - digit(row_value(s, off, c), c, j as nat), Q as int) as u32,
    )
}

/// The values BitPack stores for canonical coefficients `v`:
/// `b - centered(v_j)`.
pub open spec fn pack_offsets(v: Seq<u32>, b: int) -> Seq<u32> {
    Seq::new(v.len(), |j: int| (b - centered(v[j] as int, Q as int)) as u32)
}

/// Every coefficient of `v` is canonical and its centered value lies in
/// `[b - 2^c + 1, b]`, the range BitPack with `c` bits covers.
pub open spec fn offsets_fit(v: Seq<u32>, b: int, c: nat) -> bool {
    forall|j: int|
        0 <= j < v.len() ==> #[trigger] v[j] < Q && 0 <= b - centered(v[j] as int, Q as int)
            < pow2(c)
}

/// `ceil(log2(a + 1))`: the number of bits of `a`.
pub fn bitlen(a: u32) -> (n: usize)
    ensures
        n == bitlen_spec(a as nat),
        n <= 32,
{
    let mut x: u32 = a;
    let mut n: usize = 0;
    proof {
        lemma2_to64();
        lemma_bitlen_le(a as nat, 32);
    }
    while x > 0
        invariant
            bitlen_spec(a as nat) == n + bitlen_spec(x as nat),
            bitlen_spec(a as nat) <= 32,
        decreases x,
    {
        n += 1;
        x = x / 2;
    }
    n
}

/// The BitPack offsets of a polynomial, as an array.
fn offsets_of(p: &Poly<u32>, b: u32, c_bits: usize) -> (r: [u32; N])
    requires
        c_bits <= 24,
        offsets_fit(p.coeffs@, b as int, c_bits as nat),
    ensures
        r@ == pack_offsets(p.coeffs@, b as int),
        fits(r@, c_bits as nat),
{
    let mut r = [0u32; N];
    proof {
        if c_bits < 24 {
            lemma_pow2_strictly_increases(c_bits as nat, 24);
        }
        lemma2_to64();
        // The first coefficient bounds `b`.
        assert(p.coeffs@[0] < Q);
        crate::params::lemma_centered_range(p.coeffs@[0] as int, Q as int);
    }
    for j in 0..N
        invariant
            b < 0x200_0000,
            c_bits <= 24,
            pow2(c_bits as nat) <= 0x100_0000,
            offsets_fit(p.coeffs@, b as int, c_bits as nat),
            forall|k: int|
                0 <= k < j ==> #[trigger] r[k] == (b - centered(p.coeffs[k] as int, Q as int)),
    {
        assert(p.coeffs@[j as int] < Q);
        let s = to_signed(p.coeffs[j], Q);
        let zp = (b as i32) - s;
        r[j] = zp as u32;
    }
    proof {
        assert(r@ =~= pack_offsets(p.coeffs@, b as int));
    }
    r
}

/// SimpleBitPack (FIPS 204 Alg 16): 256 values of `c` bits into the
/// first `32 * c` bytes of `out`, whose remaining bytes are zeroed.
pub fn simple_bit_pack(p: &Poly<u32>, c_bits: usize, out: &mut [u8]) -> (res: Result<
    (),
    EncodeError,
>)
    requires
        1 <= c_bits <= 24,
        fits(p.coeffs@, c_bits as nat),
    ensures
        final(out).len() == old(out).len(),
        res is Ok <==> old(out).len() >= 32 * c_bits,
        res is Ok ==> bytes_value(final(out)@, (32 * c_bits) as nat) == packed_value(
            p.coeffs@,
            c_bits as nat,
            N as nat,
        ),
        res is Ok ==> forall|k: int|
            32 * c_bits <= k < final(out).len() ==> #[trigger] final(out)@[k] == 0,
        res is Err ==> bytes_value(final(out)@, old(out).len() as nat) == packed_value(
            p.coeffs@,
            c_bits as nat,
            N as nat,
        ) % pow2(8 * old(out).len() as nat),
        res matches Err(e) ==> e == EncodeError::BufferTooSmall,
{
    pack_bits(&p.coeffs, c_bits, out)
}

/// SimpleBitUnpack (FIPS 204 Alg 18): inverse of [`simple_bit_pack`].
pub fn simple_bit_unpack(bytes: &[u8], c_bits: usize) -> (res: Result<Poly<u32>, EncodeError>)
    requires
        1 <= c_bits <= 24,
    ensures
        res is Ok <==> bytes.len() >= 32 * c_bits,
        res matches Ok(p) ==> forall|j: int|
            0 <= j < N ==> #[trigger] p.coeffs[j] as nat == digit(
                bytes_value(bytes@, (32 * c_bits) as nat),
                c_bits as nat,
                j as nat,
            ),
        res matches Ok(p) ==> fits(p.coeffs@, c_bits as nat),
        res matches Err(e) ==> e == EncodeError::BufferTooSmall,
{
    match unpack_bits(bytes, c_bits) {
        Ok(v) => Ok(Poly { coeffs: v }),
        Err(e) => Err(e),
    }
}

/// Widths up to 23 bits stay within the range BitUnpack maps exactly.
pub(crate) proof fn lemma_unpack_width(c: nat)
    requires
        c <= 23,
    ensures
        pow2(c) <= 2 * Q,
{
    lemma2_to64();
    if c < 23 {
        lemma_pow2_strictly_increases(c, 23);
    }
}

/// BitPack (FIPS 204 Alg 17): canonical coefficients whose centered
/// values lie in `[b - 2^c + 1, b]`, each stored as `b - centered`.
pub fn bit_pack(p: &Poly<u32>, b: u32, c_bits: usize, out: &mut [u8]) -> (res: Result<
    (),
    EncodeError,
>)
    requires
        1 <= c_bits <= 24,
        offsets_fit(p.coeffs@, b as int, c_bits as nat),
    ensures
        final(out).len() == old(out).len(),
        res is Ok <==> old(out).len() >= 32 * c_bits,
        res is Ok ==> bytes_value(final(out)@, (32 * c_bits) as nat) == packed_value(
            pack_offsets(p.coeffs@, b as int),
            c_bits as nat,
            N as nat,
        ),
        res is Ok ==> forall|k: int|
            32 * c_bits <= k < final(out).len() ==> #[trigger] final(out)@[k] == 0,
        res is Err ==> bytes_value(final(out)@, old(out).len() as nat) == packed_value(
            pack_offsets(p.coeffs@, b as int),
            c_bits as nat,
            N as nat,
        ) % pow2(8 * old(out).len() as nat),
        res matches Err(e) ==> e == EncodeError::BufferTooSmall,
{
    let vals = offsets_of(p, b, c_bits);
    pack_bits(&vals, c_bits, out)
}

/// BitUnpack (FIPS 204 Alg 19) for the range `[b - 2^c + 1, b]`.
pub fn bit_unpack(bytes: &[u8], b: u32, c_bits: usize) -> (res: Result<Poly<u32>, EncodeError>)
    requires
        1 <= c_bits <= 24,
        b < 2 * Q,
        pow2(c_bits as nat) <= b + 2 * Q,
    ensures
        res is Ok <==> bytes.len() >= 32 * c_bits,
        res matches Ok(p) ==> forall|j: int|
            0 <= j < N ==> #[trigger] p.coeffs[j] as int == canon(
                b - digit(bytes_value(bytes@, (32 * c_bits) as nat), c_bits as nat, j as nat),
                Q as int,
            ),
        res matches Ok(p) ==> poly_canonical(p, Q as int),
        res matches Err(e) ==> e == EncodeError::BufferTooSmall,
{
    bit_unpack_signed(bytes, b, c_bits)
}

/// Packing the BitPack offsets and reading them back with BitUnpack
/// gives the coefficients again.
pub proof fn lemma_row_signed_roundtrip(s: Seq<u8>, off: int, c: nat, b: int, v: Seq<u32>)
    requires
        v.len() == N,
        c <= 24,
        offsets_fit(v, b, c),
        row_value(s, off, c) == packed_value(pack_offsets(v, b), c, N as nat),
    ensures
        row_signed(s, off, c, b) == v,
{
    let o = pack_offsets(v, b);
    assert(fits(o, c)) by {
        assert forall|j: int| 0 <= j < o.len() implies (#[trigger] o[j] as nat) < pow2(c) by {
            assert(v[j] < Q);
        }
    }
    assert forall|j: int| 0 <= j < N implies #[trigger] row_signed(s, off, c, b)[j] == v[j] by {
        lemma_pack_unpack_roundtrip(o, c, j as nat);
        assert(v[j] < Q);
        let cj = centered(v[j] as int, Q as int);
        assert(0 <= b - cj < pow2(c));
        lemma_pow2_strictly_increases(c, 32);
        lemma2_to64();
        assert(o[j] as int == b - cj);
        assert(digit(row_value(s, off, c), c, j as nat) == b - cj);
        lemma_signed_roundtrip(v[j] as int, Q as int);
        assert(canon(b - digit(row_value(s, off, c), c, j as nat), Q as int) == v[j]);
    }
    assert(row_signed(s, off, c, b) =~= v);
}

/// SimpleBitPack followed by SimpleBitUnpack gives the values again.
pub proof fn lemma_row_digits_roundtrip(s: Seq<u8>, off: int, c: nat, v: Seq<u32>)
    requires
        v.len() == N,
        fits(v, c),
        row_value(s, off, c) == packed_value(v, c, N as nat),
    ensures
        row_digits(s, off, c) == v,
{
    assert forall|j: int| 0 <= j < N implies #[trigger] row_digits(s, off, c)[j] == v[j] by {
        lemma_pack_unpack_roundtrip(v, c, j as nat);
    }
    assert(row_digits(s, off, c) =~= v);
}

/// The row of `32 * c` bytes at `off`, as an exact-length slice.
pub(crate) proof fn lemma_row_of_slice(s: Seq<u8>, t: Seq<u8>, off: int, c: nat)
    requires
        0 <= off,
        off + 32 * c <= s.len(),
        t == s.subrange(off, off + 32 * c),
    ensures
        bytes_value(t, 32 * c) == row_value(s, off, c),
{
}

/// `i`-th `t1` row decoded straight from `pk`, without touching the
/// other rows.
pub fn pk_t1_row(pk: &[u8], i: usize) -> (res: Result<Poly<u32>, EncodeError>)
    requires
        32 + (i + 1) * 320 <= usize::MAX,
    ensures
        res is Ok <==> 32 + (i + 1) * 320 <= pk.len(),
        res matches Ok(p) ==> p.coeffs@ == row_digits(pk@, 32 + i * 320, 10),
        res matches Ok(p) ==> fits(p.coeffs@, 10),
        res matches Err(e) ==> e == EncodeError::BufferTooSmall,
{
    let chunk: usize = 32 * 10;
    let start = 32 + i * chunk;
    if start + chunk > pk.len() {
        return Err(EncodeError::BufferTooSmall);
    }
    let slice = &pk[start..start + chunk];
    let r = simple_bit_unpack(slice, 10);
    proof {
        lemma_row_of_slice(pk@, slice@, start as int, 10);
        if let Ok(p) = r {
            assert(p.coeffs@ =~= row_digits(pk@, start as int, 10));
        }
    }
    r
}

/// Byte offset of the `i`-th `z` row in a signature.
pub open spec fn sig_z_off<const K: usize, const L: usize>(params: Params<K, L>, i: int) -> int {
    params.ctilde_bytes + i * 32 * (1 + params.gamma1_bits)
}

/// `i`-th `z` row decoded straight from `sig`.
pub fn sig_z_row<const K: usize, const L: usize>(params: &Params<K, L>, sig: &[u8], i: usize) -> (res:
    Result<Poly<u32>, EncodeError>)
    requires
        dsa_params_ok(*params),
        sig_z_off(*params, i + 1) <= usize::MAX,
    ensures
        res is Ok <==> sig_z_off(*params, i + 1) <= sig.len(),
        res matches Ok(p) ==> p.coeffs@ == row_signed(
            sig@,
            sig_z_off(*params, i as int),
            (1 + params.gamma1_bits) as nat,
            params.gamma1 as int,
        ),
        res matches Ok(p) ==> poly_canonical(p, Q as int),
        res matches Err(e) ==> e == EncodeError::BufferTooSmall,
{
    let z_bits = 1 + params.gamma1_bits;
    let z_chunk = 32 * z_bits;
    assert(i * z_chunk + z_chunk == (i + 1) * z_chunk) by (nonlinear_arith);
    assert(z_chunk == 32 * (1 + params.gamma1_bits));
    assert(i * z_chunk == i * 32 * (1 + params.gamma1_bits)) by (nonlinear_arith)
        requires
            z_chunk == 32 * (1 + params.gamma1_bits),
    ;
    assert((i + 1) * z_chunk == (i + 1) * 32 * (1 + params.gamma1_bits)) by (nonlinear_arith)
        requires
            z_chunk == 32 * (1 + params.gamma1_bits),
    ;
    let off = params.ctilde_bytes + i * z_chunk;
    if off + z_chunk > sig.len() {
        return Err(EncodeError::BufferTooSmall);
    }
    proof {
        lemma2_to64();
    }
    let slice = &sig[off..off + z_chunk];
    let r = bit_unpack(slice, params.gamma1, z_bits);
    proof {
        lemma_row_of_slice(sig@, slice@, off as int, z_bits as nat);
        if let Ok(p) = r {
            assert(p.coeffs@ =~= row_signed(
                sig@,
                off as int,
                z_bits as nat,
                params.gamma1 as int,
            ));
        }
    }
    r
}

/// `(b, bits)` for the `s1` / `s2` BitPack range (centered `[-eta, eta]`).
fn sk_s_packing<const K: usize, const L: usize>(params: &Params<K, L>) -> (r: (u32, usize))
    requires
        dsa_params_ok(*params),
    ensures
        r.0 == params.eta.spec_value(),
        r.1 == bitlen_spec(2 * params.eta.spec_value() as nat),
        r.1 == 3 || r.1 == 4,
{
    let eta = params.eta.value();
    proof {
        reveal_with_fuel(bitlen_spec, 5);
    }
    (eta, bitlen(2 * eta))
}

/// `(b, bits)` for the `t0` BitPack range `[-(2^12 - 1), 2^12]`.
fn sk_t0_packing() -> (r: (u32, usize))
    ensures
        r.0 == 4096,
        r.1 == 13,
{
    proof {
        reveal_with_fuel(bitlen_spec, 15);
    }
    let t0_b: u32 = 1u32 << 12u32;
    assert(t0_b == 4096) by (bit_vector)
        requires
            t0_b == 1u32 << 12u32,
    ;
    let t0_a = t0_b - 1;
    (t0_b, bitlen(t0_a + t0_b))
}

/// Rows of `32 * c` bytes at `off` agree when the bytes there agree.
pub proof fn lemma_row_value_frame(s1: Seq<u8>, s2: Seq<u8>, off: int, c: nat)
    requires
        0 <= off,
        off + 32 * c <= s1.len(),
        off + 32 * c <= s2.len(),
        forall|k: int| off <= k < off + 32 * c ==> #[trigger] s1[k] == s2[k],
    ensures
        row_value(s1, off, c) == row_value(s2, off, c),
{
    assert(s1.subrange(off, off + 32 * c) =~= s2.subrange(off, off + 32 * c));
}

/// Two rows of `32 * c` bytes have the same value iff their bytes agree.
pub proof fn lemma_row_value_eq(s1: Seq<u8>, off1: int, s2: Seq<u8>, off2: int, c: nat)
    requires
        0 <= off1,
        0 <= off2,
        off1 + 32 * c <= s1.len(),
        off2 + 32 * c <= s2.len(),
    ensures
        (row_value(s1, off1, c) == row_value(s2, off2, c)) <==> (forall|k: int|
            0 <= k < 32 * c ==> #[trigger] s1[off1 + k] == s2[off2 + k]),
{
    let n = 32 * c;
    let t1 = s1.subrange(off1, off1 + n);
    let t2 = s2.subrange(off2, off2 + n);
    if row_value(s1, off1, c) == row_value(s2, off2, c) {
        crate::bits::lemma_bytes_value_injective(t1, t2, n);
        assert forall|k: int| 0 <= k < n implies #[trigger] s1[off1 + k] == s2[off2 + k] by {
            assert(t1.subrange(0, n as int)[k] == t2.subrange(0, n as int)[k]);
        }
    }
    if forall|k: int| 0 <= k < n ==> #[trigger] s1[off1 + k] == s2[off2 + k] {
        assert forall|k: int| 0 <= k < n implies t1[k] == t2[k] by {
            assert(s1[off1 + k] == s2[off2 + k]);
        }
        assert(t1 =~= t2);
    }
}

/// BitPack of `p` into the `32 * c` bytes of `out` at `off`; the rest of
/// `out` is left as it was.
fn bit_pack_at(p: &Poly<u32>, b: u32, c_bits: usize, out: &mut [u8], off: usize) -> (res: Result<
    (),
    EncodeError,
>)
    requires
        1 <= c_bits <= 24,
        offsets_fit(p.coeffs@, b as int, c_bits as nat),
    ensures
        final(out).len() == old(out).len(),
        res is Ok <==> off + 32 * c_bits <= old(out).len(),
        res is Ok ==> row_value(final(out)@, off as int, c_bits as nat) == packed_value(
            pack_offsets(p.coeffs@, b as int),
            c_bits as nat,
            N as nat,
        ),
        forall|k: int|
            0 <= k < final(out).len() && !(off <= k < off + 32 * c_bits)
                ==> #[trigger] final(out)@[k] == old(out)@[k],
        res matches Err(e) ==> e == EncodeError::BufferTooSmall,
{
    let vals = offsets_of(p, b, c_bits);
    pack_bits_at(&vals, c_bits, out, off)
}

/// [`pack_bits`] into the `32 * c` bytes of `out` starting at `off`;
/// the other bytes of `out` are left as they were. Succeeds iff the
/// slot lies inside `out`.
pub fn pack_bits_at(vals: &[u32; N], c_bits: usize, out: &mut [u8], off: usize) -> (res: Result<
    (),
    EncodeError,
>)
    requires
        1 <= c_bits <= 24,
        fits(vals@, c_bits as nat),
    ensures
        final(out).len() == old(out).len(),
        res is Ok <==> off + 32 * c_bits <= old(out).len(),
        res is Ok ==> bytes_value(
            final(out)@.subrange(off as int, off + 32 * c_bits),
            (32 * c_bits) as nat,
        ) == packed_value(vals@, c_bits as nat, N as nat),
        res is Ok ==> forall|k: int|
            0 <= k < final(out).len() && !(off <= k < off + 32 * c_bits)
                ==> #[trigger] final(out)@[k] == old(out)@[k],
        res is Err ==> final(out)@ == old(out)@,
        res matches Err(e) ==> e == EncodeError::BufferTooSmall,
{
    let len = out.len();
    if off > len || 32 * c_bits > len - off {
        return Err(EncodeError::BufferTooSmall);
    }
    let n = 32 * c_bits;
    let mut tmp = [0u8; 800];
    let r = pack_bits(vals, c_bits, &mut tmp);
    assert(r is Ok);
    let ghost packed = tmp@;
    assert(tmp@.len() == 800);
    for k in 0..n
        invariant
            n == 32 * c_bits,
            n <= 800,
            off + n <= out.len(),
            out.len() == old(out).len(),
            tmp@ == packed,
            packed.len() == 800,
            forall|j: int| 0 <= j < k ==> #[trigger] out@[off + j] == packed[j],
            forall|j: int|
                0 <= j < out.len() && !(off <= j < off + k) ==> #[trigger] out@[j] == old(out)@[j],
    {
        out[off + k] = tmp[k];
    }
    proof {
        assert forall|j: int| 0 <= j < n implies #[trigger] out@.subrange(off as int, off + n)[j]
            == packed[j] by {
            assert(out@[off + j] == packed[j]);
        }
        assert(out@.subrange(off as int, off + n) =~= packed.subrange(0, n as int));
        lemma_bytes_value_frame(packed, packed.subrange(0, n as int), n as nat);
    }
    Ok(())
}

/// Copy `src` into `out` starting at `off`.
pub(crate) fn copy_into(src: &[u8], out: &mut [u8], off: usize)
    requires
        off + src.len() <= old(out).len(),
    ensures
        final(out).len() == old(out).len(),
        final(out)@.subrange(off as int, off + src.len()) == src@,
        forall|k: int|
            0 <= k < final(out).len() && !(off <= k < off + src.len())
                ==> #[trigger] final(out)@[k] == old(out)@[k],
{
    let n = src.len();
    for k in 0..n
        invariant
            n == src.len(),
            off + n <= out.len(),
            out.len() == old(out).len(),
            forall|j: int| 0 <= j < k ==> #[trigger] out@[off + j] == src@[j],
            forall|j: int|
                0 <= j < out.len() && !(off <= j < off + k) ==> #[trigger] out@[j] == old(out)@[j],
    {
        out[off + k] = src[k];
    }
    proof {
        assert forall|j: int| 0 <= j < n implies #[trigger] out@.subrange(off as int, off + n)[j]
            == src@[j] by {
            assert(out@[off + j] == src@[j]);
        }
        assert(out@.subrange(off as int, off + n) =~= src@);
    }
}

/// `pk` holds `rho` followed by the SimpleBitPack of each `t1` row
/// with 10 bits per coefficient.
pub open spec fn pk_encodes<const K: usize>(pk: Seq<u8>, rho: Seq<u8>, t1: PolyVec<u32, K>) -> bool {
    &&& pk.len() >= 32 + 320 * K
    &&& pk.subrange(0, 32) == rho
    &&& forall|i: int|
        0 <= i < K ==> #[trigger] row_value(pk, 32 + 320 * i, 10) == packed_value(
            t1.v[i].coeffs@,
            10,
            N as nat,
        )
}

/// pkEncode (FIPS 204 Alg 22). Output length: `32 + 32 * K * 10`.
pub fn pk_encode<const K: usize>(rho: &[u8; 32], t1: &PolyVec<u32, K>, out: &mut [u8]) -> (res:
    Result<(), EncodeError>)
    requires
        32 + 320 * K <= usize::MAX,
        forall|i: int| 0 <= i < K ==> fits(#[trigger] t1.v[i].coeffs@, 10),
    ensures
        final(out).len() == old(out).len(),
        res is Ok <==> old(out).len() >= 32 + 320 * K,
        res is Ok ==> pk_encodes(final(out)@, rho@, *t1),
        res is Ok ==> forall|k: int|
            32 + 320 * K <= k < final(out).len() ==> #[trigger] final(out)@[k] == old(out)@[k],
        res is Err && old(out).len() < 32 ==> final(out)@ == old(out)@,
        res is Err && old(out).len() >= 32 ==> final(out)@.subrange(0, 32) == rho@,
        res is Err ==> forall|i: int|
            0 <= i < (old(out).len() - 32) / 320 ==> #[trigger] row_value(final(out)@, 32 + 320 * i, 10)
                == packed_value(t1.v[i].coeffs@, 10, N as nat),
        res is Err && old(out).len() >= 32 ==> forall|k: int|
            32 + 320 * ((old(out).len() - 32) / 320) <= k < final(out).len() ==> #[trigger] final(out)@[k]
                == old(out)@[k],
        res matches Err(e) ==> e == EncodeError::BufferTooSmall,
{
    if out.len() < 32 {
        return Err(EncodeError::BufferTooSmall);
    }
    copy_into(rho, out, 0);
    let c_bits: usize = 10;
    let chunk: usize = 32 * c_bits;
    for i in 0..K
        invariant
            32 + 320 * K <= usize::MAX,
            forall|ii: int| 0 <= ii < K ==> fits(#[trigger] t1.v[ii].coeffs@, 10),
            c_bits == 10,
            chunk == 320,
            out.len() == old(out).len(),
            32 + 320 * i <= out.len(),
            out@.subrange(0, 32) == rho@,
            forall|ii: int|
                0 <= ii < i ==> #[trigger] row_value(out@, 32 + 320 * ii, 10) == packed_value(
                    t1.v[ii].coeffs@,
                    10,
                    N as nat,
                ),
            forall|k: int| 32 + 320 * i <= k < out.len() ==> #[trigger] out@[k] == old(out)@[k],
    {
        let start = 32 + i * chunk;
        let ghost before = out@;
        let r = pack_bits_at(&t1.v[i].coeffs, c_bits, out, start);
        if r.is_err() {
            proof {
                // The rows that fit were written; `i` is how many fit.
                let m = old(out).len() - 32;
                assert(320 * i <= m < 320 * i + 320);
                vstd::arithmetic::div_mod::lemma_fundamental_div_mod_converse(m, 320, i as int, m - 320 * i);
                assert(out@ == before);
            }
            return Err(EncodeError::BufferTooSmall);
        }
        proof {
            assert(out@.subrange(0, 32) =~= before.subrange(0, 32));
            assert forall|ii: int| 0 <= ii < i + 1 implies #[trigger] row_value(
                out@,
                32 + 320 * ii,
                10,
            ) == packed_value(t1.v[ii].coeffs@, 10, N as nat) by {
                if ii < i {
                    lemma_row_value_frame(before, out@, 32 + 320 * ii, 10);
                } else {
                    assert(out@.subrange(start as int, start + 320) == out@.subrange(
                        32 + 320 * ii,
                        32 + 320 * ii + 32 * 10,
                    ));
                }
            }
        }
    }
    Ok(())
}

/// Decoding the `i`-th row of an encoded public key gives back `t1[i]`.
pub proof fn lemma_pk_roundtrip<const K: usize>(pk: Seq<u8>, rho: Seq<u8>, t1: PolyVec<u32, K>, i: int)
    requires
        pk_encodes(pk, rho, t1),
        0 <= i < K,
        fits(t1.v[i].coeffs@, 10),
    ensures
        row_digits(pk, 32 + 320 * i, 10) == t1.v[i].coeffs@,
{
    assert(row_value(pk, 32 + 320 * i, 10) == packed_value(t1.v[i].coeffs@, 10, N as nat));
    lemma_row_digits_roundtrip(pk, 32 + 320 * i, 10, t1.v[i].coeffs@);
}

/// Offset of the `i`-th `s1`/`s2` row of a secret key (the `s2` rows
/// follow the `L` rows of `s1`).
pub open spec fn sk_s_off(i: int, eb: nat) -> int {
    128 + 32 * eb * i
}

/// Offset of the `i`-th `t0` row of a secret key.
pub open spec fn sk_t0_off(rows: int, eb: nat, i: int) -> int {
    128 + 32 * eb * rows + 416 * i
}

/// `sk` holds `rho || K || tr`, then BitPack of `s1`, `s2` (range
/// `[-eta, eta]`) and `t0` (range `[-(2^12 - 1), 2^12]`).
pub open spec fn sk_encodes<const K: usize, const L: usize>(
    params: Params<K, L>,
    sk: Seq<u8>,
    rho: Seq<u8>,
    big_k: Seq<u8>,
    tr: Seq<u8>,
    s1: PolyVec<u32, L>,
    s2: PolyVec<u32, K>,
    t0: PolyVec<u32, K>,
) -> bool {
    let eta = params.eta.spec_value() as int;
    let eb = bitlen_spec(2 * eta as nat);
    &&& sk.len() >= sk_bytes_spec(K as int, L as int, eta as nat)
    &&& sk.subrange(0, 32) == rho
    &&& sk.subrange(32, 64) == big_k
    &&& sk.subrange(64, 128) == tr
    &&& forall|i: int|
        0 <= i < L ==> #[trigger] row_value(sk, sk_s_off(i, eb), eb) == packed_value(
            pack_offsets(s1.v[i].coeffs@, eta),
            eb,
            N as nat,
        )
    &&& forall|i: int|
        0 <= i < K ==> #[trigger] row_value(sk, sk_s_off(L + i, eb), eb) == packed_value(
            pack_offsets(s2.v[i].coeffs@, eta),
            eb,
            N as nat,
        )
    &&& forall|i: int|
        0 <= i < K ==> #[trigger] row_value(sk, sk_t0_off(K + L, eb, i), 13) == packed_value(
            pack_offsets(t0.v[i].coeffs@, 4096),
            13,
            N as nat,
        )
}

/// The secrets fit their BitPack ranges.
pub open spec fn sk_secrets_fit<const K: usize, const L: usize>(
    params: Params<K, L>,
    s1: PolyVec<u32, L>,
    s2: PolyVec<u32, K>,
    t0: PolyVec<u32, K>,
) -> bool {
    let eta = params.eta.spec_value() as int;
    let eb = bitlen_spec(2 * eta as nat);
    &&& forall|i: int| 0 <= i < L ==> offsets_fit(#[trigger] s1.v[i].coeffs@, eta, eb)
    &&& forall|i: int| 0 <= i < K ==> offsets_fit(#[trigger] s2.v[i].coeffs@, eta, eb)
    &&& forall|i: int| 0 <= i < K ==> offsets_fit(#[trigger] t0.v[i].coeffs@, 4096, 13)
}

proof fn lemma_row_offsets(c: nat, i: int, ii: int, m: int)
    requires
        0 <= ii < i <= m,
    ensures
        32 * c * ii + 32 * c <= 32 * c * i,
        32 * c * ii + 32 * c == 32 * c * (ii + 1),
        32 * c * i + 32 * c == 32 * c * (i + 1),
        32 * c * i <= 32 * c * m,
{
    assert(32 * c * ii + 32 * c == 32 * c * (ii + 1)) by (nonlinear_arith);
    assert(32 * c * ii + 32 * c <= 32 * c * i) by (nonlinear_arith)
        requires
            ii < i,
    ;
    assert(32 * c * i + 32 * c == 32 * c * (i + 1)) by (nonlinear_arith);
    assert(32 * c * i <= 32 * c * m) by (nonlinear_arith)
        requires
            i <= m,
    ;
}

/// BitPack of the `M` rows of `v` into consecutive `32 * c`-byte slots
/// of `out` starting at `base`; the rest of `out` is left as it was.
fn bit_pack_rows<const M: usize>(v: &PolyVec<u32, M>, b: u32, c_bits: usize, out: &mut [u8], base: usize) -> (res:
    Result<(), EncodeError>)
    requires
        1 <= c_bits <= 23,
        b < 0x10_0000,
        1 <= M <= 16,
        base <= 0x1_0000,
        forall|i: int| 0 <= i < M ==> offsets_fit(#[trigger] v.v[i].coeffs@, b as int, c_bits as nat),
    ensures
        final(out).len() == old(out).len(),
        res is Ok <==> base + 32 * c_bits * M <= old(out).len(),
        res is Ok ==> forall|i: int|
            0 <= i < M ==> #[trigger] row_value(final(out)@, base + 32 * c_bits * i, c_bits as nat)
                == packed_value(pack_offsets(v.v[i].coeffs@, b as int), c_bits as nat, N as nat),
        forall|k: int|
            0 <= k < final(out).len() && !(base <= k < base + 32 * c_bits * M)
                ==> #[trigger] final(out)@[k] == old(out)@[k],
        res matches Err(e) ==> e == EncodeError::BufferTooSmall,
{
    let ghost c = c_bits as nat;
    let chunk = 32 * c_bits;
    let mut off = base;
    proof {
        assert(32 * c_bits * M <= 32 * 23 * 16) by (nonlinear_arith)
            requires
                c_bits <= 23,
                M <= 16,
        ;
        assert(32 * c * 0 == 0);
    }
    for i in 0..M
        invariant
            1 <= c_bits <= 23,
            b < 0x10_0000,
            1 <= M <= 16,
            base <= 0x1_0000,
            c == c_bits as nat,
            chunk == 32 * c_bits,
            32 * c_bits * M <= 32 * 23 * 16,
            off == base + 32 * c * i,
            forall|ii: int| 0 <= ii < M ==> offsets_fit(#[trigger] v.v[ii].coeffs@, b as int, c),
            out.len() == old(out).len(),
            i == 0 || off <= out.len(),
            forall|ii: int|
                0 <= ii < i ==> #[trigger] row_value(out@, base + 32 * c * ii, c) == packed_value(
                    pack_offsets(v.v[ii].coeffs@, b as int),
                    c,
                    N as nat,
                ),
            forall|k: int|
                0 <= k < out.len() && !(base <= k < base + 32 * c * M) ==> #[trigger] out@[k]
                    == old(out)@[k],
    {
        proof {
            lemma_row_offsets(c, (i + 1) as int, i as int, M as int);
        }
        let ghost before = out@;
        let r = bit_pack_at(&v.v[i], b, c_bits, out, off);
        if r.is_err() {
            return Err(EncodeError::BufferTooSmall);
        }
        proof {
            assert forall|ii: int| 0 <= ii < i + 1 implies #[trigger] row_value(
                out@,
                base + 32 * c * ii,
                c,
            ) == packed_value(pack_offsets(v.v[ii].coeffs@, b as int), c, N as nat) by {
                if ii < i {
                    lemma_row_offsets(c, i as int, ii, M as int);
                    lemma_row_value_frame(before, out@, base + 32 * c * ii, c);
                }
            }
        }
        off = off + chunk;
    }
    Ok(())
}

/// BitUnpack of `M` consecutive `32 * c`-byte rows of `bytes` starting
/// at `base`.
#[verifier::spinoff_prover]
fn bit_unpack_rows<const M: usize>(bytes: &[u8], b: u32, c_bits: usize, base: usize) -> (res: Result<
    PolyVec<u32, M>,
    EncodeError,
>)
    requires
        1 <= c_bits <= 23,
        b < 0x10_0000,
        1 <= M <= 16,
        base <= 0x1_0000,
    ensures
        res is Ok <==> base + 32 * c_bits * M <= bytes.len(),
        res matches Ok(v) ==> forall|i: int|
            0 <= i < M ==> #[trigger] v.v[i].coeffs@ == row_signed(
                bytes@,
                base + 32 * c_bits * i,
                c_bits as nat,
                b as int,
            ),
        res matches Ok(v) ==> forall|i: int| 0 <= i < M ==> poly_canonical(#[trigger] v.v[i], Q as int),
        res matches Err(e) ==> e == EncodeError::BufferTooSmall,
{
    let ghost c = c_bits as nat;
    let chunk = 32 * c_bits;
    let mut out = PolyVec::<u32, M>::zero();
    let mut off = base;
    proof {
        assert(32 * c_bits * M <= 32 * 23 * 16) by (nonlinear_arith)
            requires
                c_bits <= 23,
                M <= 16,
        ;
        assert(32 * c * 0 == 0);
    }
    for i in 0..M
        invariant
            1 <= c_bits <= 23,
            b < 0x10_0000,
            1 <= M <= 16,
            base <= 0x1_0000,
            c == c_bits as nat,
            chunk == 32 * c_bits,
            32 * c_bits * M <= 32 * 23 * 16,
            off == base + 32 * c * i,
            i == 0 || off <= bytes.len(),
            forall|ii: int|
                0 <= ii < i ==> #[trigger] out.v[ii].coeffs@ == row_signed(
                    bytes@,
                    base + 32 * c * ii,
                    c,
                    b as int,
                ),
            forall|ii: int| 0 <= ii < i ==> poly_canonical(#[trigger] out.v[ii], Q as int),
    {
        proof {
            lemma_row_offsets(c, (i + 1) as int, i as int, M as int);
        }
        if off + chunk > bytes.len() {
            return Err(EncodeError::BufferTooSmall);
        }
        let slice = &bytes[off..off + chunk];
        proof {
            lemma_unpack_width(c_bits as nat);
        }
        let p = match bit_unpack(slice, b, c_bits) {
            Ok(p) => p,
            Err(e) => {
                return Err(e);
            },
        };
        proof {
            lemma_row_of_slice(bytes@, slice@, off as int, c);
            assert(p.coeffs@ =~= row_signed(bytes@, off as int, c, b as int));
        }
        out.v[i] = p;
        off = off + chunk;
    }
    Ok(out)
}

/// skEncode (FIPS 204 Alg 24). Output length: `params.sk_bytes`.
pub fn sk_encode<const K: usize, const L: usize>(
    params: &Params<K, L>,
    rho: &[u8; 32],
    big_k: &[u8; 32],
    tr: &[u8; 64],
    s1: &PolyVec<u32, L>,
    s2: &PolyVec<u32, K>,
    t0: &PolyVec<u32, K>,
    out: &mut [u8],
) -> (res: Result<(), EncodeError>)
    requires
        dsa_params_ok(*params),
        sk_secrets_fit(*params, *s1, *s2, *t0),
    ensures
        final(out).len() == old(out).len(),
        res is Ok <==> old(out).len() >= params.sk_bytes,
        res is Ok ==> sk_encodes(*params, final(out)@, rho@, big_k@, tr@, *s1, *s2, *t0),
        res is Ok ==> forall|k: int|
            params.sk_bytes <= k < final(out).len() ==> #[trigger] final(out)@[k] == old(out)@[k],
        res is Err ==> res == Err::<(), EncodeError>(EncodeError::BufferTooSmall),
        old(out).len() < 128 ==> final(out)@ == old(out)@,
        old(out).len() >= 128 ==> final(out)@.subrange(0, 128) == rho@ + big_k@ + tr@,
{
    if out.len() < 128 {
        return Err(EncodeError::BufferTooSmall);
    }
    let ghost orig = out@;
    copy_into(rho, out, 0);
    copy_into(big_k, out, 32);
    copy_into(tr, out, 64);
    let ghost head = out@.subrange(0, 128);
    assert(head.subrange(0, 32) == rho@);
    assert(head.subrange(32, 64) == big_k@);
    assert(head.subrange(64, 128) == tr@);
    assert(head =~= rho@ + big_k@ + tr@);
    assert(forall|k: int| 128 <= k < out.len() ==> #[trigger] out@[k] == orig[k]);
    let (eta, eta_bits) = sk_s_packing(params);
    let ghost eb = eta_bits as nat;
    let ghost total = sk_bytes_spec(K as int, L as int, eta as nat);
    assert(total == 128 + 32 * ((K + L) * eta_bits + 13 * K));
    let s_chunk = 32 * eta_bits;
    proof {
        assert(32 * eta_bits * L <= 32 * 4 * 8) by (nonlinear_arith)
            requires
                eta_bits <= 4,
                L <= 8,
        ;
        assert(32 * eta_bits * K <= 32 * 4 * 8) by (nonlinear_arith)
            requires
                eta_bits <= 4,
                K <= 8,
        ;
        assert(128 + 32 * eta_bits * L + 32 * eta_bits * K + 32 * 13 * K == total)
            by (nonlinear_arith)
            requires
                total == 128 + 32 * ((K + L) * eta_bits + 13 * K),
        ;
    }
    let ghost before_s1 = out@;
    let r1 = bit_pack_rows(s1, eta, eta_bits, out, 128);
    assert(out@.subrange(0, 128) =~= before_s1.subrange(0, 128));
    if r1.is_err() {
        return Err(EncodeError::BufferTooSmall);
    }
    let ghost after_s1 = out@;
    let off2 = 128 + s_chunk * L;
    assert(s_chunk * L == 32 * eta_bits * L) by (nonlinear_arith)
        requires
            s_chunk == 32 * eta_bits,
    ;
    let r2 = bit_pack_rows(s2, eta, eta_bits, out, off2);
    assert(out@.subrange(0, 128) =~= after_s1.subrange(0, 128));
    if r2.is_err() {
        return Err(EncodeError::BufferTooSmall);
    }
    let ghost after_s2 = out@;
    let (t0_b, t0_bits) = sk_t0_packing();
    let off3 = off2 + s_chunk * K;
    assert(s_chunk * K == 32 * eta_bits * K) by (nonlinear_arith)
        requires
            s_chunk == 32 * eta_bits,
    ;
    let r3 = bit_pack_rows(t0, t0_b, t0_bits, out, off3);
    assert(out@.subrange(0, 128) =~= after_s2.subrange(0, 128));
    if r3.is_err() {
        return Err(EncodeError::BufferTooSmall);
    }
    proof {
        let sk = out@;
        assert(off3 + 32 * t0_bits * K == total) by (nonlinear_arith)
            requires
                off3 == 128 + 32 * eta_bits * L + 32 * eta_bits * K,
                t0_bits == 13,
                128 + 32 * eta_bits * L + 32 * eta_bits * K + 32 * 13 * K == total,
        ;
        assert forall|k: int| params.sk_bytes <= k < sk.len() implies #[trigger] sk[k] == orig[k] by {
            assert(after_s1[k] == before_s1[k]);
            assert(after_s2[k] == after_s1[k]);
        }
        assert(sk.subrange(0, 128) =~= head);
        assert(sk.subrange(0, 32) =~= head.subrange(0, 32));
        assert(sk.subrange(32, 64) =~= head.subrange(32, 64));
        assert(sk.subrange(64, 128) =~= head.subrange(64, 128));
        assert forall|i: int| 0 <= i < L implies #[trigger] row_value(
            sk,
            sk_s_off(i, eb),
            eb,
        ) == packed_value(pack_offsets(s1.v[i].coeffs@, eta as int), eb, N as nat) by {
            lemma_row_offsets(eb, L as int, i, L as int);
            assert(sk_s_off(i, eb) == 128 + 32 * eb * i);
            lemma_row_value_frame(after_s1, after_s2, sk_s_off(i, eb), eb);
            lemma_row_value_frame(after_s2, sk, sk_s_off(i, eb), eb);
        }
        assert forall|i: int| 0 <= i < K implies #[trigger] row_value(
            sk,
            sk_s_off(L + i, eb),
            eb,
        ) == packed_value(pack_offsets(s2.v[i].coeffs@, eta as int), eb, N as nat) by {
            lemma_row_offsets(eb, K as int, i, K as int);
            assert(sk_s_off(L + i, eb) == off2 + 32 * eb * i) by (nonlinear_arith)
                requires
                    off2 == 128 + 32 * eb * L,
            ;
            lemma_row_value_frame(after_s2, sk, sk_s_off(L + i, eb), eb);
        }
        assert forall|i: int| 0 <= i < K implies #[trigger] row_value(
            sk,
            sk_t0_off(K + L, eb, i),
            13,
        ) == packed_value(pack_offsets(t0.v[i].coeffs@, 4096), 13, N as nat) by {
            assert(sk_t0_off(K + L, eb, i) == off3 + 32 * 13 * i) by (nonlinear_arith)
                requires
                    off3 == 128 + 32 * eb * L + 32 * eb * K,
            ;
        }
    }
    Ok(())
}

/// The secret rows `s1`, `s2`, `t0` are the BitUnpack of the rows of
/// `sk`.
pub open spec fn sk_secret_rows<const K: usize, const L: usize>(
    params: Params<K, L>,
    sk: Seq<u8>,
    s1: PolyVec<u32, L>,
    s2: PolyVec<u32, K>,
    t0: PolyVec<u32, K>,
) -> bool {
    let eta = params.eta.spec_value() as int;
    let eb = bitlen_spec(2 * eta as nat);
    &&& forall|i: int|
        0 <= i < L ==> #[trigger] s1.v[i].coeffs@ == row_signed(sk, sk_s_off(i, eb), eb, eta)
    &&& forall|i: int|
        0 <= i < K ==> #[trigger] s2.v[i].coeffs@ == row_signed(sk, sk_s_off(L + i, eb), eb, eta)
    &&& forall|i: int|
        0 <= i < K ==> #[trigger] t0.v[i].coeffs@ == row_signed(
            sk,
            sk_t0_off(K + L, eb, i),
            13,
            4096,
        )
}

/// Decode the three secret row groups that follow the 128-byte header.
fn decode_rows<const K: usize, const L: usize>(params: &Params<K, L>, sk: &[u8]) -> (res: Result<
    (PolyVec<u32, L>, PolyVec<u32, K>, PolyVec<u32, K>),
    EncodeError,
>)
    requires
        dsa_params_ok(*params),
    ensures
        res is Ok <==> sk.len() >= sk_bytes_spec(
            K as int,
            L as int,
            params.eta.spec_value() as nat,
        ),
        res matches Ok(t) ==> sk_secret_rows(*params, sk@, t.0, t.1, t.2),
        res matches Ok(t) ==> forall|i: int| 0 <= i < L ==> poly_canonical(#[trigger] t.0.v[i], Q as int),
        res matches Ok(t) ==> forall|i: int| 0 <= i < K ==> poly_canonical(#[trigger] t.1.v[i], Q as int),
        res matches Ok(t) ==> forall|i: int| 0 <= i < K ==> poly_canonical(#[trigger] t.2.v[i], Q as int),
        res matches Err(e) ==> e == EncodeError::BufferTooSmall,
{
    let (eta, eta_bits) = sk_s_packing(params);
    let ghost eb = eta_bits as nat;
    let ghost total = sk_bytes_spec(K as int, L as int, eta as nat);
    assert(total == 128 + 32 * ((K + L) * eta_bits + 13 * K));
    let s_chunk = 32 * eta_bits;
    proof {
        assert(32 * eta_bits * L <= 32 * 4 * 8) by (nonlinear_arith)
            requires
                eta_bits <= 4,
                L <= 8,
        ;
        assert(32 * eta_bits * K <= 32 * 4 * 8) by (nonlinear_arith)
            requires
                eta_bits <= 4,
                K <= 8,
        ;
        assert(128 + 32 * eta_bits * L + 32 * eta_bits * K + 32 * 13 * K == total)
            by (nonlinear_arith)
            requires
                total == 128 + 32 * ((K + L) * eta_bits + 13 * K),
        ;
    }
    let s1 = match bit_unpack_rows::<L>(sk, eta, eta_bits, 128) {
        Ok(v) => v,
        Err(e) => {
            return Err(e);
        },
    };
    let off2 = 128 + s_chunk * L;
    assert(s_chunk * L == 32 * eta_bits * L) by (nonlinear_arith)
        requires
            s_chunk == 32 * eta_bits,
    ;
    let s2 = match bit_unpack_rows::<K>(sk, eta, eta_bits, off2) {
        Ok(v) => v,
        Err(e) => {
            return Err(e);
        },
    };
    let (t0_b, t0_bits) = sk_t0_packing();
    let off3 = off2 + s_chunk * K;
    assert(s_chunk * K == 32 * eta_bits * K) by (nonlinear_arith)
        requires
            s_chunk == 32 * eta_bits,
    ;
    let t0 = match bit_unpack_rows::<K>(sk, t0_b, t0_bits, off3) {
        Ok(v) => v,
        Err(e) => {
            return Err(e);
        },
    };
    proof {
        assert forall|i: int| 0 <= i < K implies #[trigger] s2.v[i].coeffs@ == row_signed(
            sk@,
            sk_s_off(L + i, eb),
            eb,
            eta as int,
        ) by {
            assert(sk_s_off(L + i, eb) == off2 + 32 * eb * i) by (nonlinear_arith)
                requires
                    off2 == 128 + 32 * eb * L,
            ;
        }
        assert forall|i: int| 0 <= i < K implies #[trigger] t0.v[i].coeffs@ == row_signed(
            sk@,
            sk_t0_off(K + L, eb, i),
            13,
            4096,
        ) by {
            assert(sk_t0_off(K + L, eb, i) == off3 + 32 * 13 * i) by (nonlinear_arith)
                requires
                    off3 == 128 + 32 * eb * L + 32 * eb * K,
            ;
        }
    }
    Ok((s1, s2, t0))
}

/// Decode `s1` / `s2` / `t0` from `sk` straight into the caller's
/// vectors, in canonical form. Succeeds iff `sk` holds the header and
/// all secret rows.
pub fn decode_sk_secrets<const K: usize, const L: usize>(
    params: &Params<K, L>,
    sk: &[u8],
    s1: &mut PolyVec<u32, L>,
    s2: &mut PolyVec<u32, K>,
    t0: &mut PolyVec<u32, K>,
) -> (res: Result<(), EncodeError>)
    requires
        dsa_params_ok(*params),
    ensures
        res is Ok <==> sk.len() >= params.sk_bytes,
        res is Ok ==> sk_secret_rows(*params, sk@, *final(s1), *final(s2), *final(t0)),
        res matches Err(e) ==> e == EncodeError::BufferTooSmall,
{
    match decode_rows(params, sk) {
        Ok((a, b, c)) => {
            *s1 = a;
            *s2 = b;
            *t0 = c;
            Ok(())
        },
        Err(e) => Err(e),
    }
}

/// Random-access view over the `s1` / `s2` / `t0` row groups of a
/// secret key, for signing with one secret row in memory at a time. The
/// three groups are carved once; each row is then decoded on demand.
/// Holds only borrows of the key.
pub struct SkSecretReader<'a> {
    s1: &'a [u8],
    s2: &'a [u8],
    t0: &'a [u8],
    eta: u32,
    eta_bits: usize,
    s_chunk: usize,
    t0_b: u32,
    t0_bits: usize,
    t0_chunk: usize,
}

impl<'a> SkSecretReader<'a> {
    #[verifier::type_invariant]
    spec fn inv(self) -> bool {
        &&& 1 <= self.eta_bits <= 23
        &&& self.eta < 0x10_0000
        &&& self.s_chunk == 32 * self.eta_bits
        &&& self.t0_b == 4096
        &&& self.t0_bits == 13
        &&& self.t0_chunk == 416
    }

    /// The bytes of the `s1` rows.
    pub closed spec fn s1_bytes(self) -> Seq<u8> {
        self.s1@
    }

    /// The bytes of the `s2` rows.
    pub closed spec fn s2_bytes(self) -> Seq<u8> {
        self.s2@
    }

    /// The bytes of the `t0` rows.
    pub closed spec fn t0_bytes(self) -> Seq<u8> {
        self.t0@
    }

    /// The bound `eta` of the `s1` / `s2` coefficients.
    pub closed spec fn eta_value(self) -> int {
        self.eta as int
    }

    /// Bits per packed `s1` / `s2` coefficient.
    pub closed spec fn eta_width(self) -> nat {
        self.eta_bits as nat
    }

    /// Carve the row groups out of `sk`. Succeeds iff `sk` holds the
    /// header and all secret rows.
    pub fn new<const K: usize, const L: usize>(params: &Params<K, L>, sk: &'a [u8]) -> (res:
        Result<Self, EncodeError>)
        requires
            dsa_params_ok(*params),
        ensures
            res is Ok <==> sk.len() >= sk_bytes_spec(
                K as int,
                L as int,
                params.eta.spec_value() as nat,
            ),
            res matches Ok(r) ==> reader_of(r, *params, sk@),
    {
        let (eta, eta_bits) = sk_s_packing(params);
        let s_chunk = 32 * eta_bits;
        let (t0_b, t0_bits) = sk_t0_packing();
        let t0_chunk: usize = 32 * t0_bits;
        let ghost total = sk_bytes_spec(K as int, L as int, eta as nat);
        assert(s_chunk * L <= 32 * 4 * 8 && s_chunk * K <= 32 * 4 * 8) by (nonlinear_arith)
            requires
                s_chunk == 32 * eta_bits,
                eta_bits <= 4,
                L <= 8,
                K <= 8,
        ;
        assert(total == 128 + s_chunk * L + s_chunk * K + 416 * K) by (nonlinear_arith)
            requires
                total == 128 + 32 * ((K + L) * eta_bits + 13 * K),
                s_chunk == 32 * eta_bits,
        ;
        if sk.len() < 128 {
            return Err(EncodeError::BufferTooSmall);
        }
        let body = sk.split_at(128).1;
        let n1 = s_chunk * L;
        if body.len() < n1 {
            return Err(EncodeError::BufferTooSmall);
        }
        let (s1, rest) = body.split_at(n1);
        let n2 = s_chunk * K;
        if rest.len() < n2 {
            return Err(EncodeError::BufferTooSmall);
        }
        let (s2, rest) = rest.split_at(n2);
        let n3 = t0_chunk * K;
        if rest.len() < n3 {
            return Err(EncodeError::BufferTooSmall);
        }
        let t0 = rest.split_at(n3).0;
        proof {
            reveal_with_fuel(bitlen_spec, 5);
            assert(s1@ == sk@.subrange(128, 128 + 32 * eta_bits * L));
            assert(s2@ == sk@.subrange(128 + 32 * eta_bits * L, 128 + 32 * eta_bits * (L + K)))
                by {
                assert(32 * eta_bits * (L + K) == 32 * eta_bits * L + 32 * eta_bits * K)
                    by (nonlinear_arith);
            }
            assert(t0@ == sk@.subrange(
                128 + 32 * eta_bits * (L + K),
                128 + 32 * eta_bits * (L + K) + 416 * K,
            )) by {
                assert(32 * eta_bits * (L + K) == 32 * eta_bits * L + 32 * eta_bits * K)
                    by (nonlinear_arith);
            }
        }
        Ok(SkSecretReader { s1, s2, t0, eta, eta_bits, s_chunk, t0_b, t0_bits, t0_chunk })
    }

    /// Row `i` of `s1`. Succeeds iff the `s1` group holds `i + 1` rows.
    pub fn s1_row(&self, i: usize) -> (res: Result<Poly<u32>, EncodeError>)
        ensures
            res is Ok <==> 32 * self.eta_width() * (i + 1) <= self.s1_bytes().len(),
            res matches Ok(p) ==> p.coeffs@ == row_signed(
                self.s1_bytes(),
                32 * self.eta_width() * i,
                self.eta_width(),
                self.eta_value(),
            ),
    {
        proof {
            use_type_invariant(self);
        }
        secret_row(self.s1, i, self.s_chunk, self.eta, self.eta_bits)
    }

    /// Row `i` of `s2`. Succeeds iff the `s2` group holds `i + 1` rows.
    pub fn s2_row(&self, i: usize) -> (res: Result<Poly<u32>, EncodeError>)
        ensures
            res is Ok <==> 32 * self.eta_width() * (i + 1) <= self.s2_bytes().len(),
            res matches Ok(p) ==> p.coeffs@ == row_signed(
                self.s2_bytes(),
                32 * self.eta_width() * i,
                self.eta_width(),
                self.eta_value(),
            ),
    {
        proof {
            use_type_invariant(self);
        }
        secret_row(self.s2, i, self.s_chunk, self.eta, self.eta_bits)
    }

    /// Row `i` of `t0`. Succeeds iff the `t0` group holds `i + 1` rows.
    pub fn t0_row(&self, i: usize) -> (res: Result<Poly<u32>, EncodeError>)
        ensures
            res is Ok <==> 416 * (i + 1) <= self.t0_bytes().len(),
            res matches Ok(p) ==> p.coeffs@ == row_signed(self.t0_bytes(), 416 * i, 13, 4096),
    {
        proof {
            use_type_invariant(self);
        }
        secret_row(self.t0, i, self.t0_chunk, self.t0_b, self.t0_bits)
    }
}

/// The reader `r` carves the row groups of `sk` for `params`.
pub open spec fn reader_of<'a, const K: usize, const L: usize>(
    r: SkSecretReader<'a>,
    params: Params<K, L>,
    sk: Seq<u8>,
) -> bool {
    let eta = params.eta.spec_value() as int;
    let eb = bitlen_spec(2 * eta as nat);
    let e1 = 128 + 32 * eb * L;
    let e2 = 128 + 32 * eb * (L + K);
    &&& r.eta_value() == eta
    &&& r.eta_width() == eb
    &&& r.s1_bytes() == sk.subrange(128, e1)
    &&& r.s2_bytes() == sk.subrange(e1, e2)
    &&& r.t0_bytes() == sk.subrange(e2, e2 + 416 * K)
}

/// The `i`-th row of `c_bits`-bit values in `group`, decoded for the
/// range `[b - 2^c_bits + 1, b]`; `BufferTooSmall` when the group holds
/// fewer than `i + 1` rows.
fn secret_row(group: &[u8], i: usize, chunk: usize, b: u32, c_bits: usize) -> (res: Result<
    Poly<u32>,
    EncodeError,
>)
    requires
        1 <= c_bits <= 23,
        b < 0x10_0000,
        chunk == 32 * c_bits,
    ensures
        res is Ok <==> chunk * (i + 1) <= group.len(),
        res matches Ok(p) ==> p.coeffs@ == row_signed(group@, chunk * i, c_bits as nat, b as int),
        res matches Err(e) ==> e == EncodeError::BufferTooSmall,
{
    let rows = group.len() / chunk;
    proof {
        vstd::arithmetic::div_mod::lemma_fundamental_div_mod(group.len() as int, chunk as int);
        assert(chunk * (i + 1) <= group.len() <==> i < rows) by (nonlinear_arith)
            requires
                rows == group.len() / chunk,
                group.len() == chunk * (group.len() / chunk) + group.len() % chunk,
                0 <= group.len() % chunk < chunk,
                chunk > 0,
        ;
    }
    if i >= rows {
        return Err(EncodeError::BufferTooSmall);
    }
    assert(chunk * i + chunk == chunk * (i + 1)) by (nonlinear_arith);
    let off = chunk * i;
    let row = &group[off..off + chunk];
    proof {
        lemma_unpack_width(c_bits as nat);
    }
    let res = bit_unpack(row, b, c_bits);
    proof {
        if let Ok(p) = res {
            assert forall|j: int| 0 <= j < N implies #[trigger] p.coeffs@[j] == row_signed(
                group@,
                off as int,
                c_bits as nat,
                b as int,
            )[j] by {
                assert(p.coeffs[j] as int == canon(
                    b - digit(bytes_value(row@, (32 * c_bits) as nat), c_bits as nat, j as nat),
                    Q as int,
                ));
            }
            assert(p.coeffs@ =~= row_signed(group@, off as int, c_bits as nat, b as int));
        }
    }
    res
}

/// The reader yields exactly the rows that [`decode_sk_secrets`]
/// decodes from the same key.
pub proof fn lemma_reader_rows_match<'a, const K: usize, const L: usize>(
    r: SkSecretReader<'a>,
    params: Params<K, L>,
    sk: Seq<u8>,
    s1: PolyVec<u32, L>,
    s2: PolyVec<u32, K>,
    t0: PolyVec<u32, K>,
)
    requires
        dsa_params_ok(params),
        sk.len() >= sk_bytes_spec(K as int, L as int, params.eta.spec_value() as nat),
        reader_of(r, params, sk),
        sk_secret_rows(params, sk, s1, s2, t0),
    ensures
        forall|i: int|
            0 <= i < L ==> #[trigger] s1.v[i].coeffs@ == row_signed(
                r.s1_bytes(),
                32 * r.eta_width() * i,
                r.eta_width(),
                r.eta_value(),
            ),
        forall|i: int|
            0 <= i < K ==> #[trigger] s2.v[i].coeffs@ == row_signed(
                r.s2_bytes(),
                32 * r.eta_width() * i,
                r.eta_width(),
                r.eta_value(),
            ),
        forall|i: int|
            0 <= i < K ==> #[trigger] t0.v[i].coeffs@ == row_signed(
                r.t0_bytes(),
                416 * i,
                13,
                4096,
            ),
{
    let eta = params.eta.spec_value() as int;
    let eb = bitlen_spec(2 * eta as nat);
    let e1 = 128 + 32 * eb * L;
    let e2 = 128 + 32 * eb * (L + K);
    assert(eb == 3 || eb == 4) by {
        reveal_with_fuel(bitlen_spec, 5);
    }
    assert(e1 <= e2 && e2 + 416 * K <= sk.len() && e2 == e1 + 32 * eb * K) by (nonlinear_arith)
        requires
            e1 == 128 + 32 * eb * L,
            e2 == 128 + 32 * eb * (L + K),
            sk.len() >= 128 + 32 * ((K + L) * eb + 13 * K),
            eb >= 0,
    ;
    assert forall|i: int| 0 <= i < L implies #[trigger] s1.v[i].coeffs@ == row_signed(
        r.s1_bytes(),
        32 * eb * i,
        eb,
        eta,
    ) by {
        let o = 32 * eb * i;
        assert(o + 32 * eb <= 32 * eb * L && 0 <= o && sk_s_off(i, eb) == 128 + o)
            by (nonlinear_arith)
            requires
                0 <= i < L,
                eb >= 0,
                o == 32 * eb * i,
        ;
        assert(r.s1_bytes().subrange(o, o + 32 * eb) =~= sk.subrange(
            sk_s_off(i, eb),
            sk_s_off(i, eb) + 32 * eb,
        ));
    }
    assert forall|i: int| 0 <= i < K implies #[trigger] s2.v[i].coeffs@ == row_signed(
        r.s2_bytes(),
        32 * eb * i,
        eb,
        eta,
    ) by {
        let o = 32 * eb * i;
        assert(o + 32 * eb <= 32 * eb * K && 0 <= o) by (nonlinear_arith)
            requires
                0 <= i < K,
                eb >= 0,
                o == 32 * eb * i,
        ;
        assert(sk_s_off(L + i, eb) == e1 + o && e2 == e1 + 32 * eb * K) by (nonlinear_arith)
            requires
                e1 == 128 + 32 * eb * L,
                e2 == 128 + 32 * eb * (L + K),
                o == 32 * eb * i,
        ;
        assert(r.s2_bytes().subrange(o, o + 32 * eb) =~= sk.subrange(
            sk_s_off(L + i, eb),
            sk_s_off(L + i, eb) + 32 * eb,
        ));
    }
    assert forall|i: int| 0 <= i < K implies #[trigger] t0.v[i].coeffs@ == row_signed(
        r.t0_bytes(),
        416 * i,
        13,
        4096,
    ) by {
        assert(sk_t0_off(K + L, eb, i) == e2 + 416 * i) by (nonlinear_arith)
            requires
                e2 == 128 + 32 * eb * (L + K),
        ;
        assert(r.t0_bytes().subrange(416 * i, 416 * i + 416) =~= sk.subrange(
            sk_t0_off(K + L, eb, i),
            sk_t0_off(K + L, eb, i) + 416,
        ));
    }
}

/// Copy `n` bytes of `src` starting at `off` into a new array.
pub(crate) fn take_32(src: &[u8], off: usize) -> (r: [u8; 32])
    requires
        off + 32 <= src.len(),
    ensures
        r@ == src@.subrange(off as int, off + 32),
{
    let mut r = [0u8; 32];
    for k in 0..32
        invariant
            off + 32 <= src.len(),
            forall|j: int| 0 <= j < k ==> #[trigger] r@[j] == src@[off + j],
    {
        r[k] = src[off + k];
    }
    assert(r@ =~= src@.subrange(off as int, off + 32));
    r
}

pub(crate) fn take_64(src: &[u8], off: usize) -> (r: [u8; 64])
    requires
        off + 64 <= src.len(),
    ensures
        r@ == src@.subrange(off as int, off + 64),
{
    let mut r = [0u8; 64];
    for k in 0..64
        invariant
            off + 64 <= src.len(),
            forall|j: int| 0 <= j < k ==> #[trigger] r@[j] == src@[off + j],
    {
        r[k] = src[off + k];
    }
    assert(r@ =~= src@.subrange(off as int, off + 64));
    r
}

/// skDecode (FIPS 204 Alg 25): inverse of [`sk_encode`]. Fails iff `sk`
/// is not exactly `params.sk_bytes` long.
pub fn sk_decode<const K: usize, const L: usize>(params: &Params<K, L>, sk: &[u8]) -> (res: Result<
    ([u8; 32], [u8; 32], [u8; 64], PolyVec<u32, L>, PolyVec<u32, K>, PolyVec<u32, K>),
    EncodeError,
>)
    requires
        dsa_params_ok(*params),
    ensures
        res is Ok <==> sk.len() == params.sk_bytes,
        res matches Ok(t) ==> t.0@ == sk@.subrange(0, 32) && t.1@ == sk@.subrange(32, 64)
            && t.2@ == sk@.subrange(64, 128),
        res matches Ok(t) ==> sk_secret_rows(*params, sk@, t.3, t.4, t.5),
        res matches Err(e) ==> e == EncodeError::BufferTooSmall,
{
    if sk.len() != params.sk_bytes {
        return Err(EncodeError::BufferTooSmall);
    }
    let rho = take_32(sk, 0);
    let big_k = take_32(sk, 32);
    let tr = take_64(sk, 64);
    match decode_rows(params, sk) {
        Ok((s1, s2, t0)) => Ok((rho, big_k, tr, s1, s2, t0)),
        Err(e) => Err(e),
    }
}

/// Decoding an encoded secret key gives back the header and the
/// secret rows.
pub proof fn lemma_sk_roundtrip<const K: usize, const L: usize>(
    params: Params<K, L>,
    sk: Seq<u8>,
    rho: Seq<u8>,
    big_k: Seq<u8>,
    tr: Seq<u8>,
    s1: PolyVec<u32, L>,
    s2: PolyVec<u32, K>,
    t0: PolyVec<u32, K>,
)
    requires
        dsa_params_ok(params),
        sk_encodes(params, sk, rho, big_k, tr, s1, s2, t0),
        sk_secrets_fit(params, s1, s2, t0),
    ensures
        sk.subrange(0, 32) == rho,
        sk.subrange(32, 64) == big_k,
        sk.subrange(64, 128) == tr,
        sk_secret_rows(params, sk, s1, s2, t0),
{
    let eta = params.eta.spec_value() as int;
    let eb = bitlen_spec(2 * eta as nat);
    reveal_with_fuel(bitlen_spec, 5);
    assert(eb <= 4);
    assert forall|i: int| 0 <= i < L implies #[trigger] s1.v[i].coeffs@ == row_signed(
        sk,
        sk_s_off(i, eb),
        eb,
        eta,
    ) by {
        assert(offsets_fit(s1.v[i].coeffs@, eta, eb));
        lemma_row_signed_roundtrip(sk, sk_s_off(i, eb), eb, eta, s1.v[i].coeffs@);
    }
    assert forall|i: int| 0 <= i < K implies #[trigger] s2.v[i].coeffs@ == row_signed(
        sk,
        sk_s_off(L + i, eb),
        eb,
        eta,
    ) by {
        assert(offsets_fit(s2.v[i].coeffs@, eta, eb));
        lemma_row_signed_roundtrip(sk, sk_s_off(L + i, eb), eb, eta, s2.v[i].coeffs@);
    }
    assert forall|i: int| 0 <= i < K implies #[trigger] t0.v[i].coeffs@ == row_signed(
        sk,
        sk_t0_off(K + L, eb, i),
        13,
        4096,
    ) by {
        assert(offsets_fit(t0.v[i].coeffs@, 4096, 13));
        lemma_row_signed_roundtrip(sk, sk_t0_off(K + L, eb, i), 13, 4096, t0.v[i].coeffs@);
    }
}

/// Byte offset of the encoded hint inside a signature.
pub open spec fn sig_hint_off<const K: usize, const L: usize>(params: Params<K, L>) -> int {
    params.ctilde_bytes + L * 32 * (1 + params.gamma1_bits)
}

/// Subslice of `sig` covering the encoded hint (`omega + K` bytes).
pub fn sig_hint_slice<'a, const K: usize, const L: usize>(params: &Params<K, L>, sig: &'a [u8]) -> (r:
    &'a [u8])
    requires
        dsa_params_ok(*params),
        sig_hint_off(*params) + params.omega + K <= sig.len(),
    ensures
        r@ == sig@.subrange(sig_hint_off(*params), sig_hint_off(*params) + params.omega + K),
{
    let z_chunk = 32 * (1 + params.gamma1_bits);
    assert(L * z_chunk == L * 32 * (1 + params.gamma1_bits)) by (nonlinear_arith)
        requires
            z_chunk == 32 * (1 + params.gamma1_bits),
    ;
    assert(L * z_chunk <= 8 * 640) by (nonlinear_arith)
        requires
            z_chunk <= 640,
            L <= 8,
    ;
    let off = params.ctilde_bytes + L * z_chunk;
    &sig[off..off + params.omega + K]
}

/// Start of the `i`-th row's positions in an encoded hint.
pub open spec fn hint_start(h: Seq<u8>, omega: int, i: int) -> int {
    if i == 0 {
        0
    } else {
        h[omega + i - 1] as int
    }
}

/// End (exclusive) of the `i`-th row's positions in an encoded hint.
pub open spec fn hint_end(h: Seq<u8>, omega: int, i: int) -> int {
    h[omega + i] as int
}

/// The byte at `a` is greater than the one before it.
pub open spec fn rises_at(h: Seq<u8>, a: int) -> bool {
    h[a - 1] < h[a]
}

/// Row `i` of an encoded hint is well formed: its bounds are ordered
/// and at most `omega`, and its positions strictly increase.
pub open spec fn hint_row_ok(h: Seq<u8>, omega: int, i: int) -> bool {
    &&& hint_start(h, omega, i) <= hint_end(h, omega, i) <= omega
    &&& forall|a: int|
        hint_start(h, omega, i) < a < hint_end(h, omega, i) ==> #[trigger] rises_at(h, a)
}

/// FIPS 204 `HintBitUnpack` accepts `h`: the length is `omega + k`,
/// every row is well formed and the unused position bytes are zero.
pub open spec fn hint_valid(h: Seq<u8>, omega: int, k: int) -> bool {
    &&& h.len() == omega + k
    &&& forall|i: int| 0 <= i < k ==> #[trigger] hint_row_ok(h, omega, i)
    &&& forall|j: int| hint_start(h, omega, k) <= j < omega ==> #[trigger] h[j] == 0
}

/// The set positions of the `i`-th hint polynomial, in encoded order:
/// the bytes of `hint` between the row's start and end counters.
pub fn h_row_positions<'a, const K: usize>(hint: &'a [u8], omega: usize, i: usize) -> (r: &'a [u8])
    requires
        omega + i < hint.len(),
        hint_start(hint@, omega as int, i as int) <= hint_end(hint@, omega as int, i as int)
            <= hint.len(),
    ensures
        r@ == hint@.subrange(
            hint_start(hint@, omega as int, i as int),
            hint_end(hint@, omega as int, i as int),
        ),
{
    let start: usize = if i == 0 {
        0
    } else {
        hint[omega + i - 1] as usize
    };
    let end = hint[omega + i] as usize;
    &hint[start..end]
}

/// Total hint weight, read from the cumulative-count tail of the
/// encoded form.
pub fn h_weight<const K: usize>(hint: &[u8], omega: usize) -> (r: u32)
    requires
        K >= 1,
        omega + K <= hint.len(),
    ensures
        r == hint@[omega + K - 1],
{
    hint[omega + K - 1] as u32
}

/// The positions `hint[start..end]` are all below `N` and strictly
/// increase.
fn positions_increase(hint: &[u8], start: usize, end: usize) -> (r: bool)
    requires
        start <= end <= hint.len(),
    ensures
        r == (forall|a: int| start < a < end ==> #[trigger] rises_at(hint@, a)),
{
    let mut has_prev = false;
    let mut prev: u8 = 0;
    for p in start..end
        invariant
            start <= end <= hint.len(),
            has_prev <==> p > start,
            has_prev ==> prev == hint@[p - 1],
            forall|a: int| start < a < p ==> #[trigger] rises_at(hint@, a),
    {
        let pos = hint[p];
        if pos as usize >= N {
            return false;
        }
        if has_prev && pos <= prev {
            assert(!rises_at(hint@, p as int));
            return false;
        }
        has_prev = true;
        prev = pos;
    }
    true
}

/// FIPS 204 `HintBitUnpack` validity check, without decoding.
pub fn validate_hint_bytes<const K: usize>(hint: &[u8], omega: usize) -> (r: bool)
    requires
        omega + K <= usize::MAX,
    ensures
        r == hint_valid(hint@, omega as int, K as int),
{
    let ghost h = hint@;
    let ghost om = omega as int;
    if hint.len() != omega + K {
        return false;
    }
    let mut idx: usize = 0;
    for i in 0..K
        invariant
            h == hint@,
            om == omega,
            hint.len() == omega + K,
            idx == hint_start(h, om, i as int),
            idx <= omega,
            forall|ii: int| 0 <= ii < i ==> #[trigger] hint_row_ok(h, om, ii),
    {
        let end = hint[omega + i] as usize;
        if end < idx || end > omega {
            assert(!hint_row_ok(h, om, i as int));
            return false;
        }
        if !positions_increase(hint, idx, end) {
            assert(!hint_row_ok(h, om, i as int));
            return false;
        }
        assert(hint_row_ok(h, om, i as int));
        idx = end;
    }
    assert(idx == hint_start(h, om, K as int));
    for j in idx..omega
        invariant
            h == hint@,
            om == omega,
            hint.len() == omega + K,
            idx == hint_start(h, om, K as int),
            forall|ii: int| 0 <= ii < K ==> #[trigger] hint_row_ok(h, om, ii),
            forall|jj: int| idx <= jj < j ==> #[trigger] h[jj] == 0,
    {
        if hint[j] != 0 {
            return false;
        }
    }
    true
}

} // verus!

//! Little-endian bit packing of 256 `c`-bit values into `32 * c` bytes,
//! the common core of ML-DSA's SimpleBitPack / BitPack and ML-KEM's
//! ByteEncode (and of their inverses).
//!
//! The packed form is specified through integers: a byte string stands
//! for [`bytes_value`] (little-endian base 256) and a value list for
//! [`packed_value`] (little-endian base `2^c`). Packing makes the two
//! equal; unpacking reads the base-`2^c` [`digit`]s back.

use vstd::arithmetic::div_mod::*;
use vstd::arithmetic::mul::*;
use vstd::arithmetic::power2::*;
use vstd::bits::{lemma_u64_shl_is_mul, lemma_u64_shr_is_div, lemma_u64_low_bits_mask_is_mod};
use vstd::prelude::*;

use crate::encoding::EncodeError;
use crate::params::N;

verus! {

/// Little-endian value of the first `n` bytes of `s`.
pub open spec fn bytes_value(s: Seq<u8>, n: nat) -> nat
    decreases n,
{
    if n == 0 {
        0
    } else {
        bytes_value(s, (n - 1) as nat) + (s[n - 1] as nat) * pow2((8 * (n - 1)) as nat)
    }
}

/// Value of the first `n` entries of `v` read as base-`2^c` digits,
/// least significant first.
pub open spec fn packed_value(v: Seq<u32>, c: nat, n: nat) -> nat
    decreases n,
{
    if n == 0 {
        0
    } else {
        packed_value(v, c, (n - 1) as nat) + (v[n - 1] as nat) * pow2(c * (n - 1) as nat)
    }
}

/// The `i`-th base-`2^c` digit of `x`.
pub open spec fn digit(x: nat, c: nat, i: nat) -> nat {
    (x / pow2(c * i)) % pow2(c)
}

/// Every entry of `v` fits in `c` bits.
pub open spec fn fits(v: Seq<u32>, c: nat) -> bool {
    forall|i: int| 0 <= i < v.len() ==> (#[trigger] v[i] as nat) < pow2(c)
}

proof fn lemma_or_shift_is_add(a: u64, x: u64, b: u64)
    requires
        b < 8,
        x < 0x100_0000,
        a < (1u64 << b),
    ensures
        a | (x << b) == a + (x << b),
        x << b < 0x8000_0000,
{
    assert(a | (x << b) == a + (x << b)) by (bit_vector)
        requires
            b < 8,
            x < 0x100_0000,
            a < (1u64 << b),
    ;
    assert(x << b < 0x8000_0000) by (bit_vector)
        requires
            b < 8,
            x < 0x100_0000,
    ;
}

proof fn lemma_low_byte(a: u64)
    ensures
        (a as u8) as nat == a % 256,
        a & 0xFF == a % 256,
{
    assert((a as u8) as nat == a % 256) by (bit_vector);
    assert(a & 0xFF == a % 256) by (bit_vector);
}

/// `bytes_value` only looks at the first `n` bytes.
pub proof fn lemma_bytes_value_frame(s1: Seq<u8>, s2: Seq<u8>, n: nat)
    requires
        n <= s1.len(),
        n <= s2.len(),
        forall|k: int| 0 <= k < n ==> s1[k] == s2[k],
    ensures
        bytes_value(s1, n) == bytes_value(s2, n),
    decreases n,
{
    if n > 0 {
        lemma_bytes_value_frame(s1, s2, (n - 1) as nat);
    }
}

/// `(x + y * 2^a) / 2^b mod 2^c == x / 2^b mod 2^c` when `b + c <= a`.
pub proof fn lemma_high_part_invisible(x: nat, y: nat, a: nat, b: nat, c: nat)
    requires
        b + c <= a,
    ensures
        ((x + y * pow2(a)) / pow2(b)) % pow2(c) == (x / pow2(b)) % pow2(c),
{
    let k = (a - b - c) as nat;
    lemma_pow2_adds(b, c);
    lemma_pow2_adds(b + c, k);
    lemma_pow2_pos(b);
    lemma_pow2_pos(c);
    lemma_pow2_pos(k);
    let m = y * pow2(k) * pow2(c);
    assert(y * pow2(a) == m * pow2(b)) by {
        assert(pow2(a) == pow2(b) * pow2(c) * pow2(k));
        lemma_mul_is_associative(y as int, pow2(k) as int, pow2(c) as int);
        assert(y * (pow2(b) * pow2(c) * pow2(k)) == (y * pow2(k) * pow2(c)) * pow2(b))
            by (nonlinear_arith);
    }
    lemma_hoist_over_denominator(x as int, m as int, pow2(b));
    assert(m == pow2(c) * (y * pow2(k))) by (nonlinear_arith)
        requires
            m == y * pow2(k) * pow2(c),
    ;
    lemma_mod_multiples_vanish((y * pow2(k)) as int, (x / pow2(b)) as int, pow2(c) as int);
}

/// `(x + y * 2^b) / 2^b == y` when `x < 2^b`.
proof fn lemma_div_exact_top(x: nat, y: nat, b: nat)
    requires
        x < pow2(b),
    ensures
        (x + y * pow2(b)) / pow2(b) == y,
{
    lemma_pow2_pos(b);
    lemma_hoist_over_denominator(x as int, y as int, pow2(b));
    lemma_small_div_local(x, pow2(b));
}

proof fn lemma_small_div_local(x: nat, d: nat)
    requires
        x < d,
    ensures
        x / d == 0,
{
    lemma_basic_div(x as int, d as int);
}

/// Digits beyond the first `m` do not change the low `e <= c m` bits.
#[verifier::spinoff_prover]
proof fn lemma_packed_prefix_mod(v: Seq<u32>, c: nat, m: nat, n: nat, e: nat)
    requires
        m <= n,
        e <= c * m,
    ensures
        packed_value(v, c, n) % pow2(e) == packed_value(v, c, m) % pow2(e),
    decreases n,
{
    if n > m {
        let k = (n - 1) as nat;
        lemma_packed_prefix_mod(v, c, m, k, e);
        assert(c * m <= c * k) by (nonlinear_arith)
            requires
                m <= k,
        ;
        let d = (c * k - e) as nat;
        lemma_pow2_adds(e, d);
        lemma_pow2_pos(e);
        let ki = k as int;
        let t = (v[ki] as nat) * pow2(d);
        assert((v[ki] as nat) * pow2(c * k) == t * pow2(e)) by {
            assert(pow2(c * k) == pow2(e) * pow2(d));
            lemma_mul_is_associative(v[ki] as int, pow2(d) as int, pow2(e) as int);
            assert(pow2(e) * pow2(d) == pow2(d) * pow2(e)) by (nonlinear_arith);
        }
        lemma_mod_multiples_vanish(t as int, packed_value(v, c, k) as int, pow2(e) as int);
        assert(t * pow2(e) + packed_value(v, c, k) == packed_value(v, c, k) + t * pow2(e));
    }
}

/// A prefix of packed digits is below `2^(c n)`.
pub proof fn lemma_packed_value_bound(v: Seq<u32>, c: nat, n: nat)
    requires
        n <= v.len(),
        fits(v, c),
    ensures
        packed_value(v, c, n) < pow2(c * n),
    decreases n,
{
    if n == 0 {
        lemma2_to64();
    } else {
        let m = (n - 1) as nat;
        lemma_packed_value_bound(v, c, m);
        assert(c * n == c * m + c) by (nonlinear_arith)
            requires
                m == n - 1,
        ;
        lemma_pow2_adds(c * m, c);
        assert(pow2(c * n) == pow2(c * m + c));
        let d = v[m as int] as nat;
        let pm = pow2(c * m);
        let pc = pow2(c);
        let pv = packed_value(v, c, n);
        let pvm = packed_value(v, c, m);
        assert(d < pc);
        assert(pv == pvm + d * pm);
        assert(pvm < pm);
        assert(pow2(c * n) == pm * pc);
        assert(pv < pm * pc) by (nonlinear_arith)
            requires
                pv == pvm + d * pm,
                pvm < pm,
                d < pc,
                d >= 0,
                pm > 0,
        ;
    }
}

/// The `i`-th digit of a packed value is the `i`-th packed entry.
pub proof fn lemma_digit_of_packed(v: Seq<u32>, c: nat, n: nat, i: nat)
    requires
        i < n <= v.len(),
        fits(v, c),
    ensures
        digit(packed_value(v, c, n), c, i) == v[i as int],
    decreases n,
{
    let m = (n - 1) as nat;
    if m == i {
        lemma_packed_value_bound(v, c, i);
        lemma_div_exact_top(packed_value(v, c, i), v[i as int] as nat, c * i);
        lemma_small_mod(v[i as int] as nat, pow2(c));
    } else {
        lemma_digit_of_packed(v, c, m, i);
        assert(c * i + c <= c * m) by (nonlinear_arith)
            requires
                i < m,
        ;
        lemma_high_part_invisible(packed_value(v, c, m), v[m as int] as nat, c * m, c * i, c);
    }
}

/// The bytes of `s` as `u32` digits.
spec fn bytes_as_digits(s: Seq<u8>) -> Seq<u32> {
    Seq::new(s.len(), |i: int| s[i] as u32)
}

proof fn lemma_bytes_value_is_packed(s: Seq<u8>, n: nat)
    requires
        n <= s.len(),
    ensures
        bytes_value(s, n) == packed_value(bytes_as_digits(s), 8, n),
    decreases n,
{
    if n > 0 {
        lemma_bytes_value_is_packed(s, (n - 1) as nat);
    }
}

/// The little-endian value of `n` bytes is below `2^(8 n)`.
pub proof fn lemma_bytes_value_bound(s: Seq<u8>, n: nat)
    requires
        n <= s.len(),
    ensures
        bytes_value(s, n) < pow2(8 * n),
{
    lemma_bytes_value_is_packed(s, n);
    lemma2_to64();
    let v = bytes_as_digits(s);
    assert(fits(v, 8)) by {
        assert forall|i: int| 0 <= i < v.len() implies (#[trigger] v[i] as nat) < pow2(8) by {
            assert(v[i] == s[i] as u32);
        }
    }
    lemma_packed_value_bound(v, 8, n);
}

/// Packing the base-`2^c` digits of `x` gives back `x mod 2^(c m)`.
#[verifier::spinoff_prover]
pub proof fn lemma_repack_digits(x: nat, c: nat, n: nat, m: nat)
    requires
        1 <= c <= 24,
        m <= n,
    ensures
        packed_value(Seq::new(n, |j: int| digit(x, c, j as nat) as u32), c, m) == x % pow2(c * m),
    decreases m,
{
    let v = Seq::new(n, |j: int| digit(x, c, j as nat) as u32);
    if m == 0 {
        lemma2_to64();
        lemma_small_mod(0, 1);
        assert(x % 1 == 0);
    } else {
        let m1 = (m - 1) as nat;
        lemma_repack_digits(x, c, n, m1);
        let pm = pow2(c * m1);
        let pc = pow2(c);
        lemma_pow2_pos(c * m1);
        lemma_pow2_pos(c);
        assert(c * m == c * m1 + c) by (nonlinear_arith)
            requires
                m1 == m - 1,
        ;
        lemma_pow2_adds(c * m1, c);
        lemma_pow2_strictly_increases(c, 25);
        lemma2_to64();
        lemma_mod_bound((x / pm) as int, pc as int);
        assert(digit(x, c, m1) < 0x1_0000_0000);
        assert(v[m1 as int] as nat == digit(x, c, m1));
        lemma_mod_breakdown(x as int, pm as int, pc as int);
        assert(x % (pm * pc) == pm * ((x / pm) % pc) + x % pm);
        assert(pm * ((x / pm) % pc) == ((x / pm) % pc) * pm) by (nonlinear_arith);
    }
}

/// Byte `k` of `s` is the `k`-th base-256 digit of its little-endian
/// value.
pub proof fn lemma_byte_of_bytes_value(s: Seq<u8>, n: nat, k: nat)
    requires
        k < n <= s.len(),
    ensures
        digit(bytes_value(s, n), 8, k) == s[k as int],
{
    lemma_bytes_value_is_packed(s, n);
    lemma2_to64();
    let v = bytes_as_digits(s);
    assert(fits(v, 8)) by {
        assert forall|i: int| 0 <= i < v.len() implies (#[trigger] v[i] as nat) < pow2(8) by {
            assert(v[i] == s[i] as u32);
        }
    }
    lemma_digit_of_packed(v, 8, n, k);
}

/// Two byte strings with the same little-endian value over their first
/// `n` bytes agree on those bytes.
pub proof fn lemma_bytes_value_injective(s1: Seq<u8>, s2: Seq<u8>, n: nat)
    requires
        n <= s1.len(),
        n <= s2.len(),
        bytes_value(s1, n) == bytes_value(s2, n),
    ensures
        s1.subrange(0, n as int) == s2.subrange(0, n as int),
{
    assert forall|k: int| 0 <= k < n implies s1[k] == s2[k] by {
        lemma_byte_of_bytes_value(s1, n, k as nat);
        lemma_byte_of_bytes_value(s2, n, k as nat);
    }
    assert(s1.subrange(0, n as int) =~= s2.subrange(0, n as int));
}

/// Digits below the first `8 n1` bits do not change when more bytes are
/// read.
pub proof fn lemma_digit_stable(s: Seq<u8>, n1: nat, n2: nat, c: nat, i: nat)
    requires
        n1 <= n2,
        c * i + c <= 8 * n1,
    ensures
        digit(bytes_value(s, n2), c, i) == digit(bytes_value(s, n1), c, i),
    decreases n2,
{
    if n2 > n1 {
        let m = (n2 - 1) as nat;
        lemma_digit_stable(s, n1, m, c, i);
        lemma_high_part_invisible(bytes_value(s, m), s[m as int] as nat, 8 * m, c * i, c);
    }
}

/// Packing followed by unpacking gives back every entry.
pub proof fn lemma_pack_unpack_roundtrip(v: Seq<u32>, c: nat, i: nat)
    requires
        i < v.len(),
        fits(v, c),
    ensures
        digit(packed_value(v, c, v.len()), c, i) == v[i as int],
{
    lemma_digit_of_packed(v, c, v.len(), i);
}

/// Pack 256 `c`-bit values into `32 * c` little-endian bytes. The
/// buffer is zeroed first; succeeds iff it holds at least `32 * c`
/// bytes.
#[verifier::spinoff_prover]
pub fn pack_bits(vals: &[u32; N], c_bits: usize, out: &mut [u8]) -> (res: Result<(), EncodeError>)
    requires
        1 <= c_bits <= 24,
        fits(vals@, c_bits as nat),
    ensures
        final(out).len() == old(out).len(),
        res is Ok <==> old(out).len() >= 32 * c_bits,
        res is Ok ==> bytes_value(final(out)@, (32 * c_bits) as nat) == packed_value(
            vals@,
            c_bits as nat,
            N as nat,
        ),
        res is Ok ==> forall|k: int| 32 * c_bits <= k < final(out).len() ==> #[trigger] final(out)@[k]
            == 0,
        res is Err ==> bytes_value(final(out)@, old(out).len() as nat) == packed_value(
            vals@,
            c_bits as nat,
            N as nat,
        ) % pow2(8 * old(out).len() as nat),
        res matches Err(e) ==> e == EncodeError::BufferTooSmall,
{
    let ghost c = c_bits as nat;
    let len = out.len();
    for z in 0..len
        invariant
            out.len() == len,
            forall|k: int| 0 <= k < z ==> #[trigger] out@[k] == 0,
    {
        out[z] = 0;
    }
    let mut acc: u64 = 0;
    let mut bits_in_acc: u32 = 0;
    let mut byte_idx: usize = 0;
    proof {
        lemma2_to64();
        assert(c * 0 == 0);
    }
    for j in 0..N
        invariant
            1 <= c_bits <= 24,
            c == c_bits as nat,
            fits(vals@, c),
            out.len() == len,
            len == old(out).len(),
            bits_in_acc < 8,
            8 * byte_idx + bits_in_acc == c * j,
            acc < pow2(bits_in_acc as nat),
            bytes_value(out@, byte_idx as nat) + acc * pow2(8 * byte_idx as nat) == packed_value(
                vals@,
                c,
                j as nat,
            ),
            byte_idx <= len,
            forall|k: int| byte_idx <= k < len ==> #[trigger] out@[k] == 0,
    {
        let coef = vals[j];
        proof {
            assert(coef < pow2(c));
            lemma_pow2_le_24(c);
            lemma2_to64();
            lemma_u64_shl_is_mul(1, bits_in_acc as u64);
            lemma_pow2_strictly_increases(bits_in_acc as nat, 8);
            lemma_mul_upper_bound(coef as int, pow2(24) as int, pow2(bits_in_acc as nat) as int, pow2(8) as int);
            lemma_u64_shl_is_mul(coef as u64, bits_in_acc as u64);
            lemma_or_shift_is_add(acc, coef as u64, bits_in_acc as u64);
        }
        let ghost old_acc = acc;
        let ghost old_bits = bits_in_acc;
        acc = acc | ((coef as u64) << (bits_in_acc as u64));
        bits_in_acc = bits_in_acc + c_bits as u32;
        proof {
            // acc == old_acc + coef * 2^old_bits < 2^(old_bits + c)
            assert(acc == old_acc + coef * pow2(old_bits as nat));
            lemma_pow2_adds(old_bits as nat, c);
            lemma_pow2_adds(8 * byte_idx as nat, old_bits as nat);
            assert(acc < pow2(bits_in_acc as nat)) by {
                assert(coef + 1 <= pow2(c));
                lemma_mul_inequality((coef + 1) as int, pow2(c) as int, pow2(old_bits as nat) as int);
                assert((coef + 1) * pow2(old_bits as nat) == coef * pow2(old_bits as nat) + pow2(
                    old_bits as nat,
                )) by (nonlinear_arith);
                assert(pow2(c) * pow2(old_bits as nat) == pow2(old_bits as nat) * pow2(c))
                    by (nonlinear_arith);
            }
            assert(packed_value(vals@, c, (j + 1) as nat) == packed_value(vals@, c, j as nat)
                + coef * pow2(c * j as nat));
            assert(coef * pow2(c * j as nat) == coef * pow2(old_bits as nat) * pow2(
                8 * byte_idx as nat,
            )) by {
                assert(c * j == 8 * byte_idx + old_bits);
                assert(pow2(c * j as nat) == pow2(8 * byte_idx as nat) * pow2(old_bits as nat));
                lemma_mul_is_associative(
                    coef as int,
                    pow2(old_bits as nat) as int,
                    pow2(8 * byte_idx as nat) as int,
                );
                assert(pow2(8 * byte_idx as nat) * pow2(old_bits as nat) == pow2(old_bits as nat)
                    * pow2(8 * byte_idx as nat)) by (nonlinear_arith);
            }
            lemma_mul_is_distributive_add_other_way(
                pow2(8 * byte_idx as nat) as int,
                old_acc as int,
                (coef * pow2(old_bits as nat)) as int,
            );
            assert(8 * byte_idx + bits_in_acc == c * (j + 1)) by (nonlinear_arith)
                requires
                    8 * byte_idx + old_bits == c * j,
                    bits_in_acc == old_bits + c,
            ;
        }
        while bits_in_acc >= 8
            invariant
                1 <= c_bits <= 24,
                c == c_bits as nat,
                fits(vals@, c),
                out.len() == len,
                len == old(out).len(),
                bits_in_acc < 32,
                j < N,
                8 * byte_idx + bits_in_acc == c * (j + 1),
                acc < pow2(bits_in_acc as nat),
                bytes_value(out@, byte_idx as nat) + acc * pow2(8 * byte_idx as nat)
                    == packed_value(vals@, c, (j + 1) as nat),
                byte_idx <= len,
                forall|k: int| byte_idx <= k < len ==> #[trigger] out@[k] == 0,
            decreases bits_in_acc,
        {
            proof {
                assert(c * (j + 1) <= c * 256) by (nonlinear_arith)
                    requires
                        j < 256,
                ;
            }
            if byte_idx >= out.len() {
                proof {
                    assert(len < 32 * c_bits);
                    // Everything written so far is the low `8 len` bits of the encoding.
                    assert(byte_idx == len);
                    let pp = pow2(8 * len as nat);
                    let bv = bytes_value(out@, len as nat);
                    let pj = packed_value(vals@, c, (j + 1) as nat);
                    let pn = packed_value(vals@, c, N as nat);
                    assert(bv + acc * pp == pj);
                    assert(8 * len <= c * (j + 1));
                    lemma_bytes_value_bound(out@, len as nat);
                    lemma_packed_prefix_mod(vals@, c, (j + 1) as nat, N as nat, 8 * len as nat);
                    assert(pn % pp == pj % pp);
                    lemma_pow2_pos(8 * len as nat);
                    lemma_mod_multiples_vanish(acc as int, bv as int, pp as int);
                    assert(pp * acc == acc * pp) by (nonlinear_arith);
                    assert(pj == pp * acc + bv);
                    lemma_small_mod(bv, pp);
                    assert(pj % pp == bv);
                    assert(bytes_value(out@, old(out).len() as nat) == pn % pp);
                }
                return Err(EncodeError::BufferTooSmall);
            }
            let ghost prev = out@;
            let ghost old_acc = acc;
            let ghost old_bits = bits_in_acc;
            proof {
                lemma_low_byte(acc);
                lemma_u64_shr_is_div(acc, 8);
                lemma2_to64();
            }
            out[byte_idx] = acc as u8;
            acc = acc >> 8u64;
            bits_in_acc = bits_in_acc - 8;
            proof {
                let b = old_acc % 256;
                let p = pow2(8 * byte_idx as nat);
                lemma_bytes_value_frame(prev, out@, byte_idx as nat);
                assert(bytes_value(out@, (byte_idx + 1) as nat) == bytes_value(
                    out@,
                    byte_idx as nat,
                ) + b * p);
                lemma_fundamental_div_mod(old_acc as int, 256);
                assert(8 * (byte_idx + 1) == 8 * byte_idx + 8);
                lemma_pow2_adds(8 * byte_idx as nat, 8);
                assert(acc * pow2((8 * (byte_idx + 1)) as nat) == (acc * 256) * p) by {
                    lemma_mul_is_associative(acc as int, 256, p as int);
                    assert(pow2((8 * (byte_idx + 1)) as nat) == p * 256);
                    assert(p * 256 == 256 * p) by (nonlinear_arith);
                }
                assert(old_acc == acc * 256 + b);
                lemma_mul_is_distributive_add_other_way(p as int, (acc * 256) as int, b as int);
                lemma_pow2_adds(bits_in_acc as nat, 8);
                assert(acc < pow2(bits_in_acc as nat)) by {
                    lemma_div_strict_upper(old_acc as nat, pow2(bits_in_acc as nat));
                }
            }
            byte_idx = byte_idx + 1;
        }
    }
    if bits_in_acc > 0 {
        // 256 * c is a multiple of 8, so no partial byte is ever left.
        proof {
            assert(false) by (nonlinear_arith)
                requires
                    8 * byte_idx + bits_in_acc == c * 256,
                    0 < bits_in_acc < 8,
            ;
        }
        if byte_idx >= out.len() {
            return Err(EncodeError::BufferTooSmall);
        }
        out[byte_idx] = acc as u8;
    }
    proof {
        assert(byte_idx == 32 * c_bits);
        assert(acc == 0) by {
            lemma2_to64();
        }
        assert(acc * pow2(8 * byte_idx as nat) == 0);
    }
    Ok(())
}

proof fn lemma_div_strict_upper(x: nat, d: nat)
    requires
        x < d * 256,
        d > 0,
    ensures
        x / 256 < d,
{
    lemma_div_is_ordered(x as int, (d * 256 - 1) as int, 256);
    assert((d * 256 - 1) / 256 == d - 1) by {
        lemma_fundamental_div_mod_converse((d * 256 - 1) as int, 256, (d - 1) as int, 255);
    }
}

/// Unpack 256 `c`-bit values from little-endian bytes (inverse of
/// [`pack_bits`]). Succeeds iff at least `32 * c` bytes are given.
#[verifier::spinoff_prover]
pub fn unpack_bits(bytes: &[u8], c_bits: usize) -> (res: Result<[u32; N], EncodeError>)
    requires
        1 <= c_bits <= 24,
    ensures
        res is Ok <==> bytes.len() >= 32 * c_bits,
        res matches Ok(v) ==> forall|i: int|
            0 <= i < N ==> #[trigger] v[i] as nat == digit(
                bytes_value(bytes@, (32 * c_bits) as nat),
                c_bits as nat,
                i as nat,
            ),
        res matches Ok(v) ==> fits(v@, c_bits as nat),
        res matches Err(e) ==> e == EncodeError::BufferTooSmall,
{
    let ghost c = c_bits as nat;
    let mut out = [0u32; N];
    proof {
        lemma2_to64();
        lemma_pow2_le_24(c);
        lemma_u64_shl_is_mul(1, c_bits as u64);
    }
    let mask: u64 = (1u64 << (c_bits as u64)) - 1;
    proof {
        assert(mask == vstd::bits::low_bits_mask(c)) by {
            vstd::bits::lemma_low_bits_mask_values();
            lemma_low_bits_mask_is_pow2_minus_one(c);
        }
    }
    let mut acc: u64 = 0;
    let mut bits_in_acc: u32 = 0;
    let mut byte_idx: usize = 0;
    proof {
        assert(c * 0 == 0);
        assert(pow2(0) == 1) by {
            lemma2_to64();
        }
        assert(bytes_value(bytes@, 0) == 0);
    }
    for j in 0..N
        invariant
            1 <= c_bits <= 24,
            c == c_bits as nat,
            mask == vstd::bits::low_bits_mask(c),
            mask + 1 == pow2(c),
            pow2(c) <= 0x100_0000,
            bits_in_acc < 8,
            8 * byte_idx == c * j + bits_in_acc,
            byte_idx <= bytes.len(),
            acc == bytes_value(bytes@, byte_idx as nat) / pow2(c * j as nat),
            acc < pow2(bits_in_acc as nat),
            forall|i: int|
                0 <= i < j ==> #[trigger] out[i] as nat == digit(
                    bytes_value(bytes@, byte_idx as nat),
                    c,
                    i as nat,
                ),
            forall|i: int| 0 <= i < j ==> (#[trigger] out[i] as nat) < pow2(c),
    {
        while bits_in_acc < c_bits as u32
            invariant
                1 <= c_bits <= 24,
                c == c_bits as nat,
                j < N,
                bits_in_acc < c + 8,
                8 * byte_idx == c * j + bits_in_acc,
                byte_idx <= bytes.len(),
                acc == bytes_value(bytes@, byte_idx as nat) / pow2(c * j as nat),
                acc < pow2(bits_in_acc as nat),
                forall|i: int|
                    0 <= i < j ==> #[trigger] out[i] as nat == digit(
                        bytes_value(bytes@, byte_idx as nat),
                        c,
                        i as nat,
                    ),
            decreases c + 8 - bits_in_acc,
        {
            proof {
                assert(c * j + c <= c * 256) by (nonlinear_arith)
                    requires
                        j < 256,
                ;
            }
            if byte_idx >= bytes.len() {
                return Err(EncodeError::BufferTooSmall);
            }
            let byte = bytes[byte_idx];
            proof {
                lemma2_to64();
                lemma_pow2_strictly_increases(bits_in_acc as nat, 31);
                lemma_u64_shl_is_mul(1, bits_in_acc as u64);
                assert(byte < 256);
                lemma_mul_upper_bound(byte as int, 256, pow2(bits_in_acc as nat) as int, pow2(31) as int);
                lemma_u64_shl_is_mul(byte as u64, bits_in_acc as u64);
                lemma_or_shift_is_add_wide(acc, byte as u64, bits_in_acc as u64);
            }
            let ghost old_acc = acc;
            let ghost old_bits = bits_in_acc;
            acc = acc | ((byte as u64) << (bits_in_acc as u64));
            byte_idx = byte_idx + 1;
            bits_in_acc = bits_in_acc + 8;
            proof {
                let bi = (byte_idx - 1) as nat;
                let cj = c * j as nat;
                let bv = bytes_value(bytes@, bi);
                // bytes_value grows by byte * 2^(8 bi) = byte * 2^(cj + old_bits)
                assert(bytes_value(bytes@, byte_idx as nat) == bv + byte * pow2(8 * bi));
                assert(8 * bi == cj + old_bits);
                lemma_pow2_adds(cj, old_bits as nat);
                assert(byte * pow2(8 * bi) == (byte * pow2(old_bits as nat)) * pow2(cj)) by {
                    lemma_mul_is_associative(
                        byte as int,
                        pow2(old_bits as nat) as int,
                        pow2(cj) as int,
                    );
                    assert(pow2(cj) * pow2(old_bits as nat) == pow2(old_bits as nat) * pow2(cj))
                        by (nonlinear_arith);
                }
                lemma_pow2_pos(cj);
                lemma_hoist_over_denominator(
                    bv as int,
                    (byte * pow2(old_bits as nat)) as int,
                    pow2(cj),
                );
                assert(acc == old_acc + byte * pow2(old_bits as nat));
                lemma_pow2_adds(old_bits as nat, 8);
                assert(acc < pow2(bits_in_acc as nat)) by {
                    assert(byte + 1 <= 256);
                    lemma_mul_inequality(
                        (byte + 1) as int,
                        256,
                        pow2(old_bits as nat) as int,
                    );
                    assert((byte + 1) * pow2(old_bits as nat) == byte * pow2(old_bits as nat)
                        + pow2(old_bits as nat)) by (nonlinear_arith);
                    assert(256 * pow2(old_bits as nat) == pow2(old_bits as nat) * 256)
                        by (nonlinear_arith);
                }
                assert forall|i: int| 0 <= i < j implies #[trigger] out[i] as nat == digit(
                    bytes_value(bytes@, byte_idx as nat),
                    c,
                    i as nat,
                ) by {
                    assert(c * i + c <= c * j) by (nonlinear_arith)
                        requires
                            i < j,
                    ;
                    lemma_digit_stable(bytes@, bi, byte_idx as nat, c, i as nat);
                }
            }
        }
        let ghost old_acc = acc;
        proof {
            vstd::bits::lemma_u64_low_bits_mask_is_mod(acc, c);
            lemma_u64_shr_is_div(acc, c_bits as u64);
            lemma_mod_bound(acc as int, pow2(c) as int);
        }
        let ghost pc = pow2(c);
        assert((pc as u64) as nat == pc);
        assert(acc & mask == acc % (pc as u64));
        assert(acc % (pc as u64) < pc);
        out[j] = (acc & mask) as u32;
        assert(out[j as int] as nat == (acc as nat) % pc);
        acc = acc >> (c_bits as u64);
        bits_in_acc = bits_in_acc - c_bits as u32;
        proof {
            let bv = bytes_value(bytes@, byte_idx as nat);
            let cj = c * j as nat;
            // out[j] == (bv / 2^cj) % 2^c
            assert(out[j as int] as nat == digit(bv, c, j as nat));
            // acc == bv / 2^(c(j+1))
            lemma_pow2_pos(cj);
            lemma_pow2_pos(c);
            lemma_div_denominator(bv as int, pow2(cj) as int, pow2(c) as int);
            lemma_pow2_adds(cj, c);
            assert(c * (j + 1) == cj + c) by (nonlinear_arith)
                requires
                    cj == c * j,
            ;
            assert(acc == bv / pow2(c * (j + 1) as nat));
            lemma_pow2_adds(bits_in_acc as nat, c);
            assert(acc < pow2(bits_in_acc as nat)) by {
                lemma_div_strict_upper_general(old_acc as nat, pow2(bits_in_acc as nat), pow2(c));
            }
        }
    }
    proof {
        assert(8 * byte_idx == c * 256 + bits_in_acc);
        assert(bits_in_acc == 0) by (nonlinear_arith)
            requires
                8 * byte_idx == c * 256 + bits_in_acc,
                bits_in_acc < 8,
        ;
        assert(byte_idx == 32 * c_bits);
    }
    Ok(out)
}

proof fn lemma_div_strict_upper_general(x: nat, d: nat, e: nat)
    requires
        x < d * e,
        e > 0,
        d > 0,
    ensures
        x / e < d,
{
    lemma_div_is_ordered(x as int, (d * e - 1) as int, e as int);
    assert((d * e - 1) / (e as int) == d - 1) by {
        assert(d * e - 1 == e * (d - 1) + (e - 1)) by (nonlinear_arith)
            requires
                d > 0,
                e > 0,
        ;
        lemma_fundamental_div_mod_converse((d * e - 1) as int, e as int, (d - 1) as int, (e - 1) as int);
    }
}

/// `low_bits_mask(c) == 2^c - 1`.
pub proof fn lemma_low_bits_mask_is_pow2_minus_one(c: nat)
    ensures
        vstd::bits::low_bits_mask(c) == pow2(c) - 1,
    decreases c,
{
    if c == 0 {
        vstd::bits::lemma_low_bits_mask_values();
        lemma2_to64();
    } else {
        vstd::bits::lemma_low_bits_mask_unfold(c);
        lemma_low_bits_mask_is_pow2_minus_one((c - 1) as nat);
        lemma_pow2_unfold(c);
    }
}

/// `2^c <= 2^24` for `c <= 24`.
proof fn lemma_pow2_le_24(c: nat)
    requires
        c <= 24,
    ensures
        pow2(c) <= 0x100_0000,
{
    lemma2_to64();
    if c < 24 {
        lemma_pow2_strictly_increases(c, 24);
    }
}

proof fn lemma_or_shift_is_add_wide(a: u64, x: u64, b: u64)
    requires
        b < 31,
        x < 256,
        a < (1u64 << b),
    ensures
        a | (x << b) == a + (x << b),
{
    assert(a | (x << b) == a + (x << b)) by (bit_vector)
        requires
            b < 31,
            x < 256,
            a < (1u64 << b),
    ;
}

} // verus!

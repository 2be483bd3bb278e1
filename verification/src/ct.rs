//! Facts about the branchless mask idioms used throughout the crate
//! (`x >> 31` as a sign bit, `0 - bit` as an all-ones mask, and the
//! `(x & m) | (y & !m)` blend).

use vstd::prelude::*;

verus! {

/// The all-ones / all-zeros mask derived from a bit.
pub open spec fn mask_of(bit: u32) -> u32 {
    if bit == 1 { 0xFFFF_FFFFu32 } else { 0u32 }
}

/// Top bit of a `u32`.
pub proof fn lemma_msb(x: u32)
    ensures
        x >> 31u32 == (if x >= 0x8000_0000 { 1u32 } else { 0u32 }),
{
    assert(x >> 31u32 == (if x >= 0x8000_0000 { 1u32 } else { 0u32 })) by (bit_vector);
}

/// `0 - bit` is the mask for a bit in `{0, 1}`.
pub proof fn lemma_neg_bit(bit: u32)
    requires
        bit <= 1,
    ensures
        0u32.wrapping_sub(bit) == mask_of(bit),
{
}

/// Blending through a mask picks one of the two operands.
pub proof fn lemma_blend(x: u32, y: u32, m: u32)
    requires
        m == 0 || m == 0xFFFF_FFFFu32,
    ensures
        (x & m) | (y & !m) == (if m == 0xFFFF_FFFFu32 { x } else { y }),
        (x & !m) | (y & m) == (if m == 0xFFFF_FFFFu32 { y } else { x }),
        x & m == (if m == 0xFFFF_FFFFu32 { x } else { 0u32 }),
        x & !m == (if m == 0xFFFF_FFFFu32 { 0u32 } else { x }),
{
    assert((x & m) | (y & !m) == (if m == 0xFFFF_FFFFu32 { x } else { y }) && (x & !m) | (y
        & m) == (if m == 0xFFFF_FFFFu32 { y } else { x }) && x & m == (if m == 0xFFFF_FFFFu32 {
        x
    } else {
        0u32
    }) && x & !m == (if m == 0xFFFF_FFFFu32 { 0u32 } else { x })) by (bit_vector)
        requires
            m == 0 || m == 0xFFFF_FFFFu32,
    ;
}

/// Sign bit of a wrapped difference of two values below `2^31`.
pub proof fn lemma_lt_bit(a: u32, b: u32)
    requires
        a < 0x8000_0000,
        b < 0x8000_0000,
    ensures
        a.wrapping_sub(b) >> 31u32 == (if a < b { 1u32 } else { 0u32 }),
        (a.wrapping_sub(b) >> 31u32) & 1u32 == (if a < b { 1u32 } else { 0u32 }),
        (a.wrapping_sub(b) >> 31u32) ^ 1u32 == (if a >= b { 1u32 } else { 0u32 }),
        ((a.wrapping_sub(b) >> 31u32) ^ 1u32) & 1u32 == (if a >= b { 1u32 } else { 0u32 }),
{
    lemma_msb(a.wrapping_sub(b));
    lemma_bit_flags(a.wrapping_sub(b) >> 31u32);
}

/// `&1` keeps a bit and `^1` flips it.
proof fn lemma_bit_flags(x: u32)
    requires
        x <= 1,
    ensures
        x & 1u32 == x,
        x ^ 1u32 == 1 - x,
        (x ^ 1u32) & 1u32 == 1 - x,
{
    assert(x & 1u32 == x && x ^ 1u32 == 1 - x && (x ^ 1u32) & 1u32 == 1 - x) by (bit_vector)
        requires
            x <= 1,
    ;
}

/// `(x | -x) >> 31` is 1 exactly when `x` is nonzero.
pub proof fn lemma_nonzero_bit(x: u32)
    ensures
        (x | 0u32.wrapping_sub(x)) >> 31u32 == (if x != 0 { 1u32 } else { 0u32 }),
{
    let y = 0u32.wrapping_sub(x);
    assert(y == (if x == 0 { 0u32 } else { (0x1_0000_0000 - x) as u32 }));
    assert((x | ((if x == 0 { 0u32 } else { (0x1_0000_0000 - x) as u32 }))) >> 31u32 == (if x
        != 0 { 1u32 } else { 0u32 })) by (bit_vector);
}

/// Accumulates `a[k] ^ b[off + k]` for `k < n` into `diff` by OR: the
/// result is zero iff `diff` was and the two ranges agree.
pub fn xor_diff(a: &[u8], b: &[u8], off: usize, n: usize, diff: u8) -> (d: u8)
    requires
        n <= a.len(),
        off + n <= b.len(),
    ensures
        (d == 0) <==> (diff == 0 && forall|k: int| 0 <= k < n ==> #[trigger] a@[k] == b@[off + k]),
{
    let mut d = diff;
    for i in 0..n
        invariant
            n <= a.len(),
            off + n <= b.len(),
            (d == 0) <==> (diff == 0 && forall|k: int| 0 <= k < i ==> #[trigger] a@[k] == b@[off + k]),
    {
        let x = a[i];
        let y = b[off + i];
        let d0 = d;
        d = d | (x ^ y);
        assert((d0 | (x ^ y)) == 0 <==> (d0 == 0 && x == y)) by (bit_vector);
        assert((d == 0) <==> (diff == 0 && forall|k: int| 0 <= k < i + 1 ==> #[trigger] a@[k] == b@[off + k])) by {
            if d == 0 {
                assert forall|k: int| 0 <= k < i + 1 implies #[trigger] a@[k] == b@[off + k] by {
                    if k == i {
                        assert(a@[k] == x);
                    }
                }
            }
        }
    }
    d
}

/// The branchless equality mask: `0xFF` when `diff == 0`, else `0`.
pub fn eq_mask(diff: u8) -> (m: u8)
    ensures
        m == (if diff == 0 { 0xFFu8 } else { 0u8 }),
{
    let nonzero = (diff as u32).wrapping_sub(1) >> 31u32;
    assert(nonzero == (if diff == 0 { 1u32 } else { 0u32 })) by (bit_vector)
        requires
            nonzero == ((diff as u32).wrapping_sub(1) >> 31u32),
    ;
    0u8.wrapping_sub(nonzero as u8)
}

} // verus!

//! Single bits of a 64-bit board mask: the spec-level bit test, the rank and
//! file masks, and the bit-vector lemmas the rest of the library builds on.

use vstd::prelude::*;

verus! {

/// Whether bit `i` of the mask `b` is set; false outside 0..64.
pub open spec fn has_bit(b: u64, i: int) -> bool {
    0 <= i < 64 && (b >> (i as u64)) & 1u64 == 1u64
}

/// The 64-bit mask of board rank `r` (bits `8*r .. 8*r + 8`).
pub open spec fn rank_mask(r: int) -> u64 {
    0xFFu64 << ((8 * r) as u64)
}

/// The 64-bit mask of grid column `f` (bits congruent to `7 - f` modulo 8;
/// column 0 holds the high bit of each rank).
pub open spec fn file_mask(f: int) -> u64 {
    0x8080808080808080u64 >> (f as u64)
}

/// Setting one bit with an or leaves every other bit as it was.
pub proof fn lemma_or_bit(b: u64, i: u64, j: u64)
    by (bit_vector)
    requires
        i < 64,
        j < 64,
    ensures
        ((b | (1u64 << i)) >> j) & 1u64 == 1u64 <==> (j == i || (b >> j) & 1u64 == 1u64),
{
}

/// The zero mask has no bit set.
pub proof fn lemma_zero_bit(j: u64)
    by (bit_vector)
    ensures
        (0u64 >> j) & 1u64 != 1u64,
{
}

/// Intersecting a mask with a rank mask and a column mask singles out the one
/// bit `8*r + (7 - f)`: the intersection is non-zero exactly when that bit of
/// the mask is set.
pub proof fn lemma_mask_bit(b: u64, r: u64, f: u64, r8: u64, s: u64)
    by (bit_vector)
    requires
        r < 8,
        f < 8,
        r8 == 8 * r,
        s == 8 * r + 7 - f,
    ensures
        ((0xFFu64 << r8) & (0x8080808080808080u64 >> f)) & b != 0 <==> (b >> s) & 1u64 == 1u64,
{
}

/// Two masks that share a set bit have a non-zero intersection.
pub proof fn lemma_common_bit(a: u64, b: u64, s: u64)
    by (bit_vector)
    requires
        s < 64,
        (a >> s) & 1u64 == 1u64,
        (b >> s) & 1u64 == 1u64,
    ensures
        a & b != 0,
{
}

/// Shifting out one more bit: the tail from position `k` is the tail from
/// `k + 1` with bit `k` back at the bottom.
proof fn lemma_shift_step(x: u64, k: u64, k1: u64)
    by (bit_vector)
    requires
        k < 63,
        k1 == k + 1,
    ensures
        x >> k == ((x >> k1) << 1) | ((x >> k) & 1u64),
        (x >> k) & 1u64 < 2,
{
}

/// A mask's bit 63 is all that remains after shifting by 63.
proof fn lemma_shift_top(x: u64)
    by (bit_vector)
    ensures
        x >> 63 == (x >> 63) & 1u64,
        (x >> 63) & 1u64 < 2,
        x >> 0 == x,
{
}

/// Two masks whose bits agree from position `k` up have equal tails there.
proof fn lemma_bit_ext_from(a: u64, b: u64, k: u64)
    requires
        k < 64,
        forall|j: int| k <= j < 64 ==> (has_bit(a, j) <==> has_bit(b, j)),
    ensures
        a >> k == b >> k,
    decreases 64 - k,
{
    assert(has_bit(a, k as int) <==> has_bit(b, k as int));
    if k == 63 {
        lemma_shift_top(a);
        lemma_shift_top(b);
    } else {
        lemma_bit_ext_from(a, b, (k + 1) as u64);
        lemma_shift_step(a, k, (k + 1) as u64);
        lemma_shift_step(b, k, (k + 1) as u64);
    }
}

/// Two masks that agree on every bit are equal.
pub proof fn lemma_bit_ext(a: u64, b: u64)
    requires
        forall|j: int| 0 <= j < 64 ==> (has_bit(a, j) <==> has_bit(b, j)),
    ensures
        a == b,
{
    lemma_bit_ext_from(a, b, 0);
    lemma_shift_top(a);
    lemma_shift_top(b);
}

} // verus!

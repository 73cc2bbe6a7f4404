//! Bit tricks on machine words, and what they do bit by bit.

use crate::digits::pow10;
use vstd::prelude::*;

verus! {

/// Whether bit `k` of `x` is set.
pub open spec fn bit16(x: u16, k: u16) -> bool {
    (x >> k) & 1 == 1
}

/// The number of set bits of `x` below position `k`.
pub open spec fn ones_below(x: u16, k: nat) -> nat
    decreases k,
{
    if k == 0 {
        0
    } else {
        ones_below(x, (k - 1) as nat) + if bit16(x, (k - 1) as u16) {
            1nat
        } else {
            0nat
        }
    }
}

/// The number of set bits below position 9, written out.
pub(crate) proof fn lemma_ones_unfold(x: u16)
    ensures
        ones_below(x, 9) == (if bit16(x, 0) { 1nat } else { 0 }) + (if bit16(x, 1) { 1nat } else { 0 })
            + (if bit16(x, 2) { 1nat } else { 0 }) + (if bit16(x, 3) { 1nat } else { 0 }) + (if bit16(
            x,
            4,
        ) { 1nat } else { 0 }) + (if bit16(x, 5) { 1nat } else { 0 }) + (if bit16(x, 6) { 1nat } else {
            0
        }) + (if bit16(x, 7) { 1nat } else { 0 }) + (if bit16(x, 8) { 1nat } else { 0 }),
{
    reveal_with_fuel(ones_below, 10);
}

/// The bits of a nine-bit set above position 8 count nothing.
pub(crate) proof fn lemma_ones_high(x: u16)
    requires
        x <= 0x1FF,
    ensures
        ones_below(x, 16) == ones_below(x, 9),
{
    reveal_with_fuel(ones_below, 8);
    assert(!bit16(x, 9) && !bit16(x, 10) && !bit16(x, 11) && !bit16(x, 12) && !bit16(x, 13)
        && !bit16(x, 14) && !bit16(x, 15)) by (bit_vector)
        requires
            x <= 0x1FF,
    ;
}

/// Whether no bit of `x` is set below position `k`.
pub open spec fn none_below(x: u16, k: u16) -> bool {
    x & (((1u16 << k) - 1) as u16) == 0
}

/// Where each bit below `k` is clear, none is set below `k`.
pub(crate) proof fn lemma_none_below(x: u16, k: u16)
    requires
        k < 9,
        forall|j: u16| j < k ==> !bit16(x, j),
    ensures
        none_below(x, k),
{
    assert(0 < k ==> !bit16(x, 0));
    assert(1 < k ==> !bit16(x, 1));
    assert(2 < k ==> !bit16(x, 2));
    assert(3 < k ==> !bit16(x, 3));
    assert(4 < k ==> !bit16(x, 4));
    assert(5 < k ==> !bit16(x, 5));
    assert(6 < k ==> !bit16(x, 6));
    assert(7 < k ==> !bit16(x, 7));
    assert(none_below(x, k)) by (bit_vector)
        requires
            k < 9,
            0 < k ==> !bit16(x, 0),
            1 < k ==> !bit16(x, 1),
            2 < k ==> !bit16(x, 2),
            3 < k ==> !bit16(x, 3),
            4 < k ==> !bit16(x, 4),
            5 < k ==> !bit16(x, 5),
            6 < k ==> !bit16(x, 6),
            7 < k ==> !bit16(x, 7),
    ;
}

/// Whether at most one bit of `x` is set.
pub(crate) fn is_pow2_or_zero(x: u16) -> (b: bool)
    ensures
        b == (ones_below(x, 16) <= 1),
{
    let y: u16 = !x;
    let w: u16 = y.wrapping_add(1);
    proof {
        reveal_with_fuel(ones_below, 17);
        assert(((x & w) == x) <==> ((x >> 0u16) & 1) + ((x >> 1u16) & 1) + ((x >> 2u16) & 1) + ((x
            >> 3u16) & 1) + ((x >> 4u16) & 1) + ((x >> 5u16) & 1) + ((x >> 6u16) & 1) + ((x
            >> 7u16) & 1) + ((x >> 8u16) & 1) + ((x >> 9u16) & 1) + ((x >> 10u16) & 1) + ((x
            >> 11u16) & 1) + ((x >> 12u16) & 1) + ((x >> 13u16) & 1) + ((x >> 14u16) & 1) + ((x
            >> 15u16) & 1) <= 1) by (bit_vector)
            requires
                y == !x,
                y == 0xFFFF ==> w == 0,
                y < 0xFFFF ==> w == y + 1,
        ;
        assert forall|k: u16| k < 16 implies ((x >> k) & 1 == 1 || (x >> k) & 1 == 0) by {
            assert((x >> k) & 1 == 1 || (x >> k) & 1 == 0) by (bit_vector);
        }
    }
    (x & w) == x
}

/// The lowest set bit of `x` alone, or 0 when `x` is 0.
pub(crate) fn min_bit(x: u16) -> (r: u16)
    ensures
        r <= x,
        forall|k: u16| k < 16 ==> (#[trigger] bit16(r, k) <==> bit16(x, k) && none_below(x, k)),
{
    let w: u16 = x.wrapping_sub(1);
    let r: u16 = x & !w;
    proof {
        assert(r <= x) by (bit_vector)
            requires
                r == x & !w,
        ;
        assert forall|k: u16| k < 16 implies (#[trigger] bit16(r, k) <==> bit16(x, k)
            && none_below(x, k)) by {
            assert(k < 16 ==> (bit16(r, k) <==> bit16(x, k) && none_below(x, k))) by (bit_vector)
                requires
                    r == x & !w,
                    x == 0 ==> w == 0xFFFF,
                    x > 0 ==> w == x - 1,
            ;
        }
    }
    r
}

/// Whether bit `k` of `x` is set.
pub open spec fn bit32(x: u32, k: u32) -> bool {
    (x >> k) & 1 == 1
}

/// The number whose decimal digits are the positions, counted from 1, of
/// the bits of `x` set below position `k`, in increasing order.
pub open spec fn lit(x: u32, k: nat) -> nat
    decreases k,
{
    if k == 0 {
        0
    } else if bit32(x, (k - 1) as u32) {
        lit(x, (k - 1) as nat) * 10 + k
    } else {
        lit(x, (k - 1) as nat)
    }
}

/// Two words that agree below position `k` give the same number.
pub(crate) proof fn lemma_lit_agrees(x: u32, y: u32, k: nat)
    requires
        k <= 32,
        forall|j: u32| j < k ==> bit32(x, j) == bit32(y, j),
    ensures
        lit(x, k) == lit(y, k),
    decreases k,
{
    if k > 0 {
        lemma_lit_agrees(x, y, (k - 1) as nat);
        assert(bit32(x, (k - 1) as u32) == bit32(y, (k - 1) as u32));
    }
}

/// Clear bits at the top add no digit.
pub(crate) proof fn lemma_lit_clear_above(x: u32, m: nat, top: nat)
    requires
        m <= top <= 32,
        forall|j: u32| m <= j < top ==> !bit32(x, j),
    ensures
        lit(x, top) == lit(x, m),
    decreases top,
{
    if top > m {
        assert(!bit32(x, (top - 1) as u32));
        lemma_lit_clear_above(x, m, (top - 1) as nat);
    }
}

/// The powers of 10 that fit into 32 bits.
pub(crate) proof fn lemma_pow10(j: nat)
    requires
        j <= 9,
    ensures
        pow10(j) <= 1_000_000_000,
        j <= 8 ==> pow10(j) <= 100_000_000,
        pow10(j + 1) == 10 * pow10(j),
{
    reveal_with_fuel(pow10, 11);
}

/// `x` with bit `index` cleared.
pub(crate) fn clear_bit(x: u32, index: u32) -> (r: u32)
    requires
        index < 32,
    ensures
        r == x & !(1u32 << index),
        forall|k: u32| k < 32 ==> (#[trigger] bit32(r, k) <==> bit32(x, k) && k != index),
{
    let r: u32 = x & !(1u32 << index);
    proof {
        assert forall|k: u32| k < 32 implies (#[trigger] bit32(r, k) <==> bit32(x, k) && k
            != index) by {
            assert(bit32(r, k) <==> bit32(x, k) && k != index) by (bit_vector)
                requires
                    k < 32,
                    index < 32,
                    r == x & !(1u32 << index),
            ;
        }
    }
    r
}

/// The position of the highest set bit of a nonzero `x`; 63 for 0.
pub(crate) fn log2(x: u32) -> (r: u32)
    ensures
        x > 0 ==> r < 32 && x >> r == 1,
        x == 0 ==> r == 63,
{
    let z: u32 = x.leading_zeros();
    let r: u32 = z ^ 31;
    proof {
        vstd::std_specs::bits::axiom_u32_leading_zeros(x);
        assert(32u32 ^ 31 == 63) by (bit_vector);
        if x > 0 {
            let a = (31 - z) as u32;
            let b = (32 - z) as u32;
            assert(r == a) by (bit_vector)
                requires
                    z < 32,
                    r == z ^ 31,
                    a == 31 - z,
            ;
            assert(x >> r == 1) by (bit_vector)
                requires
                    r < 32,
                    b == r + 1,
                    (x >> r) & 1 != 0,
                    x >> b == 0,
            ;
        }
    }
    r
}

} // verus!

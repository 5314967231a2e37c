//! The canonical Hamming form of a feature.
//!
//! Level `L` of a feature cuts it into `2^L` substrings of `128 / 2^L` bits.
//! The canonical Hamming form of the feature at that level is the word that
//! has, in the place of each substring, as many ones as the substring has,
//! packed to the right of the place. At level 7 it is the feature itself, at
//! level 0 the feature's weight as that many low ones.
//!
//! Two forms of one level differ in `|a - b|` bits where one substring has
//! `a` ones and the other `b`. So the Hamming distance of two forms is the
//! sum of the differences of the substring weights. That sum never exceeds
//! the Hamming distance of the features and never shrinks from a level to the
//! next.
//!
//! A parent's place holds the ones of its two children's places. The left
//! children alone, moved into the right half of their parent's place, are
//! covered by the parent's ones: taking them away borrows nothing, and what
//! is left has as many ones as the right child.
use crate::bits::{
    bit, hamming, lemma_bit_and, lemma_bit_low_ones, lemma_bit_not, lemma_bit_or, lemma_bit_shl,
    lemma_bit_shr, lemma_bit_xor, lemma_bit_zero, lemma_same_bits, lemma_sub_clears,
    lemma_weight_band, lemma_weight_bound, lemma_weight_split, low_ones, weight,
};
use vstd::prelude::*;

verus! {

/// The width of a substring at `level`.
pub open spec fn width(level: nat) -> nat {
    if level == 0 {
        128
    } else if level == 1 {
        64
    } else if level == 2 {
        32
    } else if level == 3 {
        16
    } else if level == 4 {
        8
    } else if level == 5 {
        4
    } else if level == 6 {
        2
    } else {
        1
    }
}

/// The places of width `w` from position `lo` upwards, each holding as many
/// low ones as `f` has ones there; nothing below `lo`.
pub open spec fn pack_from(f: u128, w: nat, lo: nat) -> u128
    decreases 128 - lo,
{
    if w == 0 || lo + w > 128 {
        0
    } else {
        (low_ones(weight(f, lo, lo + w) as u32) << (lo as u32)) | pack_from(f, w, lo + w)
    }
}

/// Bit `i` of `pack_from(f, w, lo)`.
pub open spec fn pack_bit(f: u128, w: nat, lo: nat, i: nat) -> bool
    decreases 128 - lo,
{
    if w == 0 || lo + w > 128 {
        false
    } else if i < lo + w {
        lo <= i && i - lo < weight(f, lo, lo + w)
    } else {
        pack_bit(f, w, lo + w, i)
    }
}

/// The canonical Hamming form of `f` at `level`.
pub open spec fn chf(f: u128, level: nat) -> u128 {
    if level >= 7 {
        f
    } else {
        pack_from(f, width(level), 0)
    }
}

/// `b` is reached from `a` in steps of `w`.
pub open spec fn steps(w: nat, a: nat, b: nat) -> bool
    decreases b - a,
{
    a == b || (w > 0 && a + w <= b && steps(w, a + w, b))
}

/// The sum, over the places of width `w` from `lo` upwards, of the difference
/// between the ones that `f` and `g` have there.
pub open spec fn level_sod(f: u128, g: u128, w: nat, lo: nat) -> nat
    decreases 128 - lo,
{
    if w == 0 || lo + w > 128 {
        0
    } else {
        let a = weight(f, lo, lo + w);
        let b = weight(g, lo, lo + w);
        (if a >= b {
            a - b
        } else {
            b - a
        }) as nat + level_sod(f, g, w, lo + w)
    }
}

/// One step beyond a position that is reached is reached.
pub proof fn lemma_steps_push(w: nat, a: nat, b: nat)
    requires
        w > 0,
        steps(w, a, b),
    ensures
        steps(w, a, b + w),
    decreases b - a,
{
    if a == b {
        assert(steps(w, a + w, b + w));
    } else {
        lemma_steps_push(w, a + w, b);
    }
}

/// One step before a position that is reached is reached.
pub proof fn lemma_steps_pop(w: nat, a: nat, b: nat)
    requires
        steps(w, a, b),
        a < b,
    ensures
        b >= a + w,
        steps(w, a, (b - w) as nat),
    decreases b - a,
{
    if a + w < b {
        lemma_steps_pop(w, a + w, b);
    }
}

/// What is reached in steps of `2 * w` is reached in steps of `w`.
pub proof fn lemma_steps_halve(w: nat, a: nat, b: nat)
    requires
        w > 0,
        steps(2 * w, a, b),
    ensures
        steps(w, a, b),
    decreases b - a,
{
    if a != b {
        lemma_steps_halve(w, a + 2 * w, b);
        assert(steps(w, a + w, b));
    }
}

/// From 0 one reaches 128 in steps of any substring width.
pub proof fn lemma_steps_width(level: nat)
    ensures
        steps(width(level), 0, 128),
        width(level) > 0,
        level < 7 ==> width(level) == 2 * width(level + 1),
{
    assert(steps(128, 0, 128)) by {
        assert(steps(128, 128, 128));
    }
    lemma_steps_halve(64, 0, 128);
    lemma_steps_halve(32, 0, 128);
    lemma_steps_halve(16, 0, 128);
    lemma_steps_halve(8, 0, 128);
    lemma_steps_halve(4, 0, 128);
    lemma_steps_halve(2, 0, 128);
    lemma_steps_halve(1, 0, 128);
}

/// The bits of the packed places are those that `pack_bit` gives.
pub proof fn lemma_pack_bits(f: u128, w: nat, lo: nat, i: u32)
    requires
        i < 128,
    ensures
        bit(pack_from(f, w, lo), i) == pack_bit(f, w, lo, i as nat),
    decreases 128 - lo,
{
    if w == 0 || lo + w > 128 {
        lemma_bit_zero(i);
    } else {
        let c = weight(f, lo, lo + w) as u32;
        lemma_weight_bound(f, lo, lo + w);
        lemma_pack_bits(f, w, lo + w, i);
        lemma_bit_or(low_ones(c) << (lo as u32), pack_from(f, w, lo + w), i);
        lemma_bit_shl(low_ones(c), lo as u32, i);
        if lo <= i {
            lemma_bit_low_ones(c, (i - lo) as u32);
        }
    }
}

/// A bit from position `b` on is a bit of the places from `b` on.
pub proof fn lemma_pack_bit_skip(f: u128, w: nat, a: nat, b: nat, i: nat)
    requires
        steps(w, a, b),
        b <= i,
    ensures
        pack_bit(f, w, a, i) == pack_bit(f, w, b, i),
    decreases b - a,
{
    if a != b {
        lemma_pack_bit_skip(f, w, a + w, b, i);
    }
}

/// What a place of the packed word holds: the ones of `f` there, packed to
/// the right.
pub proof fn lemma_field(f: u128, w: nat, lo: nat)
    requires
        w > 0,
        steps(w, 0, lo),
        lo + w <= 128,
    ensures
        forall|i: u32|
            lo <= i < lo + w ==> #[trigger] bit(pack_from(f, w, 0), i) == (i - lo < weight(
                f,
                lo,
                lo + w,
            )),
        weight(pack_from(f, w, 0), lo, lo + w) == weight(f, lo, lo + w),
{
    let x = pack_from(f, w, 0);
    let c = weight(f, lo, lo + w);
    lemma_weight_bound(f, lo, lo + w);
    assert forall|i: u32| lo <= i < lo + w implies #[trigger] bit(x, i) == (0 <= i - lo < c) by {
        lemma_pack_bits(f, w, 0, i);
        lemma_pack_bit_skip(f, w, 0, lo, i as nat);
    }
    lemma_weight_band(x, lo, w, 0, c);
}

/// Packing what was packed at half the width gives what packing the feature gives.
pub proof fn lemma_repack(f: u128, w: nat, lo: nat)
    requires
        w > 0,
        steps(2 * w, 0, lo),
        lo <= 128,
    ensures
        pack_from(pack_from(f, w, 0), 2 * w, lo) == pack_from(f, 2 * w, lo),
    decreases 128 - lo,
{
    if lo + 2 * w <= 128 {
        let x = pack_from(f, w, 0);
        lemma_steps_halve(w, 0, lo);
        lemma_steps_push(w, 0, lo);
        lemma_field(f, w, lo);
        lemma_field(f, w, lo + w);
        lemma_weight_split(x, lo, lo + w, lo + 2 * w);
        lemma_weight_split(f, lo, lo + w, lo + 2 * w);
        lemma_steps_push(2 * w, 0, lo);
        lemma_repack(f, w, lo + 2 * w);
    }
}

/// The bits in which two packed words differ from `lo` upwards are as many as
/// the substring weights differ in sum.
pub proof fn lemma_xor_fields(f: u128, g: u128, w: nat, lo: nat)
    requires
        w > 0,
        steps(w, 0, lo),
        lo <= 128,
    ensures
        weight(pack_from(f, w, 0) ^ pack_from(g, w, 0), lo, 128) == level_sod(f, g, w, lo),
    decreases 128 - lo,
{
    let x = pack_from(f, w, 0);
    let y = pack_from(g, w, 0);
    if lo + w > 128 {
        assert forall|i: u32| lo <= i < lo + (128 - lo) implies #[trigger] bit(x ^ y, i) == (0 <= i
            - lo < 0) by {
            lemma_bit_xor(x, y, i);
            lemma_pack_bits(f, w, 0, i);
            lemma_pack_bits(g, w, 0, i);
            lemma_pack_bit_skip(f, w, 0, lo, i as nat);
            lemma_pack_bit_skip(g, w, 0, lo, i as nat);
        }
        lemma_weight_band(x ^ y, lo, (128 - lo) as nat, 0, 0);
    } else {
        let a = weight(f, lo, lo + w);
        let b = weight(g, lo, lo + w);
        lemma_weight_bound(f, lo, lo + w);
        lemma_weight_bound(g, lo, lo + w);
        lemma_field(f, w, lo);
        lemma_field(g, w, lo);
        let m = if a <= b { a } else { b };
        let k = if a <= b { b } else { a };
        assert forall|i: u32| lo <= i < lo + w implies #[trigger] bit(x ^ y, i) == (m <= i - lo
            < k) by {
            lemma_bit_xor(x, y, i);
        }
        lemma_weight_band(x ^ y, lo, w, m, k);
        lemma_weight_split(x ^ y, lo, lo + w, 128);
        lemma_steps_push(w, 0, lo);
        lemma_xor_fields(f, g, w, lo + w);
    }
}

/// Halving the substrings never lowers the sum of differences.
pub proof fn lemma_sod_finer(f: u128, g: u128, w: nat, lo: nat)
    requires
        w > 0,
    ensures
        level_sod(f, g, 2 * w, lo) <= level_sod(f, g, w, lo),
    decreases 128 - lo,
{
    if lo + 2 * w <= 128 {
        lemma_weight_split(f, lo, lo + w, lo + 2 * w);
        lemma_weight_split(g, lo, lo + w, lo + 2 * w);
        lemma_sod_finer(f, g, w, lo + 2 * w);
        assert(level_sod(f, g, w, lo + w) == (if weight(f, lo + w, lo + 2 * w) >= weight(
            g,
            lo + w,
            lo + 2 * w,
        ) {
            weight(f, lo + w, lo + 2 * w) - weight(g, lo + w, lo + 2 * w)
        } else {
            weight(g, lo + w, lo + 2 * w) - weight(f, lo + w, lo + 2 * w)
        }) + level_sod(f, g, w, lo + 2 * w));
    }
}

/// At width 1 the sum of differences counts the bits that differ.
pub proof fn lemma_sod_bits(f: u128, g: u128, lo: nat)
    requires
        lo <= 128,
    ensures
        level_sod(f, g, 1, lo) == weight(f ^ g, lo, 128),
    decreases 128 - lo,
{
    if lo < 128 {
        lemma_sod_bits(f, g, lo + 1);
        lemma_weight_split(f ^ g, lo, lo + 1, 128);
        lemma_bit_xor(f, g, lo as u32);
        assert(weight(f, lo, lo + 1) == weight(f, lo, lo) + if bit(f, lo as u32) {
            1nat
        } else {
            0nat
        });
        assert(weight(g, lo, lo + 1) == weight(g, lo, lo) + if bit(g, lo as u32) {
            1nat
        } else {
            0nat
        });
        assert(weight(f ^ g, lo, lo + 1) == weight(f ^ g, lo, lo) + if bit(f ^ g, lo as u32) {
            1nat
        } else {
            0nat
        });
    }
}

/// The forms of two features at one level differ in as many bits as the
/// weights of their substrings at that level differ in sum.
pub proof fn lemma_chf_distance(f: u128, g: u128, level: nat)
    ensures
        hamming(chf(f, level), chf(g, level)) == level_sod(f, g, width(level), 0),
{
    if level >= 7 {
        lemma_sod_bits(f, g, 0);
    } else {
        lemma_steps_width(level);
        lemma_xor_fields(f, g, width(level), 0);
    }
}

/// The distance of the forms of two features never shrinks from a level to
/// the next, and at no level exceeds the distance of the features.
pub proof fn lemma_chf_distance_grows(f: u128, g: u128, level: nat)
    ensures
        level < 7 ==> hamming(chf(f, level), chf(g, level)) <= hamming(
            chf(f, level + 1),
            chf(g, level + 1),
        ),
        hamming(chf(f, level), chf(g, level)) <= hamming(f, g),
    decreases 7 - level,
{
    if level < 7 {
        lemma_chf_distance(f, g, level);
        lemma_chf_distance(f, g, level + 1);
        lemma_steps_width(level);
        lemma_sod_finer(f, g, width(level + 1), 0);
        lemma_chf_distance_grows(f, g, level + 1);
    }
}

/// In every place of the form of `f` at a level stand as many ones as the
/// substring of `f` in that place has, packed to the right.
pub proof fn lemma_chf_fields(f: u128, level: nat, lo: nat)
    requires
        level <= 7,
        steps(width(level), 0, lo),
        lo + width(level) <= 128,
    ensures
        weight(chf(f, level), lo, lo + width(level)) == weight(f, lo, lo + width(level)),
        forall|i: u32|
            lo <= i < lo + width(level) ==> #[trigger] bit(chf(f, level), i) == (i - lo < weight(
                f,
                lo,
                lo + width(level),
            )),
{
    if level < 7 {
        lemma_field(f, width(level), lo);
    } else {
        assert(weight(f, lo, lo + 1) == weight(f, lo, lo) + if bit(f, lo as u32) {
            1nat
        } else {
            0nat
        });
    }
}

/// Packing the form of one level at the width of the level before gives the
/// form of that level.
pub proof fn lemma_pack_chf(f: u128, level: nat)
    requires
        level < 7,
    ensures
        pack_from(chf(f, level + 1), width(level), 0) == chf(f, level),
{
    if level < 6 {
        lemma_steps_width(level);
        lemma_repack(f, width(level + 1), 0);
    }
}

/// The mask of the left children of the parents at `level`: the upper half
/// of every place of the width of that level.
pub open spec fn left_mask(level: nat) -> u128 {
    if level == 0 {
        0xFFFF_FFFF_FFFF_FFFF_0000_0000_0000_0000
    } else if level == 1 {
        0xFFFF_FFFF_0000_0000_FFFF_FFFF_0000_0000
    } else if level == 2 {
        0xFFFF_0000_FFFF_0000_FFFF_0000_FFFF_0000
    } else if level == 3 {
        0xFF00_FF00_FF00_FF00_FF00_FF00_FF00_FF00
    } else if level == 4 {
        0xF0F0_F0F0_F0F0_F0F0_F0F0_F0F0_F0F0_F0F0
    } else if level == 5 {
        0xCCCC_CCCC_CCCC_CCCC_CCCC_CCCC_CCCC_CCCC
    } else {
        0xAAAA_AAAA_AAAA_AAAA_AAAA_AAAA_AAAA_AAAA
    }
}

/// Whether position `i` lies in the upper half of a place of width `2 * w`,
/// the places counted from `lo`.
pub open spec fn upper_half(w: nat, lo: nat, i: nat) -> bool
    decreases 128 - lo,
{
    if w == 0 || lo + 2 * w > 128 {
        false
    } else if i < lo + 2 * w {
        lo + w <= i
    } else {
        upper_half(w, lo + 2 * w, i)
    }
}

/// The ones of the mask of a level are the upper halves of the places.
pub proof fn lemma_left_mask(level: nat, lo: nat, i: u32)
    requires
        level < 7,
        steps(width(level), 0, lo),
        lo <= i < 128,
    ensures
        bit(left_mask(level), i) == upper_half(width(level + 1), lo, i as nat),
    decreases 128 - lo,
{
    let q = width(level);
    let low = lo as u32;
    if lo + q <= 128 {
        if i < lo + q {
            lemma_steps_mod(q, 0, lo);
            if level == 0 {
                assert(bit(0xFFFF_FFFF_FFFF_FFFF_0000_0000_0000_0000u128, i) == (i - low >= 64u32)) by (bit_vector)
                    requires
                        low <= i,
                        i - low < 128u32,
                        low % 128u32 == 0,
                        i < 128,
                ;
            }
            if level == 1 {
                assert(bit(0xFFFF_FFFF_0000_0000_FFFF_FFFF_0000_0000u128, i) == (i - low >= 32u32)) by (bit_vector)
                    requires
                        low <= i,
                        i - low < 64u32,
                        low % 64u32 == 0,
                        i < 128,
                ;
            }
            if level == 2 {
                assert(bit(0xFFFF_0000_FFFF_0000_FFFF_0000_FFFF_0000u128, i) == (i - low >= 16u32)) by (bit_vector)
                    requires
                        low <= i,
                        i - low < 32u32,
                        low % 32u32 == 0,
                        i < 128,
                ;
            }
            if level == 3 {
                assert(bit(0xFF00_FF00_FF00_FF00_FF00_FF00_FF00_FF00u128, i) == (i - low >= 8u32)) by (bit_vector)
                    requires
                        low <= i,
                        i - low < 16u32,
                        low % 16u32 == 0,
                        i < 128,
                ;
            }
            if level == 4 {
                assert(bit(0xF0F0_F0F0_F0F0_F0F0_F0F0_F0F0_F0F0_F0F0u128, i) == (i - low >= 4u32)) by (bit_vector)
                    requires
                        low <= i,
                        i - low < 8u32,
                        low % 8u32 == 0,
                        i < 128,
                ;
            }
            if level == 5 {
                assert(bit(0xCCCC_CCCC_CCCC_CCCC_CCCC_CCCC_CCCC_CCCCu128, i) == (i - low >= 2u32)) by (bit_vector)
                    requires
                        low <= i,
                        i - low < 4u32,
                        low % 4u32 == 0,
                        i < 128,
                ;
            }
            if level == 6 {
                assert(bit(0xAAAA_AAAA_AAAA_AAAA_AAAA_AAAA_AAAA_AAAAu128, i) == (i - low >= 1u32)) by (bit_vector)
                    requires
                        low <= i,
                        i - low < 2u32,
                        low % 2u32 == 0,
                        i < 128,
                ;
            }
        } else {
            lemma_steps_push(q, 0, lo);
            lemma_left_mask(level, lo + q, i);
        }
    } else {
        lemma_steps_width(level);
        lemma_steps_last(width(level), 0, lo);
    }
}

/// A position reached from 0 in steps of the width of a level is a multiple
/// of that width.
pub proof fn lemma_steps_mod(w: nat, a: nat, lo: nat)
    requires
        w == 128 || w == 64 || w == 32 || w == 16 || w == 8 || w == 4 || w == 2,
        a % w == 0,
        steps(w, a, lo),
    ensures
        lo % w == 0,
    decreases lo - a,
{
    if a != lo {
        lemma_steps_mod(w, a + w, lo);
    }
}

/// A position from which no further step fits is 128.
pub proof fn lemma_steps_last(w: nat, a: nat, lo: nat)
    requires
        w > 0,
        steps(w, a, lo),
        steps(w, a, 128),
        lo <= 128,
        lo + w > 128,
    ensures
        lo == 128,
    decreases lo - a,
{
    if a != lo && a != 128 {
        lemma_steps_last(w, a + w, lo);
    }
}

/// In every place of the parents of a feature stand the ones of its left
/// child, moved into the right half, among the ones of the parent: taking
/// them away borrows nothing, and leaves as many ones as the right child has.
pub proof fn lemma_right_from_parent(f: u128, level: nat, lo: nat)
    requires
        level < 7,
        steps(width(level), 0, lo),
        lo + width(level) <= 128,
    ensures
        ({
            let parent = chf(f, level);
            let left = (chf(f, level + 1) & left_mask(level)) >> (width(level + 1) as u32);
            &&& left & !parent == 0
            &&& parent >= left
            &&& (parent - left) as u128 == parent & !left
            &&& weight((parent - left) as u128, lo, lo + width(level)) == weight(
                f,
                lo,
                lo + width(level + 1),
            )
        }),
{
    let q = width(level);
    let w = width(level + 1);
    let parent = chf(f, level);
    let child = chf(f, level + 1);
    let masked = child & left_mask(level);
    let left = masked >> (w as u32);
    lemma_steps_width(level);
    lemma_steps_width(level + 1);
    assert forall|i: u32| i < 128 implies bit(left, i) == left_bit(f, level, 0, i as nat) && (bit(
        left,
        i,
    ) ==> bit(parent, i)) by {
        lemma_left_bits(f, level, 0, i);
    }
    assert forall|i: u32| i < 128 implies bit(left & !parent, i) == bit(0, i) by {
        lemma_bit_and(left, !parent, i);
        lemma_bit_not(parent, i);
        lemma_bit_zero(i);
    }
    lemma_same_bits(left & !parent, 0);
    lemma_sub_clears(parent, left);
    let right = parent & !left;
    lemma_steps_halve(w, 0, lo);
    lemma_steps_push(w, 0, lo);
    lemma_chf_fields(f, level, lo);
    lemma_chf_fields(f, level + 1, lo + w);
    lemma_weight_split(f, lo, lo + w, lo + q);
    lemma_weight_bound(f, lo + w, lo + q);
    lemma_weight_bound(f, lo, lo + q);
    let tl = weight(f, lo + w, lo + q);
    let tw = weight(f, lo, lo + q);
    assert forall|i: u32| lo <= i < lo + q implies #[trigger] bit(right, i) == (tl <= i - lo
        < tw) by {
        lemma_bit_and(parent, !left, i);
        lemma_bit_not(left, i);
        lemma_left_bits(f, level, 0, i);
        lemma_left_skip(f, level, 0, lo, i as nat);
    }
    lemma_weight_band(right, lo, q, tl, tw);
}

/// Bit `i` of the left children of `f` at `level`, moved into the right
/// halves of the places.
pub open spec fn left_bit(f: u128, level: nat, lo: nat, i: nat) -> bool
    decreases 128 - lo,
{
    let q = width(level);
    let w = width(level + 1);
    if lo + q > 128 {
        false
    } else if i < lo + q {
        lo <= i && i - lo < weight(f, lo + w, lo + q)
    } else {
        left_bit(f, level, lo + q, i)
    }
}

/// A bit from position `b` on is a bit of the places from `b` on.
pub proof fn lemma_left_skip(f: u128, level: nat, a: nat, b: nat, i: nat)
    requires
        steps(width(level), a, b),
        b <= i,
    ensures
        left_bit(f, level, a, i) == left_bit(f, level, b, i),
    decreases b - a,
{
    if a != b {
        lemma_left_skip(f, level, a + width(level), b, i);
    }
}

/// The bits of the left children moved into the right halves, and that each
/// of them is a bit of the parents.
pub proof fn lemma_left_bits(f: u128, level: nat, lo: nat, i: u32)
    requires
        level < 7,
        steps(width(level), 0, lo),
        lo <= i < 128,
    ensures
        bit((chf(f, level + 1) & left_mask(level)) >> (width(level + 1) as u32), i) == left_bit(
            f,
            level,
            lo,
            i as nat,
        ),
        left_bit(f, level, lo, i as nat) ==> bit(chf(f, level), i),
    decreases 128 - lo,
{
    let q = width(level);
    let w = width(level + 1);
    let child = chf(f, level + 1);
    let masked = child & left_mask(level);
    lemma_steps_width(level);
    lemma_steps_width(level + 1);
    if lo + q <= 128 {
        if i < lo + q {
            lemma_bit_shr(masked, w as u32, i);
            if i + w < 128 {
                let k = (i + w) as u32;
                lemma_bit_and(child, left_mask(level), k);
                lemma_steps_halve(w, 0, lo);
                lemma_steps_push(w, 0, lo);
                lemma_chf_fields(f, level + 1, lo + w);
                lemma_chf_fields(f, level, lo);
                lemma_weight_split(f, lo, lo + w, lo + q);
                lemma_weight_bound(f, lo + w, lo + q);
                if k < lo + q {
                    lemma_left_mask(level, lo, k);
                } else {
                    lemma_steps_push(q, 0, lo);
                    lemma_left_mask(level, lo + q, k);
                    if lo + q + q > 128 {
                        lemma_steps_last(q, 0, lo + q);
                    }
                }
            } else {
                lemma_steps_push(q, 0, lo);
                lemma_steps_last(q, 0, lo + q);
                lemma_weight_bound(f, lo + w, lo + q);
            }
        } else {
            lemma_steps_push(q, 0, lo);
            lemma_left_bits(f, level, lo + q, i);
        }
    } else {
        lemma_steps_last(q, 0, lo);
    }
}

/// The right children of level 1 from the parents `chf` of level 0 and the
/// left children `clhf` of level 1, which stand in the upper halves of the
/// parents' places: the parents less the left children moved down by 64.
/// Every place then holds as many ones as the right child has.
pub fn crhf1(chf: u128, clhf: u128) -> (r: u128)
    requires
        chf >= clhf >> 64u32,
    ensures
        r == chf - (clhf >> 64u32),
{
    chf - (clhf >> 64)
}

/// The right children of level 2 from the parents `chf` of level 1 and the
/// left children `clhf` of level 2, which stand in the upper halves of the
/// parents' places: the parents less the left children moved down by 32.
/// Every place then holds as many ones as the right child has.
pub fn crhf2(chf: u128, clhf: u128) -> (r: u128)
    requires
        chf >= clhf >> 32u32,
    ensures
        r == chf - (clhf >> 32u32),
{
    chf - (clhf >> 32)
}

/// The right children of level 3 from the parents `chf` of level 2 and the
/// left children `clhf` of level 3, which stand in the upper halves of the
/// parents' places: the parents less the left children moved down by 16.
/// Every place then holds as many ones as the right child has.
pub fn crhf3(chf: u128, clhf: u128) -> (r: u128)
    requires
        chf >= clhf >> 16u32,
    ensures
        r == chf - (clhf >> 16u32),
{
    chf - (clhf >> 16)
}

/// The right children of level 4 from the parents `chf` of level 3 and the
/// left children `clhf` of level 4, which stand in the upper halves of the
/// parents' places: the parents less the left children moved down by 8.
/// Every place then holds as many ones as the right child has.
pub fn crhf4(chf: u128, clhf: u128) -> (r: u128)
    requires
        chf >= clhf >> 8u32,
    ensures
        r == chf - (clhf >> 8u32),
{
    chf - (clhf >> 8)
}

/// The right children of level 5 from the parents `chf` of level 4 and the
/// left children `clhf` of level 5, which stand in the upper halves of the
/// parents' places: the parents less the left children moved down by 4.
/// Every place then holds as many ones as the right child has.
pub fn crhf5(chf: u128, clhf: u128) -> (r: u128)
    requires
        chf >= clhf >> 4u32,
    ensures
        r == chf - (clhf >> 4u32),
{
    chf - (clhf >> 4)
}

/// The right children of level 6 from the parents `chf` of level 5 and the
/// left children `clhf` of level 6, which stand in the upper halves of the
/// parents' places: the parents less the left children moved down by 2.
/// Every place then holds as many ones as the right child has.
pub fn crhf6(chf: u128, clhf: u128) -> (r: u128)
    requires
        chf >= clhf >> 2u32,
    ensures
        r == chf - (clhf >> 2u32),
{
    chf - (clhf >> 2)
}

/// The right children of level 7 from the parents `chf` of level 6 and the
/// left children `clhf` of level 7, which stand in the upper halves of the
/// parents' places: the parents less the left children moved down by 1.
/// Every place then holds as many ones as the right child has.
pub fn crhf7(chf: u128, clhf: u128) -> (r: u128)
    requires
        chf >= clhf >> 1u32,
    ensures
        r == chf - (clhf >> 1u32),
{
    chf - (clhf >> 1)
}

} // verus!

use hwt::bits::distance;
use hwt::indices::{indices128, pack_ones};

#[test]
fn test_indices128() {
    assert_eq!(
        indices128(0x0000_0000_0000_0000_0000_0000_0000_0000),
        [0, 0, 0, 0, 0, 0, 0, 0]
    );

    assert_eq!(
        indices128(0x0000_0040_0000_0000_0000_0000_0000_0000),
        [
            1,
            1 << 64,
            1 << (32 * 3),
            1 << (16 * 6),
            1 << (8 * 12),
            1 << (4 * 25),
            1 << (2 * 51),
            1 << 102
        ]
    );
}

#[test]
fn indices_of_all_ones() {
    let all = u128::MAX;
    assert_eq!(indices128(all), [all; 8]);
}

#[test]
fn indices_pack_the_ones_of_each_substring() {
    // 0b1101 in the lowest four bits: three ones, two of them in the upper pair.
    let v: u128 = 0b1101;
    let idx = indices128(v);
    assert_eq!(idx[7], 0b1101);
    assert_eq!(idx[6], 0b1101);
    assert_eq!(idx[5], 0b0111);
    assert_eq!(idx[0], 0b111);
    let v: u128 = 0b1010;
    let idx = indices128(v);
    assert_eq!(idx[6], 0b0101);
    assert_eq!(idx[5], 0b0011);
}

#[test]
fn every_field_has_the_weight_of_the_substring() {
    let mut v: u128 = 0x0123_4567_89AB_CDEF_0F1E_2D3C_4B5A_6978;
    for _ in 0..50 {
        let idx = indices128(v);
        for level in 0..8usize {
            let width = 128u32 >> level;
            for q in 0..(1u32 << level) {
                let mask = if width == 128 { u128::MAX } else { (1u128 << width) - 1 };
                let part = (v >> (q * width)) & mask;
                let field = (idx[level] >> (q * width)) & mask;
                let ones = part.count_ones();
                let low = if ones == 128 { u128::MAX } else { (1u128 << ones) - 1 };
                assert_eq!(field, low);
            }
        }
        v = v.wrapping_mul(0x9E37_79B9_7F4A_7C15_F39C_C060_5CED_C835).rotate_left(17) ^ 0x5DEECE66D;
    }
}

#[test]
fn pack_ones_squeezes_each_place() {
    assert_eq!(pack_ones(0b00_01_10_11, 2), 0b00_01_01_11);
    assert_eq!(pack_ones(0b11_01_01_00, 4), 0b0111_0001);
    assert_eq!(pack_ones(0b1111_0000, 8), 0b0000_1111);
    assert_eq!(pack_ones(0x00FF_007F, 64), 0x0000_7FFF);
    assert_eq!(pack_ones(u128::MAX, 128), u128::MAX);
}

#[test]
fn index_distance_never_exceeds_the_distance_and_never_shrinks() {
    let mut a: u128 = 0xDEAD_BEEF_0BAD_CAFE_FEED_FACE_CAFE_BEEF;
    let mut b: u128 = 0x0123_4567_89AB_CDEF_0F1E_2D3C_4B5A_6978;
    for _ in 0..200 {
        let ia = indices128(a);
        let ib = indices128(b);
        let full = distance(a, b);
        assert_eq!(distance(ia[7], ib[7]), full);
        for level in 0..7 {
            assert!(distance(ia[level], ib[level]) <= distance(ia[level + 1], ib[level + 1]));
        }
        a = a.wrapping_mul(0x9E37_79B9_7F4A_7C15_F39C_C060_5CED_C835).rotate_left(29) ^ b;
        b = b.rotate_left(7).wrapping_add(0x1234_5678_9ABC_DEF1);
    }
}

#[test]
fn distance_counts_differing_bits() {
    assert_eq!(distance(0, 0), 0);
    assert_eq!(distance(0b1001, 0b1111), 2);
    assert_eq!(distance(0, u128::MAX), 128);
}

use hwt::chf::{crhf1, crhf2, crhf3, crhf4, crhf5, crhf6, crhf7};

const LEFT_MASKS: [u128; 7] = [
    0xFFFF_FFFF_FFFF_FFFF_0000_0000_0000_0000,
    0xFFFF_FFFF_0000_0000_FFFF_FFFF_0000_0000,
    0xFFFF_0000_FFFF_0000_FFFF_0000_FFFF_0000,
    0xFF00_FF00_FF00_FF00_FF00_FF00_FF00_FF00,
    0xF0F0_F0F0_F0F0_F0F0_F0F0_F0F0_F0F0_F0F0,
    0xCCCC_CCCC_CCCC_CCCC_CCCC_CCCC_CCCC_CCCC,
    0xAAAA_AAAA_AAAA_AAAA_AAAA_AAAA_AAAA_AAAA,
];

#[test]
fn right_children_come_from_the_parents_without_borrow() {
    let mut v: u128 = 0x0123_4567_89AB_CDEF_0F1E_2D3C_4B5A_6978;
    for _ in 0..50 {
        let idx = indices128(v);
        for level in 0..7usize {
            let width = 128u32 >> level;
            let half = width / 2;
            let left = (idx[level + 1] & LEFT_MASKS[level]) >> half;
            // Every one of the left children is a one of the parents.
            assert_eq!(left & !idx[level], 0);
            let right = match level {
                0 => crhf1(idx[0], idx[1] & LEFT_MASKS[0]),
                1 => crhf2(idx[1], idx[2] & LEFT_MASKS[1]),
                2 => crhf3(idx[2], idx[3] & LEFT_MASKS[2]),
                3 => crhf4(idx[3], idx[4] & LEFT_MASKS[3]),
                4 => crhf5(idx[4], idx[5] & LEFT_MASKS[4]),
                5 => crhf6(idx[5], idx[6] & LEFT_MASKS[5]),
                _ => crhf7(idx[6], idx[7] & LEFT_MASKS[6]),
            };
            assert_eq!(right, idx[level] - left);
            for q in 0..(1u32 << level) {
                let mask = if width == 128 { u128::MAX } else { (1u128 << width) - 1 };
                let place = (right >> (q * width)) & mask;
                let child = (v >> (q * width)) & ((1u128 << half) - 1);
                assert_eq!(place.count_ones(), child.count_ones());
            }
        }
        v = v.wrapping_mul(0x9E37_79B9_7F4A_7C15_F39C_C060_5CED_C835).rotate_left(17) ^ 0x5DEECE66D;
    }
}

#[test]
fn right_child_of_a_small_word() {
    // Parent: 3 ones. Left child 2 ones in the upper half.
    assert_eq!(crhf1(0b111, 0b11 << 64), 0b100);
    assert_eq!(crhf7(0b01, 0b10), 0);
    assert_eq!(crhf7(0b11, 0b10), 0b10);
}

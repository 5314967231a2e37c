use hwt::indices::indices128;
use hwt::search::exact::{
    search_exact128, search_exact16, search_exact2, search_exact32, search_exact4, search_exact64,
    search_exact8, search_exact_at,
};
use hwt::search::radius::{
    search_radius128, search_radius16, search_radius2, search_radius32, search_radius4,
    search_radius64, search_radius8,
};
use hwt::swar_ops::{halve, union};
use rand::rngs::SmallRng;
use rand::{Rng, SeedableRng};

#[test]
fn test_search2() {
    // Generate some random features.
    let mut rng = SmallRng::from_seed([5; 16]);
    let space = rng
        .sample_iter(&rand::distributions::Standard)
        .take(8_000)
        .collect::<Vec<u128>>();
    let search = rng
        .sample_iter(&rand::distributions::Standard)
        .take(10)
        .collect::<Vec<u128>>();

    for &s in &search {
        let sindices = indices128(s);
        let sp = sindices[0];
        let sc = sindices[1];

        for &t in &space {
            let tindices = indices128(t);
            let tp = tindices[0];
            let tc = tindices[1];

            let distance = (t ^ s).count_ones();
            let child_distance = (sc ^ tc).count_ones();

            assert!(
                search_exact2(64, sp, sc, tp, child_distance)
                    .iter()
                    .any(|&exact_tc| exact_tc == tc),
                "sp({:032X}) sc({:032X}) tp({:032X}) distance({}) expected tc({:032X})",
                sp,
                sc,
                tp,
                child_distance,
                tc
            );
            for exact_tc in search_exact2(64, sp, sc, tp, child_distance) {
                assert_eq!(
                    (exact_tc ^ sc).count_ones(),
                    child_distance,
                    "got {:032X} against {:032X}",
                    exact_tc,
                    sc
                );
            }

            assert!(search_radius2(64, sp, sc, tp, distance)
                .iter()
                .any(|&(exact_tc, _)| exact_tc == tc));
            assert!(search_radius2(64, sp, sc, tp, distance + 1)
                .iter()
                .any(|&(exact_tc, _)| exact_tc == tc));
            for (exact_tc, sod) in search_radius2(64, sp, sc, tp, distance) {
                assert_eq!(
                    (exact_tc ^ sc).count_ones(),
                    sod,
                    "got {:032X} against {:032X}",
                    exact_tc,
                    sc
                );
                assert!(sod <= distance);
            }
        }
    }
}

fn feed(state: &mut u128) -> u128 {
    *state = state
        .wrapping_mul(0x2545_F491_4F6C_DD1D_9E37_79B9_7F4A_7C15)
        .wrapping_add(0x1405_7B7E_F767_814F);
    *state ^ (*state >> 61)
}

fn exact_of(level: usize, bits: u32, sp: u128, sc: u128, tp: u128, r: u32) -> Vec<u128> {
    match level {
        0 => search_exact2(bits, sp, sc, tp, r),
        1 => search_exact4(bits, sp, sc, tp, r),
        2 => search_exact8(bits, sp, sc, tp, r),
        3 => search_exact16(bits, sp, sc, tp, r),
        4 => search_exact32(bits, sp, sc, tp, r),
        5 => search_exact64(bits, sp, sc, tp, r),
        _ => search_exact128(bits, sp, sc, tp, r),
    }
}

fn radius_of(level: usize, bits: u32, sp: u128, sc: u128, tp: u128, r: u32) -> Vec<(u128, u32)> {
    match level {
        0 => search_radius2(bits, sp, sc, tp, r),
        1 => search_radius4(bits, sp, sc, tp, r),
        2 => search_radius8(bits, sp, sc, tp, r),
        3 => search_radius16(bits, sp, sc, tp, r),
        4 => search_radius32(bits, sp, sc, tp, r),
        5 => search_radius64(bits, sp, sc, tp, r),
        _ => search_radius128(bits, sp, sc, tp, r),
    }
}

#[test]
fn every_level_lists_the_index_word_of_a_near_feature() {
    let mut state = 11u128;
    for _ in 0..40 {
        let s = feed(&mut state);
        // A target a few bits away, so that the lists stay short.
        let mut t = s;
        for _ in 0..(feed(&mut state) % 4) {
            t ^= 1u128 << (feed(&mut state) % 128);
        }
        let si = indices128(s);
        let ti = indices128(t);
        for level in 0..7usize {
            let bits = 64u32 >> level;
            let d = (si[level + 1] ^ ti[level + 1]).count_ones();
            let exact = exact_of(level, bits, si[level], si[level + 1], ti[level], d);
            assert_eq!(exact.iter().filter(|&&w| w == ti[level + 1]).count(), 1);
            for &w in &exact {
                assert_eq!((w ^ si[level + 1]).count_ones(), d);
            }
            let mut sorted = exact.clone();
            sorted.sort_unstable();
            sorted.dedup();
            assert_eq!(sorted.len(), exact.len());
            assert_eq!(
                search_exact_at(level as u8, si[level], si[level + 1], ti[level], d),
                exact
            );
            if d > 0 {
                let below = exact_of(level, bits, si[level], si[level + 1], ti[level], d - 1);
                assert!(!below.contains(&ti[level + 1]));
            }
            let within = radius_of(level, bits, si[level], si[level + 1], ti[level], d);
            assert_eq!(within.iter().filter(|&&(w, _)| w == ti[level + 1]).count(), 1);
            for &(w, sod) in &within {
                assert_eq!((w ^ si[level + 1]).count_ones(), sod);
                assert!(sod <= d);
            }
            for pair in within.windows(2) {
                assert!(pair[0].1 <= pair[1].1);
            }
            let at: Vec<u128> = within.iter().filter(|&&(_, sod)| sod == d).map(|&(w, _)| w).collect();
            let mut at_sorted = at.clone();
            at_sorted.sort_unstable();
            assert_eq!(at_sorted, sorted);
        }
    }
}

#[test]
fn one_place_comes_in_the_order_of_the_splits() {
    // Search feature: 3 ones on the left, 2 on the right. Target: 4 ones.
    let sp: u128 = 0b11111;
    let sc: u128 = (0b111u128 << 64) | 0b11;
    let tp: u128 = 0b1111;
    assert_eq!(
        search_exact2(64, sp, sc, tp, 1),
        vec![(0b11u128 << 64) | 0b11, (0b111u128 << 64) | 0b1]
    );
    assert_eq!(
        search_radius2(64, sp, sc, tp, 3),
        vec![
            ((0b11u128 << 64) | 0b11, 1),
            ((0b111u128 << 64) | 0b1, 1),
            ((0b1u128 << 64) | 0b111, 3),
            ((0b1111u128 << 64), 3)
        ]
    );
}

#[test]
fn halving_spreads_and_uniting_squeezes() {
    let (left, right) = halve(1, (0b1101u128 << 64) | 0b0101);
    assert_eq!(left, 0b0101_0001);
    assert_eq!(right, 0b0001_0001);
    assert_eq!(union(1, left, right), (0b1101u128 << 64) | 0b0101);
    let (left, right) = halve(32, (0x0BAD_CAFEu128 << 64) | 0xDEAD_BEEF);
    assert_eq!(left, 0x0BAD_CAFE);
    assert_eq!(right, 0xDEAD_BEEF);
    let mut state = 5u128;
    for _ in 0..50 {
        let x = feed(&mut state);
        for w in [1u32, 2, 4, 8, 16, 32] {
            let (l, r) = halve(w, x);
            assert_eq!(union(w, l, r), x);
            // Each place of the halves holds the place it came from in its lower half.
            let places = 64 / w;
            for p in 0..places {
                let mask = (1u128 << w) - 1;
                assert_eq!((r >> (2 * w * p)) & ((1u128 << (2 * w)) - 1), (x >> (w * p)) & mask);
                assert_eq!(
                    (l >> (2 * w * p)) & ((1u128 << (2 * w)) - 1),
                    (x >> (64 + w * p)) & mask
                );
            }
        }
        let (l, r) = halve(64, x);
        assert_eq!(l, x >> 64);
        assert_eq!(r, x & ((1u128 << 64) - 1));
    }
}

#[test]
fn wider_radius_searches_list_the_smaller_sums_first() {
    // Two places: in each the target may move one bit between its halves.
    let s: u128 = 0;
    let t: u128 = (1u128 << 127) | (1u128 << 40) | 1;
    let si = indices128(s);
    let ti = indices128(t);
    let within = search_radius4(32, si[1], si[2], ti[1], 128);
    assert!(within.len() > 2);
    for pair in within.windows(2) {
        assert!(pair[0].1 <= pair[1].1);
    }
    let mut words: Vec<u128> = within.iter().map(|e| e.0).collect();
    words.sort_unstable();
    words.dedup();
    assert_eq!(words.len(), within.len());
    assert!(within.iter().any(|&(w, _)| w == ti[2]));
}

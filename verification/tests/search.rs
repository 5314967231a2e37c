use hwt::search::exact::search_exact;
use hwt::search::radius::search_radius;
use hwt::search::{compute_bucket_len, search, search2};

fn search_sort(bits: u32, sl: u32, sw: u32, tw: u32, radius: u32) -> (Vec<(u32, u32)>, u32) {
    let (mut indices, size) = search(bits, sl, sw, tw, radius);
    indices.sort_unstable_by(|a, b| a.0.cmp(&b.0));
    (indices, size)
}

#[test]
fn test_search() {
    let (indices, size) = search_sort(64, 3, 5, 4, 1);
    assert_eq!(&indices, &[(2, 1), (3, 1)]);
    assert_eq!(size, 5);

    let (indices, size) = search_sort(64, 58, 66, 40, 1);
    assert_eq!(&indices, &[]);
    assert_eq!(size, 41);

    // [58, 8] ([sl, sr])
    let (indices, size) = search_sort(64, 58, 66, 66, 1);
    assert_eq!(&indices, &[(58, 0)]);
    assert_eq!(size, 63);

    // [58, 8] ([sl, sr])
    let (indices, size) = search_sort(64, 58, 66, 66, 5);
    assert_eq!(&indices, &[(56, 4), (57, 2), (58, 0), (59, 2), (60, 4)]);
    assert_eq!(size, 63);

    // [58, 14] ([sl, sr])
    let (indices, size) = search_sort(64, 58, 72, 68, 10);
    assert_eq!(
        &indices,
        &[
            (51, 10),
            (52, 8),
            (53, 6),
            (54, 4),
            (55, 4),
            (56, 4),
            (57, 4),
            (58, 4),
            (59, 6),
            (60, 8),
            (61, 10)
        ]
    );
    assert_eq!(size, 61);

    // [58, 14] ([sl, sr])
    let (indices, size) = search_sort(64, 58, 72, 75, 10);
    assert_eq!(
        &indices,
        &[
            (55, 9),
            (56, 7),
            (57, 5),
            (58, 3),
            (59, 3),
            (60, 3),
            (61, 3),
            (62, 5),
            (63, 7),
            (64, 9)
        ]
    );
    assert_eq!(size, 54);

    // [58, 14] ([sl, sr])
    let (indices, size) = search_sort(64, 58, 72, 76, 10);
    assert_eq!(
        &indices,
        &[
            (55, 10),
            (56, 8),
            (57, 6),
            (58, 4),
            (59, 4),
            (60, 4),
            (61, 4),
            (62, 4),
            (63, 6),
            (64, 8)
        ]
    );
    assert_eq!(size, 53);

    // [58, 14] ([sl, sr])
    let (indices, size) = search_sort(64, 58, 72, 82, 10);
    assert_eq!(
        &indices,
        &[
            (58, 10),
            (59, 10),
            (60, 10),
            (61, 10),
            (62, 10),
            (63, 10),
            (64, 10)
        ]
    );
    assert_eq!(size, 47);

    // [58, 14] ([sl, sr])
    let (indices, size) = search_sort(64, 58, 72, 83, 10);
    assert_eq!(&indices, &[]);
    assert_eq!(size, 46);

    // [0, 2] ([sl, sr])
    let (indices, size) = search_sort(64, 0, 2, 2, 0);
    assert_eq!(&indices, &[(0, 0)]);
    assert_eq!(size, 3);
}

#[test]
fn search_lists_nearest_first() {
    // The flat interval 54..=58 first, then one step down and one step up in turn.
    let (indices, _) = search(64, 58, 72, 68, 10);
    assert_eq!(
        indices,
        vec![
            (54, 4),
            (55, 4),
            (56, 4),
            (57, 4),
            (58, 4),
            (53, 6),
            (59, 6),
            (52, 8),
            (60, 8),
            (51, 10),
            (61, 10)
        ]
    );
}

#[test]
fn search_radius_lists_eleven_in_order() {
    let out = search_radius(64, 58, 72, 68, 10);
    assert_eq!(out.len(), 11);
    let expected: Vec<([u32; 2], u32)> = vec![
        ([54, 14], 4),
        ([55, 13], 4),
        ([56, 12], 4),
        ([57, 11], 4),
        ([58, 10], 4),
        ([53, 15], 6),
        ([59, 9], 6),
        ([52, 16], 8),
        ([60, 8], 8),
        ([51, 17], 10),
        ([61, 7], 10),
    ];
    assert_eq!(out, expected);
    for w in out.windows(2) {
        assert!(w[0].1 <= w[1].1);
    }
}

#[test]
fn search_radius_clips_to_what_the_target_can_have() {
    // The target has 2 ones and halves of one bit: only [1, 1] is possible.
    assert_eq!(search_radius(1, 0, 0, 2, 128), vec![([1, 1], 2)]);
    // Below the least sum nothing is listed.
    assert_eq!(search_radius(1, 0, 0, 2, 1), vec![]);
    // The upper side runs out first: what is left of the lower side follows.
    assert_eq!(
        search_radius(64, 3, 3, 3, 6),
        vec![([3, 0], 0), ([2, 1], 2), ([1, 2], 4), ([0, 3], 6)]
    );
}

#[test]
fn search_radius_takes_the_largest_radius() {
    let out = search_radius(2, 1, 2, 2, u32::MAX);
    assert_eq!(out, vec![([1, 1], 0), ([0, 2], 2), ([2, 0], 2)]);
}

#[test]
fn search_exact_spot_check() {
    assert_eq!(search_exact(64, 3, 5, 4, 1), vec![[2, 2], [3, 1]]);
}

#[test]
fn search_exact_lists_the_two_ends() {
    // [58, 14] against a target of 68: the sum is 4 on 54..=58.
    assert_eq!(search_exact(64, 58, 72, 68, 10), vec![[51, 17], [61, 7]]);
    assert_eq!(search_exact(64, 58, 72, 68, 6), vec![[53, 15], [59, 9]]);
    assert_eq!(
        search_exact(64, 58, 72, 68, 4),
        vec![[54, 14], [55, 13], [56, 12], [57, 11], [58, 10]]
    );
    assert_eq!(search_exact(64, 58, 72, 68, 3), Vec::<[u32; 2]>::new());
}

#[test]
fn search_exact_lists_nothing_where_no_sum_matches() {
    // With equal weights every sum is even.
    assert_eq!(search_exact(64, 3, 5, 5, 1), Vec::<[u32; 2]>::new());
    assert_eq!(search_exact(64, 3, 5, 5, 2), vec![[2, 3], [4, 1]]);
    // One end outside of what the target can have.
    assert_eq!(search_exact(64, 0, 2, 2, 2), vec![[1, 1]]);
}

#[test]
fn search_exact_agrees_with_the_definition() {
    for bits in [1u32, 2, 4, 8] {
        for sw in 0..=2 * bits {
            for sl in sw.saturating_sub(bits)..=sw.min(bits) {
                for tw in 0..=2 * bits {
                    for radius in 0..=2 * bits + 1 {
                        let mut expected = Vec::new();
                        for tl in tw.saturating_sub(bits)..=tw.min(bits) {
                            let sod = (tl as i64 - sl as i64).abs()
                                + ((tw - tl) as i64 - (sw - sl) as i64).abs();
                            if sod == radius as i64 {
                                expected.push([tl, tw - tl]);
                            }
                        }
                        let mut got = search_exact(bits, sl, sw, tw, radius);
                        got.sort_unstable();
                        assert_eq!(got, expected);
                    }
                }
            }
        }
    }
}

#[test]
fn search_radius_agrees_with_the_definition() {
    for bits in [1u32, 2, 4, 8] {
        for sw in 0..=2 * bits {
            for sl in sw.saturating_sub(bits)..=sw.min(bits) {
                for tw in 0..=2 * bits {
                    for radius in 0..=2 * bits + 1 {
                        let mut expected = Vec::new();
                        for tl in tw.saturating_sub(bits)..=tw.min(bits) {
                            let sod = (tl as i64 - sl as i64).abs()
                                + ((tw - tl) as i64 - (sw - sl) as i64).abs();
                            if sod <= radius as i64 {
                                expected.push(([tl, tw - tl], sod as u32));
                            }
                        }
                        let mut got = search_radius(bits, sl, sw, tw, radius);
                        for w in got.windows(2) {
                            assert!(w[0].1 <= w[1].1);
                        }
                        got.sort_unstable();
                        assert_eq!(got, expected);
                    }
                }
            }
        }
    }
}

#[test]
fn compute_bucket_len_doubles_per_unit() {
    assert_eq!(compute_bucket_len([0; 64]), 1);
    let mut tws = [0u32; 64];
    tws[3] = 1;
    tws[7] = 2;
    tws[9] = 1;
    assert_eq!(compute_bucket_len(tws), 8);
}

#[test]
fn search2_reads_the_weights_of_the_feature() {
    // The lowest two bits are 0b10: one bit in all, and it is on the left.
    let out = search2(1, 0b10, 1, 0);
    assert_eq!(out, vec![(1, 0, 2, [0, 1])]);
    let out = search2(1, 0b10, 1, 2);
    assert_eq!(out, vec![(1, 0, 2, [0, 1]), (0, 2, 2, [1, 0])]);
}

use hwt::search::{search128, search16, search32, search4, search64, search8};

#[test]
fn search4_puts_two_pairs_together() {
    // Both pairs hold 0b10 and the target has one bit in each.
    assert_eq!(search4(1, 0b1010, [1, 1], 0), vec![(3, 0, 4, [0, 1, 0, 1])]);
    // The upper pair is empty: either split of its one bit costs 1.
    assert_eq!(
        search4(1, 0b10, [1, 1], 1),
        vec![(1, 1, 4, [0, 1, 1, 0]), (3, 1, 4, [0, 1, 0, 1])]
    );
    assert_eq!(search4(1, 0b10, [1, 1], 0), vec![]);
}

fn feed(state: &mut u128) -> u128 {
    *state = state
        .wrapping_mul(0x2545_F491_4F6C_DD1D_9E37_79B9_7F4A_7C15)
        .wrapping_add(0x1405_7B7E_F767_814F);
    *state ^ (*state >> 61)
}

#[test]
fn search4_is_search2_on_both_halves() {
    let mut state = 23u128;
    for _ in 0..200 {
        let bits = 1 + (feed(&mut state) % 16) as u32;
        let feature = feed(&mut state) & ((1u128 << (4 * bits)) - 1);
        let tws = [
            (feed(&mut state) % (2 * bits as u128 + 1)) as u32,
            (feed(&mut state) % (2 * bits as u128 + 1)) as u32,
        ];
        let radius = (feed(&mut state) % 9) as u32;
        let mut expected = Vec::new();
        let low = search2(bits, feature & ((1u128 << (2 * bits)) - 1), tws[0], radius);
        for (li, lsod, lsize, ltws) in low {
            for (hi, hsod, hsize, htws) in search2(bits, feature >> (2 * bits), tws[1], radius - lsod) {
                expected.push((
                    hi * lsize + li,
                    lsod + hsod,
                    lsize * hsize,
                    [ltws[0], ltws[1], htws[0], htws[1]],
                ));
            }
        }
        assert_eq!(search4(bits, feature, tws, radius), expected);
    }
}

#[test]
fn wider_searches_are_the_narrower_ones_on_both_halves() {
    let mut state = 29u128;
    for _ in 0..30 {
        let feature = feed(&mut state);
        let radius = (feed(&mut state) % 4) as u32;
        let mut tws = [0u32; 32];
        for (j, tw) in tws.iter_mut().enumerate() {
            // The weights of the feature's own pairs of bits, a few of them changed.
            *tw = ((feature >> (2 * j)) & 0b11).count_ones();
            if feed(&mut state) % 16 == 0 {
                *tw = (feed(&mut state) % 3) as u32;
            }
        }
        let part = |from: usize, n: usize| -> Vec<u32> { tws[from..from + n].to_vec() };
        let eight = search8(1, feature & 0xFF, [tws[0], tws[1], tws[2], tws[3]], radius);
        let mut expected = Vec::new();
        for (li, lsod, lsize, ltws) in search4(1, feature & 0xF, [tws[0], tws[1]], radius) {
            for (hi, hsod, hsize, htws) in
                search4(1, (feature & 0xFF) >> 4, [tws[2], tws[3]], radius - lsod)
            {
                let mut both = [0u32; 8];
                both[..4].copy_from_slice(&ltws);
                both[4..].copy_from_slice(&htws);
                expected.push((hi * lsize + li, lsod + hsod, lsize * hsize, both));
            }
        }
        assert_eq!(eight, expected);
        let sixteen = search16(1, feature & 0xFFFF, part(0, 8).try_into().unwrap(), radius);
        for e in &sixteen {
            assert!(e.1 <= radius);
            assert!(e.0 < e.2 * 2 || e.2 == 1 || e.0 < (1 << 16));
        }
        let thirty_two = search32(1, feature & 0xFFFF_FFFF, part(0, 16).try_into().unwrap(), radius);
        for e in &thirty_two {
            assert!(e.1 <= radius);
        }
        let sixty_four = search64(1, feature & ((1u128 << 64) - 1), tws, radius);
        for e in &sixty_four {
            assert!(e.1 <= radius);
            assert_eq!(e.3.len(), 64);
        }
    }
}

#[test]
fn search128_lists_the_indices() {
    let mut tws = [0u32; 64];
    assert_eq!(search128(0, tws, 0), vec![0]);
    tws[0] = 1;
    assert_eq!(search128(0b10, tws, 0), vec![1]);
    assert_eq!(search128(0b10, tws, 2), vec![1, 0]);
    assert_eq!(search128(0b01, tws, 0), vec![0]);
}

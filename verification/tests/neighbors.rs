use hwt::{FeatureHeap, Hwt, NodeQueue};
use rand::rngs::SmallRng;
use rand::{Rng, SeedableRng};

#[test]
fn test_neighbors() {
    let mut node_queue = NodeQueue::new();
    let mut feature_heap = FeatureHeap::new();
    let features = [
        0b1001,
        0b1010,
        0b1100,
        0b1000,
        0xAAAA_AAAA_AAAA_AAAA_AAAA_AAAA_AAAA_AAAA,
    ];
    let mut hwt = Hwt::new();
    for &feature in &features {
        hwt.insert(feature);
    }

    for &feature in &features {
        let mut neighbors = [0; 1];
        let neighbors = hwt.nearest(
            feature,
            128,
            0,
            &mut node_queue,
            &mut feature_heap,
            &mut neighbors,
        );
        assert_eq!(neighbors[0], feature);
    }

    let mut neighbors = hwt.search_radius(1, 0b1000);
    neighbors.sort_unstable();
    assert_eq!(&neighbors, &[0b1000, 0b1001, 0b1010, 0b1100]);

    let mut neighbors = hwt.search_radius(1, 0b1001);
    neighbors.sort_unstable();
    assert_eq!(&neighbors, &[0b1000, 0b1001]);

    let mut neighbors = hwt.search_radius(1, 0b1010);
    neighbors.sort_unstable();
    assert_eq!(&neighbors, &[0b1000, 0b1010]);

    let mut neighbors = hwt.search_radius(1, 0b1100);
    neighbors.sort_unstable();
    assert_eq!(&neighbors, &[0b1000, 0b1100]);

    let range = (0..).take(1 << 4);
    let mut hwt = Hwt::new();
    for i in range.clone() {
        hwt.insert(i);
    }
    for feature in range.clone() {
        assert!(hwt.search_radius(2, feature).len() < 8128);
    }
}

#[test]
fn compare_to_linear() {
    let mut node_queue = NodeQueue::new();
    let mut feature_heap = FeatureHeap::new();

    let mut rng = SmallRng::from_seed([5; 16]);
    let space = rng
        .sample_iter(&rand::distributions::Standard)
        .take(80_000)
        .collect::<Vec<u128>>();
    let search = rng
        .sample_iter(&rand::distributions::Standard)
        .take(10)
        .collect::<Vec<u128>>();

    let mut hwt = Hwt::new();
    for &f in &space {
        hwt.insert(f);
    }

    for f0 in search {
        let mut neighbors_err0 = [0; 1];
        let neighbors_err0 = hwt.nearest(
            f0,
            128,
            0,
            &mut node_queue,
            &mut feature_heap,
            &mut neighbors_err0,
        );
        let mut neighbors_err1 = [0; 1];
        let neighbors_err1 = hwt.nearest(
            f0,
            128,
            1,
            &mut node_queue,
            &mut feature_heap,
            &mut neighbors_err1,
        );
        let mut neighbors_err2 = [0; 1];
        let neighbors_err2 = hwt.nearest(
            f0,
            128,
            2,
            &mut node_queue,
            &mut feature_heap,
            &mut neighbors_err2,
        );
        let mut neighbors_err3 = [0; 1];
        let neighbors_err3 = hwt.nearest(
            f0,
            128,
            3,
            &mut node_queue,
            &mut feature_heap,
            &mut neighbors_err3,
        );
        assert_eq!(
            space
                .iter()
                .map(|&f1| (f0 ^ f1).count_ones())
                .min()
                .unwrap(),
            (neighbors_err0[0] ^ f0).count_ones()
        );

        assert!(
            space
                .iter()
                .map(|&f1| (f0 ^ f1).count_ones())
                .min()
                .unwrap()
                + 1
                >= (neighbors_err1[0] ^ f0).count_ones()
        );

        assert!(
            space
                .iter()
                .map(|&f1| (f0 ^ f1).count_ones())
                .min()
                .unwrap()
                + 2
                >= (neighbors_err2[0] ^ f0).count_ones()
        );

        assert!(
            space
                .iter()
                .map(|&f1| (f0 ^ f1).count_ones())
                .min()
                .unwrap()
                + 3
                >= (neighbors_err3[0] ^ f0).count_ones()
        );
    }
}

fn feed(state: &mut u128) -> u128 {
    *state = state
        .wrapping_mul(0x2545_F491_4F6C_DD1D_9E37_79B9_7F4A_7C15)
        .wrapping_add(0x1405_7B7E_F767_814F);
    *state ^ (*state >> 61)
}

/// Features in clusters, each at most `spread` bits from the centre of its
/// cluster.
fn clustered(n: usize, spread: u128, seed: u128) -> Vec<u128> {
    let mut state = seed;
    let centres: Vec<u128> = (0..8).map(|_| feed(&mut state)).collect();
    (0..n)
        .map(|i| {
            let mut f = centres[i % centres.len()];
            let flips = (feed(&mut state) % (spread + 1)) as u32;
            for _ in 0..flips {
                f ^= 1u128 << (feed(&mut state) % 128);
            }
            f
        })
        .collect()
}

fn check_nearest(hwt: &Hwt, space: &[u128], q: u128, k: usize, max_weight: u32, max_error: u32) {
    let mut node_queue = NodeQueue::new();
    let mut feature_heap = FeatureHeap::new();
    let mut dest = vec![0u128; k];
    let found = hwt
        .nearest(q, max_weight, max_error, &mut node_queue, &mut feature_heap, &mut dest)
        .to_vec();
    let dist = |f: u128| (f ^ q).count_ones();
    // Nearest first.
    for w in found.windows(2) {
        assert!(dist(w[0]) <= dist(w[1]));
    }
    // Nothing is found more often than it is held.
    let mut rest = space.to_vec();
    for f in &found {
        let at = rest.iter().position(|g| g == f).expect("found a feature that is not held");
        rest.swap_remove(at);
    }
    // What is left lies beyond the weight, or not nearer than the last found, but for the error.
    for g in rest {
        assert!(
            dist(g) > max_weight
                || (found.len() == k && dist(*found.last().unwrap()) <= dist(g) + max_error)
        );
    }
}

#[test]
fn nearest_going_through_all_children() {
    let space = clustered(600, 12, 42);
    for tau in [0usize, 2, 50, 100_000] {
        let mut hwt = Hwt::with_thresholds(tau, usize::MAX);
        for &f in &space {
            hwt.insert(f);
        }
        let mut state = 7u128;
        let mut queries = vec![space[0], space[5] ^ 1, space[11] ^ 0b1010, 0, u128::MAX];
        queries.push(feed(&mut state));
        for &q in &queries {
            for k in [1usize, 2, 5, 40] {
                for max_error in [0u32, 1, 3] {
                    check_nearest(&hwt, &space, q, k, 128, max_error);
                }
            }
            check_nearest(&hwt, &space, q, 3, 5, 0);
            check_nearest(&hwt, &space, q, 1000, 128, 0);
            check_nearest(&hwt, &space, q, 3, 0, 0);
        }
    }
}

#[test]
fn nearest_listing_the_index_words_that_can_match() {
    let space = clustered(400, 2, 17);
    for (tau, table_tau) in [(0usize, 0usize), (2, 0), (7, 3), (30, 0)] {
        let mut hwt = Hwt::with_thresholds(tau, table_tau);
        for &f in &space {
            hwt.insert(f);
        }
        let queries = [space[0], space[5] ^ 1, space[11] ^ (1 << 77), space[12] ^ 0b11];
        for &q in &queries {
            for k in [1usize, 2, 5] {
                for max_error in [0u32, 1] {
                    check_nearest(&hwt, &space, q, k, 128, max_error);
                }
            }
            check_nearest(&hwt, &space, q, 1000, 3, 0);
            check_nearest(&hwt, &space, q, 3, 0, 0);
        }
    }
}

#[test]
fn nearest_with_no_error_returns_the_least_distance() {
    let space = clustered(300, 12, 1);
    let mut hwt = Hwt::with_thresholds(4, usize::MAX);
    for &f in &space {
        hwt.insert(f);
    }
    let mut node_queue = NodeQueue::new();
    let mut feature_heap = FeatureHeap::new();
    let mut state = 3u128;
    for _ in 0..20 {
        let q = feed(&mut state);
        let least = space.iter().map(|&f| (f ^ q).count_ones()).min().unwrap();
        for max_error in 0..4u32 {
            let mut dest = [0u128; 1];
            let found = hwt.nearest(q, 128, max_error, &mut node_queue, &mut feature_heap, &mut dest);
            assert_eq!(found.len(), 1);
            let d = (found[0] ^ q).count_ones();
            assert!(d <= least + max_error);
            if max_error == 0 {
                assert_eq!(d, least);
            }
        }
    }
}

#[test]
fn nearest_on_four_features() {
    let mut hwt = Hwt::new();
    for f in [0b1000u128, 0b1001, 0b1010, 0b1100] {
        hwt.insert(f);
    }
    let mut node_queue = NodeQueue::new();
    let mut feature_heap = FeatureHeap::new();
    let mut one = [0u128; 1];
    let found = hwt.nearest(0b1001, 128, 0, &mut node_queue, &mut feature_heap, &mut one);
    assert_eq!(found, &[0b1001]);
    let mut two = [0u128; 2];
    let found = hwt.nearest(0b1111, 128, 0, &mut node_queue, &mut feature_heap, &mut two);
    assert_eq!(found.len(), 2);
    assert_ne!(found[0], found[1]);
    for f in found.iter() {
        assert!([0b1001u128, 0b1010, 0b1100].contains(f));
        assert_eq!((f ^ 0b1111).count_ones(), 2);
    }
}

#[test]
fn nearest_on_one_feature() {
    let f = 0xAAAA_AAAA_AAAA_AAAA_AAAA_AAAA_AAAA_AAAAu128;
    let mut hwt = Hwt::new();
    hwt.insert(f);
    let mut node_queue = NodeQueue::new();
    let mut feature_heap = FeatureHeap::new();
    let mut dest = [0u128; 1];
    let found = hwt.nearest(f, 128, 0, &mut node_queue, &mut feature_heap, &mut dest);
    assert_eq!(found, &[f]);
}

#[test]
fn nearest_fills_only_what_it_finds() {
    let mut hwt = Hwt::with_thresholds(1, 0);
    for f in [1u128, 2, 4] {
        hwt.insert(f);
    }
    let mut node_queue = NodeQueue::new();
    let mut feature_heap = FeatureHeap::new();
    let mut dest = [9u128; 5];
    let found = hwt
        .nearest(0, 128, 0, &mut node_queue, &mut feature_heap, &mut dest)
        .to_vec();
    assert_eq!(found.len(), 3);
    assert_eq!(&dest[3..], &[9, 9]);
    let empty = Hwt::new();
    let mut dest = [9u128; 2];
    let found = empty.nearest(0, 128, 0, &mut node_queue, &mut feature_heap, &mut dest);
    assert_eq!(found.len(), 0);
}

#[test]
fn range_of_sixteen_within_two() {
    let mut hwt = Hwt::with_thresholds(3, 0);
    for i in 0..16u128 {
        hwt.insert(i);
    }
    for q in 0..16u128 {
        let got = hwt.search_radius(2, q);
        assert!(got.len() < 8128);
        assert_eq!(got.len(), 1 + 4 + 6);
        for f in got {
            assert!((f ^ q).count_ones() <= 2);
        }
    }
}

#[test]
fn more_error_never_finds_nearer() {
    let mut node_queue = NodeQueue::new();
    let mut feature_heap = FeatureHeap::new();
    let mut rng = SmallRng::from_seed([5; 16]);
    let space = rng
        .sample_iter(&rand::distributions::Standard)
        .take(80_000)
        .collect::<Vec<u128>>();
    let search = rng
        .sample_iter(&rand::distributions::Standard)
        .take(10)
        .collect::<Vec<u128>>();
    let mut hwt = Hwt::new();
    for &f in &space {
        hwt.insert(f);
    }
    for q in search {
        let least = space.iter().map(|&f| (f ^ q).count_ones()).min().unwrap();
        let mut before = 0;
        for max_error in 0..5u32 {
            let mut dest = [0u128; 1];
            let found = hwt.nearest(q, 128, max_error, &mut node_queue, &mut feature_heap, &mut dest);
            let d = (found[0] ^ q).count_ones();
            assert!(d <= least + max_error);
            assert!(before <= d);
            before = d;
        }
    }
}

use hwt::Hwt;

fn feed(state: &mut u128) -> u128 {
    *state = state
        .wrapping_mul(0x2545_F491_4F6C_DD1D_9E37_79B9_7F4A_7C15)
        .wrapping_add(0x1405_7B7E_F767_814F);
    *state ^ (*state >> 61)
}

fn corpus(n: usize, seed: u128) -> Vec<u128> {
    let mut state = seed;
    (0..n).map(|_| feed(&mut state)).collect()
}

#[test]
fn new_tree_is_empty() {
    let hwt = Hwt::new();
    assert!(hwt.is_empty());
    assert_eq!(hwt.len(), 0);
    assert!(!hwt.contains(0));
    assert_eq!(hwt.search_radius(128, 0), Vec::<u128>::new());
}

#[test]
fn len_counts_inserts_and_contains_finds_them() {
    let mut hwt = Hwt::new();
    hwt.insert(0b101);
    assert_eq!(hwt.len(), 1);
    assert!(!hwt.is_empty());
    hwt.insert(0b010);
    assert_eq!(hwt.len(), 2);
    assert!(hwt.contains(0b101));
    assert!(hwt.contains(0b010));
    assert!(!hwt.contains(0b000));
    assert!(!hwt.contains(0b111));
}

#[test]
fn duplicates_are_kept() {
    let mut hwt = Hwt::with_thresholds(1, 0);
    for _ in 0..5 {
        hwt.insert(7);
    }
    hwt.insert(8);
    assert_eq!(hwt.len(), 6);
    let mut near = hwt.search_radius(0, 7);
    near.sort_unstable();
    assert_eq!(near, vec![7, 7, 7, 7, 7]);
    assert!(hwt.contains(8));
    assert!(!hwt.contains(9));
}

#[test]
fn buckets_become_tables_beyond_the_leaf_capacity() {
    for tau in [0usize, 1, 2, 5, 64] {
        let mut hwt = Hwt::with_thresholds(tau, 0);
        let features = corpus(300, 7 + tau as u128);
        for (i, &f) in features.iter().enumerate() {
            hwt.insert(f);
            assert_eq!(hwt.len(), i + 1);
            assert!(hwt.contains(f));
        }
        for &f in &features {
            assert!(hwt.contains(f));
        }
        if tau < 64 {
            assert!(hwt.node_count() > 1);
        }
        let mut state = 99u128;
        for _ in 0..100 {
            let g = feed(&mut state);
            assert_eq!(hwt.contains(g), features.contains(&g));
        }
    }
}

#[test]
fn search_radius_finds_exactly_what_lies_within() {
    for tau in [0usize, 3, 1000] {
        let mut hwt = Hwt::with_thresholds(tau, 0);
        let mut features = corpus(400, 1234);
        // Some features close to each other.
        for i in 0..100 {
            let near = features[i] ^ (1u128 << (i % 128)) ^ (1u128 << ((i * 7) % 128));
            features.push(near);
        }
        for &f in &features {
            hwt.insert(f);
        }
        let queries = [features[0], features[17], features[450], 0, u128::MAX];
        for &q in &queries {
            for radius in [0u32, 1, 2, 5, 40, 64, 128] {
                let mut got = hwt.search_radius(radius, q);
                got.sort_unstable();
                let mut expected: Vec<u128> = features
                    .iter()
                    .copied()
                    .filter(|f| (f ^ q).count_ones() <= radius)
                    .collect();
                expected.sort_unstable();
                assert_eq!(got, expected);
            }
        }
    }
}

use mmr::utils::{family, family_path, is_leaf, is_left, node_height, peak_height_map, peaks};

#[test]
fn peaks_works() {
    let unstable: Vec<u64> = vec![];

    // a forest with zero nodes is viewed as unstable
    assert_eq!(peaks(0), unstable);

    assert_eq!(peaks(1), [1]);
    // the canonical unstable case
    assert_eq!(peaks(2), unstable);
    assert_eq!(peaks(3), [3]);
    assert_eq!(peaks(4), [3, 4]);
    assert_eq!(peaks(5), unstable);
    assert_eq!(peaks(6), unstable);
    assert_eq!(peaks(7), [7]);
    assert_eq!(peaks(8), [7, 8]);
    assert_eq!(peaks(9), unstable);
    assert_eq!(peaks(10), [7, 10]);
    assert_eq!(peaks(11), [7, 10, 11]);
    assert_eq!(peaks(19), [15, 18, 19]);

    let want: Vec<u64> = vec![
        524_287, 786_430, 917_501, 983_036, 1_015_803, 1_032_186, 1_040_377, 1_044_472,
        1_046_519, 1_047_542, 1_048_053, 1_048_308, 1_048_435, 1_048_498, 1_048_529, 1_048_544,
        1_048_551, 1_048_554, 1_048_555,
    ];

    assert_eq!(peaks(1_048_555), want);
}

#[test]
fn node_height_works() {
    assert_eq!(node_height(0), 0);
    assert_eq!(node_height(1), 0);
    assert_eq!(node_height(2), 0);
    assert_eq!(node_height(3), 1);
    assert_eq!(node_height(4), 0);
    assert_eq!(node_height(5), 0);
    assert_eq!(node_height(6), 1);
    assert_eq!(node_height(7), 2);
    assert_eq!(node_height(8), 0);
    assert_eq!(node_height(10), 1);
    assert_eq!(node_height(15), 3);
    assert_eq!(node_height(16), 0);
    assert_eq!(node_height(18), 1);
    assert_eq!(node_height(19), 0);
    assert_eq!(node_height(28), 1);
    assert_eq!(node_height(29), 2);
    assert_eq!(node_height(30), 3);
    assert_eq!(node_height(31), 4);
}

#[test]
fn is_leaf_works() {
    assert!(is_leaf(0));
    assert!(is_leaf(1));
    assert!(is_leaf(2));
    assert!(!is_leaf(3));
    assert!(is_leaf(4));
    assert!(is_leaf(5));
    assert!(!is_leaf(6));
    assert!(!is_leaf(7));
    assert!(is_leaf(8));
    assert!(!is_leaf(10));
    assert!(!is_leaf(15));
    assert!(is_leaf(16));
    assert!(!is_leaf(18));
    assert!(is_leaf(19));
    assert!(!is_leaf(28));
    assert!(!is_leaf(29));
    assert!(!is_leaf(30));
    assert!(!is_leaf(31));
}

#[test]
fn peak_height_map_works() {
    assert_eq!(peak_height_map(0), (0b00, 0));
    assert_eq!(peak_height_map(1), (0b1, 0));
    assert_eq!(peak_height_map(2), (0b1, 1));
    assert_eq!(peak_height_map(3), (0b10, 0));
    assert_eq!(peak_height_map(4), (0b11, 0));
    assert_eq!(peak_height_map(5), (0b11, 1));
    assert_eq!(peak_height_map(6), (0b11, 2));
    assert_eq!(peak_height_map(7), (0b100, 0));
    assert_eq!(peak_height_map(18), (0b1010, 0));

    // test edge cases
    assert_eq!(peak_height_map(u64::MAX), ((u64::MAX >> 1) + 1, 0));
    assert_eq!(peak_height_map(u64::MAX - 1), (u64::MAX >> 1, 63));
}

#[test]
fn is_left_works() {
    assert!(is_left(1));
    assert!(!is_left(2));
    assert!(is_left(3));
    assert!(is_left(4));
    assert!(!is_left(5));
    assert!(!is_left(6));
    assert!(is_left(7));
    assert!(is_left(8));
    assert!(!is_left(9));
    assert!(is_left(10));
    assert!(is_left(11));
    assert!(!is_left(12));
    assert!(!is_left(13));
    assert!(!is_left(14));
    assert!(is_left(15));
}

#[test]
fn family_works() {
    let f = family(1);
    assert_eq!(f, (3, 2));
    let f = family(2);
    assert_eq!(f, (3, 1));

    let f = family(3);
    assert_eq!(f, (7, 6));
    let f = family(6);
    assert_eq!(f, (7, 3));

    let f = family(7);
    assert_eq!(f, (15, 14));
    let f = family(14);
    assert_eq!(f, (15, 7));

    let f = family(11);
    assert_eq!(f, (13, 12));
    let f = family(12);
    assert_eq!(f, (13, 11));
}

#[test]
fn family_path_works() {
    let path = family_path(1, 3);
    assert_eq!(vec![(3, 2)], path);

    let path = family_path(1, 7);
    assert_eq!(vec![(3, 2), (7, 6)], path);

    let path = family_path(1, 15);
    assert_eq!(vec![(3, 2), (7, 6), (15, 14)], path);

    let path = family_path(8, 15);
    assert_eq!(vec![(10, 9), (14, 13), (15, 7)], path);
}

#[test]
fn family_path_invalid_args() {
    let empty: Vec<(u64, u64)> = vec![];

    let path = family_path(1, 2);
    assert_eq!(empty, path);

    let path = family_path(0, 0);
    assert_eq!(empty, path);

    let path = family_path(12, 2);
    assert_eq!(empty, path)
}

#[test]
fn peaks_are_increasing_and_end_at_size() {
    for size in 0..2000u64 {
        let p = peaks(size);
        for w in p.windows(2) {
            assert!(w[0] < w[1]);
        }
        if let Some(last) = p.last() {
            assert_eq!(*last, size);
        }
    }
}

#[test]
fn peaks_nonempty_iff_sum_of_distinct_rungs() {
    // every strictly decreasing sum of terms 2^k - 1 below 2^12
    let mut sums = vec![false; 1 << 12];
    for mask in 1u64..(1 << 12) {
        let mut total = 0u64;
        for k in 1..=12u64 {
            if mask & (1 << (k - 1)) != 0 {
                total += (1 << k) - 1;
            }
        }
        if total < (1 << 12) {
            sums[total as usize] = true;
        }
    }
    for size in 1..(1u64 << 12) {
        assert_eq!(!peaks(size).is_empty(), sums[size as usize], "size {}", size);
    }
}

#[test]
fn peaks_at_the_top_of_the_range() {
    assert_eq!(peaks(u64::MAX), vec![u64::MAX]);
    assert_eq!(peaks(u64::MAX - 1), Vec::<u64>::new());
    assert_eq!(peaks(u64::MAX >> 1), vec![u64::MAX >> 1]);
}

#[test]
fn node_height_agrees_with_is_leaf() {
    for pos in 0..500u64 {
        assert_eq!(node_height(pos) == 0, is_leaf(pos));
    }
    assert_eq!(node_height(u64::MAX), 63);
    assert!(!is_leaf(u64::MAX));
}

#[test]
fn family_is_symmetric_on_concrete_positions() {
    for pos in 1..2000u64 {
        let (parent, sibling) = family(pos);
        assert_eq!(family(sibling), (parent, pos), "pos {}", pos);
    }
}

#[test]
fn family_saturates_at_the_top_of_the_range() {
    assert_eq!(family(u64::MAX), (u64::MAX, u64::MAX));
    assert_eq!(family(0), (2, 1));
    assert!(is_left(0));
}

#[test]
fn family_path_scenarios() {
    assert_eq!(family_path(1, 3), vec![(3, 2)]);
    assert_eq!(family_path(1, 7), vec![(3, 2), (7, 6)]);
    assert_eq!(family_path(8, 15), vec![(10, 9), (14, 13), (15, 7)]);
    assert_eq!(family_path(1, 2), Vec::<(u64, u64)>::new());
    assert_eq!(family_path(12, 2), Vec::<(u64, u64)>::new());
    assert_eq!(family_path(0, 15), Vec::<(u64, u64)>::new());
}

#[test]
fn family_path_shape_and_top_of_range() {
    for end in 0..300u64 {
        for pos in 0..300u64 {
            let path = family_path(pos, end);
            if pos >= end || pos == 0 {
                assert!(path.is_empty());
            }
            for w in path.windows(2) {
                assert!(w[0].0 < w[1].0);
            }
            if let Some(last) = path.last() {
                assert!(last.0 <= end);
            }
        }
    }
    let path = family_path(1, u64::MAX);
    assert_eq!(path.len(), 63);
    assert_eq!(path[62], (u64::MAX, u64::MAX - 1));
    assert!(family_path(u64::MAX - 1, u64::MAX).len() <= 1);
}

#[test]
fn family_path_follows_family() {
    for end in [3u64, 7, 15, 19, 100, 1000] {
        for pos in 1..end {
            let path = family_path(pos, end);
            if let Some(first) = path.first() {
                assert_eq!(*first, family(pos));
            }
            for w in path.windows(2) {
                assert_eq!(w[1], family(w[0].0));
            }
        }
    }
}

#[test]
fn family_is_symmetric_near_the_top_of_the_range() {
    for pos in [u64::MAX - 1, u64::MAX - 2, u64::MAX - 3, (u64::MAX >> 1) - 1] {
        let (parent, sibling) = family(pos);
        assert_eq!(family(sibling), (parent, pos));
    }
    assert_eq!(family(u64::MAX - 1), (u64::MAX, u64::MAX >> 1));
}

use fasterhenry::pair_mask::PairMask;

/// Unordered pairs `i <= j` the mask keeps, counted one by one.
fn brute_force_kept(mask: &PairMask) -> usize {
    let n = mask.len();
    let mut count = 0;
    for j in 0..n {
        for i in 0..=j {
            if mask.keeps(i, j) {
                count += 1;
            }
        }
    }
    count
}

#[test]
fn the_full_mask_keeps_every_pair() {
    let mask = PairMask::all(4);
    assert_eq!(mask.len(), 4);
    assert!(!mask.is_empty());
    assert_eq!(mask.groups(), 1);
    assert!(mask.keeps_everything());
    assert_eq!(mask.total_pairs(), 10);
    assert_eq!(mask.kept_pairs(), 10);
    assert!(PairMask::all(0).is_empty());
    assert_eq!(PairMask::all(0).kept_pairs(), 0);
}

#[test]
fn the_predicate_is_symmetrized_and_the_diagonal_kept() {
    // Only (0, 1) is accepted, and only in that order.
    let mask = PairMask::from_groups(vec![0, 1, 2, 0], 3, |a, b| a == 0 && b == 1);
    assert!(mask.keeps(0, 1));
    assert!(mask.keeps(1, 0));
    assert!(mask.keeps(0, 3));
    assert!(mask.keeps(2, 2));
    assert!(!mask.keeps(0, 2));
    assert!(!mask.keeps(1, 2));
    assert!(!mask.keeps_everything());
}

#[test]
fn out_of_range_groups_and_filaments_are_coupled() {
    let mask = PairMask::from_groups(vec![0, 1, 7], 2, |_, _| false);
    assert!(!mask.keeps(0, 1));
    // Group 7 is beyond the table: coupled to everything.
    assert!(mask.keeps(0, 2));
    assert!(mask.keeps(2, 1));
    // Filament 9 does not exist: coupled to everything.
    assert!(mask.keeps(9, 0));
    assert!(mask.keeps(1, 9));
}

#[test]
fn kept_pairs_is_every_pair_less_the_dropped_cross_pairs() {
    let cases: Vec<(Vec<usize>, usize)> = vec![
        (vec![0, 0, 1, 1, 2], 3),
        (vec![2, 0, 1, 2, 1, 0, 5], 3),
        (vec![0, 1, 2, 3], 4),
        (vec![], 2),
        (vec![1, 1, 1], 2),
    ];
    for (group, groups) in cases {
        let mask = PairMask::from_groups(group.clone(), groups, |a, b| (a + b) % 3 == 1);
        assert_eq!(mask.kept_pairs(), brute_force_kept(&mask), "{group:?}");
        assert!(mask.kept_pairs() <= mask.total_pairs());
    }
}

#[test]
fn three_groups_of_two_with_one_coupled_pair() {
    // Groups a, b, c of two filaments each; a-b coupled, c alone.
    let mask = PairMask::from_groups(vec![0, 0, 1, 1, 2, 2], 3, |a, b| a + b == 1);
    assert_eq!(mask.total_pairs(), 21);
    // Dropped: a-c and b-c, 2 x 2 each.
    assert_eq!(mask.kept_pairs(), 21 - 8);
}

#[test]
fn keeping_is_symmetric_and_keeps_each_group_whole() {
    let group = vec![0, 1, 2, 1, 0, 2, 3];
    let mask = PairMask::from_groups(group.clone(), 3, |a, b| a < b && b - a == 1);
    for i in 0..group.len() + 1 {
        for j in 0..group.len() + 1 {
            assert_eq!(mask.keeps(i, j), mask.keeps(j, i));
            if i < group.len() && j < group.len() && group[i] == group[j] {
                assert!(mask.keeps(i, j));
            }
        }
    }
}

use fasterhenry::coupling::{Coupling, CouplingError, DEFAULT_GROUP};

fn groups(names: &[&str]) -> Vec<String> {
    names.iter().map(|name| (*name).to_owned()).collect()
}

#[test]
fn the_default_couples_everything() {
    let coupling = Coupling::all_pairs();
    assert!(coupling.is_all_pairs());
    assert!(coupling.is_trivial());
    assert!(coupling.couples("a", "b"));
    assert_eq!(coupling.group_of(7), DEFAULT_GROUP);

    let mask = coupling.pair_mask(&[2, 3]).unwrap();
    assert!(mask.keeps_everything());
    assert_eq!(mask.kept_pairs(), mask.total_pairs());
    assert_eq!(mask.len(), 5);
}

#[test]
fn truncation_drops_exactly_the_cross_group_pairs() {
    let coupling = Coupling::truncated(groups(&["a", "b"]));
    assert!(!coupling.is_all_pairs());
    assert!(coupling.couples("a", "a"));
    assert!(!coupling.couples("a", "b"));

    // Two segments, two filaments each: 10 pairs in all, the 4 cross
    // pairs dropped.
    let mask = coupling.pair_mask(&[2, 2]).unwrap();
    assert_eq!(mask.total_pairs(), 10);
    assert_eq!(mask.kept_pairs(), 6);
    assert!(mask.keeps(0, 1));
    assert!(mask.keeps(2, 2));
    assert!(!mask.keeps(0, 2));
    assert!(!mask.keeps(3, 1));
    assert!(!mask.keeps_everything());
}

#[test]
fn declaring_a_pair_keeps_it() {
    let coupling = Coupling::truncated(groups(&["a", "b", "c"])).coupled("a", "b");
    assert!(coupling.couples("a", "b"));
    assert!(coupling.couples("b", "a"));
    assert!(!coupling.couples("a", "c"));
    let mask = coupling.pair_mask(&[1, 1, 1]).unwrap();
    assert!(mask.keeps(0, 1));
    assert!(!mask.keeps(0, 2));
    assert!(!mask.keeps(1, 2));
    assert_eq!(mask.kept_pairs(), 4);
}

#[test]
fn untagged_segments_share_the_default_group() {
    let coupling = Coupling::truncated(groups(&["", "", "b"]));
    let mask = coupling.pair_mask(&[1, 1, 1]).unwrap();
    assert!(mask.keeps(0, 1), "both segments are in the default group");
    assert!(!mask.keeps(1, 2));
    // A shorter tag list leaves the rest in the default group too.
    let short = Coupling::truncated(groups(&["b"]));
    let mask = short.pair_mask(&[1, 1, 1]).unwrap();
    assert!(!mask.keeps(0, 1));
    assert!(mask.keeps(1, 2));
}

#[test]
fn unknown_and_oversized_declarations_are_errors() {
    let coupling = Coupling::truncated(groups(&["a", "b"])).coupled("a", "typo");
    assert_eq!(
        coupling.validate(2),
        Err(CouplingError::UnknownGroup {
            name: "typo".to_owned()
        })
    );
    assert!(coupling.pair_mask(&[1, 1]).is_err());

    let long = Coupling::truncated(groups(&["a", "b", "c"]));
    assert_eq!(
        long.validate(2),
        Err(CouplingError::SegmentCountMismatch {
            expected: 2,
            got: 3
        })
    );
}

#[test]
fn non_transitive_declarations_are_rejected() {
    // a--b and b--c declared, but not a--c.
    let coupling = Coupling::truncated(groups(&["a", "b", "c"]))
        .coupled("a", "b")
        .coupled("b", "c");
    assert_eq!(
        coupling.validate(3),
        Err(CouplingError::NonTransitiveCoupling {
            groups: ["a".to_owned(), "c".to_owned()]
        })
    );
    assert!(coupling.pair_mask(&[1, 1, 1]).is_err());

    // The same three groups, fully declared as a clique, validate.
    let clique = Coupling::truncated(groups(&["a", "b", "c"]))
        .coupled("a", "b")
        .coupled("b", "c")
        .coupled("a", "c");
    assert_eq!(clique.validate(3), Ok(()));

    // A single isolated pair, with a third untouched group, also validates.
    let isolated_pair = Coupling::truncated(groups(&["a", "b", "c"])).coupled("a", "b");
    assert_eq!(isolated_pair.validate(3), Ok(()));
}

#[test]
fn coupling_is_reflexive_and_symmetric() {
    let coupling = Coupling::truncated(groups(&["a", "b", "c"])).coupled("b", "c");
    for x in ["a", "b", "c", "", "zz"] {
        assert!(coupling.couples(x, x));
        for y in ["a", "b", "c", "", "zz"] {
            assert_eq!(coupling.couples(x, y), coupling.couples(y, x));
        }
    }
}

#[test]
fn a_validated_coupling_is_transitive() {
    let clique = Coupling::truncated(groups(&["a", "b", "c", "d"]))
        .coupled("a", "b")
        .coupled("b", "c")
        .coupled("a", "c");
    assert_eq!(clique.validate(4), Ok(()));
    let names = ["a", "b", "c", "d"];
    for x in names {
        for y in names {
            for z in names {
                if clique.couples(x, y) && clique.couples(y, z) {
                    assert!(clique.couples(x, z));
                }
            }
        }
    }
}

#[test]
fn group_of_and_accessors_report_the_tags() {
    let coupling = Coupling::truncated(groups(&["a", "", "b"])).coupled("a", "b");
    assert_eq!(coupling.group_of(0), "a");
    assert_eq!(coupling.group_of(1), DEFAULT_GROUP);
    assert_eq!(coupling.group_of(3), DEFAULT_GROUP);
    assert_eq!(coupling.segment_groups().len(), 3);
    let declared = coupling.declared_couples().unwrap();
    assert_eq!(declared.len(), 1);
    assert_eq!(declared[0], ["a".to_owned(), "b".to_owned()]);
    assert!(Coupling::all_pairs().declared_couples().is_none());
    assert!(!coupling.is_trivial());
    // Truncating without tags is still not the untouched default.
    assert!(!Coupling::truncated(Vec::new()).is_trivial());
}

#[test]
fn pair_mask_needs_one_count_per_segment() {
    let long = Coupling::truncated(groups(&["a", "b", "c"]));
    assert_eq!(
        long.pair_mask(&[1, 1]).map(|m| m.len()),
        Err(CouplingError::SegmentCountMismatch {
            expected: 2,
            got: 3
        })
    );
    let coupling = Coupling::truncated(groups(&["a", "b"]));
    let mask = coupling.pair_mask(&[3, 1]).unwrap();
    assert_eq!(mask.len(), 4);
    assert!(mask.keeps(0, 2));
    assert!(!mask.keeps(2, 3));
    assert_eq!(mask.kept_pairs(), 7);
}

#[test]
fn truncated_pairs_lists_the_uncoupled_group_pairs_in_order() {
    let tags = ["x", "y", "x", "z", "w"].iter().map(|t| t.to_string()).collect();
    let coupling = Coupling::truncated(tags).coupled("y", "w");
    let (of_segment, names, pairs) = coupling.truncated_pairs(5).unwrap();
    assert_eq!(of_segment, vec![0, 1, 0, 2, 3]);
    assert_eq!(names, vec!["x", "y", "z", "w"]);
    // y–w is declared; every other pair of distinct groups is cut.
    assert_eq!(pairs, vec![(0, 1), (0, 2), (0, 3), (1, 2), (2, 3)]);
}

#[test]
fn truncated_pairs_is_empty_without_truncation_and_checks_the_count() {
    let (of_segment, names, pairs) = Coupling::all_pairs().truncated_pairs(2).unwrap();
    assert_eq!(of_segment, vec![0, 0]);
    assert_eq!(names, vec![DEFAULT_GROUP]);
    assert!(pairs.is_empty());

    let tags = vec!["a".to_string(), "b".to_string(), "c".to_string()];
    assert_eq!(
        Coupling::truncated(tags).truncated_pairs(2),
        Err(CouplingError::SegmentCountMismatch { expected: 2, got: 3 })
    );
}

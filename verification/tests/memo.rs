use std::collections::HashSet;

use fasterhenry::inductance::Method;
use fasterhenry::memo::{slot, MemoTable, SLOTS};

/// The key of an aligned-bar problem: the bits of its nine numbers.
fn key(length: [f64; 2], width: [f64; 2], height: [f64; 2], offset: [f64; 3]) -> [u64; 9] {
    [
        length[0].to_bits(),
        length[1].to_bits(),
        width[0].to_bits(),
        width[1].to_bits(),
        height[0].to_bits(),
        height[1].to_bits(),
        offset[0].to_bits(),
        offset[1].to_bits(),
        offset[2].to_bits(),
    ]
}

#[test]
fn keys_differing_only_in_the_last_two_words_spread_across_the_table() {
    let mut slots = HashSet::new();
    // 15 width offsets x 7 height offsets = 105 bundle-shaped keys.
    for dw in -7..=7 {
        for dh in -3..=3 {
            let k = key(
                [10e-3, 10e-3],
                [1e-3 / 8.0, 1e-3 / 8.0],
                [35e-6 / 4.0, 35e-6 / 4.0],
                [0.0, dw as f64 * (1e-3 / 8.0), dh as f64 * (35e-6 / 4.0)],
            );
            slots.insert(slot(&k));
        }
    }
    assert!(
        slots.len() >= 40,
        "105 bundle-shaped keys used only {} of {SLOTS} slots",
        slots.len()
    );
}

#[test]
fn slots_are_in_range_and_depend_on_every_word() {
    let base = [1u64, 2, 3, 4, 5, 6, 7, 8, 9];
    assert!(slot(&base) < SLOTS);
    assert_eq!(slot(&base), slot(&base));
    let mut differs = 0;
    for word in 0..9 {
        let mut changed = base;
        changed[word] ^= 1 << 40;
        assert!(slot(&changed) < SLOTS);
        if slot(&changed) != slot(&base) {
            differs += 1;
        }
    }
    assert!(differs >= 7, "only {differs} words moved the slot");
}

/// A family of distinct keys, indexed so that the expected value is a
/// function of the index alone.
fn indexed_key(index: usize) -> [u64; 9] {
    key(
        [-1.0, -1.0 - index as f64],
        [-0.2, -0.3],
        [-0.1, -0.1],
        [index as f64 * 1e-3, 0.5, 0.25],
    )
}

#[test]
fn a_hit_returns_the_recorded_bits_and_method() {
    let mut table: MemoTable<(f64, Method)> = MemoTable::new();
    let k = indexed_key(7);
    let first = table.aligned_integral(&k, || (std::f64::consts::PI, Method::AlignedQuadrature));
    // A second call must not reach the evaluator at all.
    let second = table.aligned_integral(&k, || panic!("evaluated twice"));
    assert_eq!(first, (std::f64::consts::PI, Method::AlignedQuadrature));
    assert_eq!(second, first);
    assert_eq!(table.lookup(&k), Some(first));
}

#[test]
fn colliding_keys_never_answer_for_each_other() {
    let mut table: MemoTable<(f64, Method)> = MemoTable::new();
    let expected = |index: usize| 1.0 + index as f64;
    for round in 0..4 {
        for index in 0..8 * SLOTS {
            let got = table.aligned_integral(&indexed_key(index), || (expected(index), Method::AlignedQuadrature));
            assert_eq!(got.0, expected(index), "round {round}, index {index}");
        }
    }
}

#[test]
fn every_field_is_part_of_the_key() {
    let mut table: MemoTable<(f64, Method)> = MemoTable::new();
    let base = key([-1.0, -1.0], [-0.2, -0.2], [-0.1, -0.1], [0.0, 0.0, 0.0]);
    let seed = table.aligned_integral(&base, || (1.0, Method::AlignedQuadrature));
    assert_eq!(seed.0, 1.0);
    for word in 0..9 {
        let mut moved = base;
        moved[word] = (f64::from_bits(moved[word]) + 1e-9).to_bits();
        let got = table.aligned_integral(&moved, || (2.0, Method::AlignedQuadrature));
        assert_eq!(got.0, 2.0, "word {word} is missing from the key");
    }
}

#[test]
fn a_new_table_holds_nothing_and_a_miss_evicts_its_slot_mate() {
    let mut table: MemoTable<u32> = MemoTable::new();
    let a = indexed_key(1);
    assert_eq!(table.lookup(&a), None);
    table.record(&a, 10);
    assert_eq!(table.lookup(&a), Some(10));
    // Find another key landing in the same slot.
    let b = (2..100_000)
        .map(indexed_key)
        .find(|k| slot(k) == slot(&a))
        .expect("a slot mate exists");
    assert_eq!(table.lookup(&b), None);
    table.record(&b, 20);
    assert_eq!(table.lookup(&b), Some(20));
    assert_eq!(table.lookup(&a), None, "the slot mate was evicted");
}

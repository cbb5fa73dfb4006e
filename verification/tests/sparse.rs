use fasterhenry::sparse::mirror_upper;

fn row<V: Copy>(m: &fasterhenry::sparse::SparseRows<V>, r: usize) -> Vec<(u32, V)> {
    (m.offsets[r]..m.offsets[r + 1]).map(|k| (m.columns[k], m.values[k])).collect()
}

#[test]
fn mirrors_the_upper_triangle_into_full_rows() {
    let upper = vec![vec![(0, 1.0), (2, 2.0)], vec![(1, 3.0)], vec![(2, 4.0)]];
    let m = mirror_upper(&upper, 0.0);
    assert_eq!(m.offsets, vec![0, 2, 3, 5]);
    assert_eq!(row(&m, 0), vec![(0, 1.0), (2, 2.0)]);
    assert_eq!(row(&m, 1), vec![(1, 3.0)]);
    // Mirrored entries come first, then the row's own.
    assert_eq!(row(&m, 2), vec![(0, 2.0), (2, 4.0)]);
}

#[test]
fn the_full_matrix_is_symmetric() {
    let upper: Vec<Vec<(u32, i64)>> = vec![
        vec![(1, 10), (3, 13)],
        vec![(1, 11), (2, 12), (3, 14)],
        vec![],
        vec![(3, 33)],
    ];
    let m = mirror_upper(&upper, 0);
    let dense = |r: usize, c: u32| row(&m, r).iter().find(|e| e.0 == c).map(|e| e.1);
    for r in 0..4 {
        for c in 0..4u32 {
            assert_eq!(dense(r, c), dense(c as usize, r as u32), "({r}, {c})");
        }
    }
    assert_eq!(m.columns.len(), 2 * 6 - 2);
}

#[test]
fn an_empty_triangle_has_empty_rows() {
    let upper: Vec<Vec<(u32, f64)>> = vec![vec![], vec![]];
    let m = mirror_upper(&upper, 0.0);
    assert_eq!(m.offsets, vec![0, 0, 0]);
    assert!(m.columns.is_empty() && m.values.is_empty());
}

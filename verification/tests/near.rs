use fasterhenry::grid::GridShape;
use fasterhenry::near::{kernel_reach, near_candidates, partner_box, CellRange};

fn cells(first: [usize; 3], last: [usize; 3]) -> CellRange {
    CellRange { first, last }
}

/// `r` grown by `by` cells on every side, clipped to the grid.
fn grown(shape: GridShape, r: CellRange, by: usize) -> CellRange {
    let mut g = r;
    for a in 0..3 {
        g.first[a] = r.first[a].saturating_sub(by);
        g.last[a] = (r.last[a] + by).min(shape.dims[a] - 1);
    }
    g
}

fn overlaps(a: CellRange, b: CellRange) -> bool {
    (0..3).all(|x| a.first[x].max(b.first[x]) <= a.last[x].min(b.last[x]))
}

#[test]
fn neighbours_within_one_cell_are_candidates() {
    let shape = GridShape { dims: [4, 4, 4] };
    let boxes = vec![
        cells([0, 0, 0], [0, 0, 0]),
        cells([1, 0, 0], [1, 0, 0]),
        cells([3, 3, 3], [3, 3, 3]),
    ];
    let queries: Vec<CellRange> = boxes.iter().map(|&b| grown(shape, b, 1)).collect();
    let found = near_candidates(shape, &boxes, &queries);
    assert_eq!(found, vec![vec![0, 1], vec![1], vec![2]]);
}

#[test]
fn no_filaments_no_candidates() {
    let shape = GridShape { dims: [2, 2, 2] };
    assert!(near_candidates(shape, &[], &[]).is_empty());
}

#[test]
fn candidates_match_a_direct_check() {
    let shape = GridShape { dims: [6, 5, 4] };
    let mut boxes = Vec::new();
    let mut seed: u64 = 12345;
    let mut next = |m: usize| {
        seed = seed.wrapping_mul(6364136223846793005).wrapping_add(1442695040888963407);
        ((seed >> 33) as usize) % m
    };
    for _ in 0..40 {
        let mut first = [0; 3];
        let mut last = [0; 3];
        for a in 0..3 {
            let x = next(shape.dims[a]);
            let y = next(shape.dims[a]);
            first[a] = x.min(y);
            last[a] = x.max(y).min(first[a] + 1);
        }
        boxes.push(cells(first, last));
    }
    let queries: Vec<CellRange> = boxes.iter().map(|&b| grown(shape, b, 1)).collect();
    let found = near_candidates(shape, &boxes, &queries);
    for (i, list) in found.iter().enumerate() {
        let expected: Vec<u32> = (i..boxes.len())
            .filter(|&j| overlaps(boxes[j], queries[i]))
            .map(|j| j as u32)
            .collect();
        assert_eq!(list, &expected, "filament {i}");
        assert_eq!(list.first(), Some(&(i as u32)), "a filament is its own candidate");
    }
}

#[test]
fn partner_box_spans_every_partner() {
    let boxes = vec![
        cells([1, 2, 3], [2, 2, 4]),
        cells([0, 5, 1], [1, 6, 1]),
        cells([4, 0, 2], [7, 1, 2]),
    ];
    assert_eq!(partner_box(&[0, 2], &boxes), ([1, 0, 2], [7, 2, 4]));
    assert_eq!(partner_box(&[1], &boxes), ([0, 5, 1], [1, 6, 1]));
    assert_eq!(partner_box(&[], &boxes), ([usize::MAX; 3], [0; 3]));
}

#[test]
fn the_reach_covers_every_offset_to_the_partner_box() {
    let own = cells([2, 5, 0], [3, 5, 1]);
    let (lo, hi) = ([0, 6, 4], [4, 9, 4]);
    let reach = kernel_reach(own, lo, hi);
    assert_eq!(reach, [3, 4, 4]);
    for a in 0..3 {
        for g in own.first[a]..=own.last[a] {
            for h in lo[a]..=hi[a] {
                assert!((h as i64 - g as i64).unsigned_abs() as usize <= reach[a]);
            }
        }
    }
}

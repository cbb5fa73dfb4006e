use fasterhenry::grid::{offset_index, GridShape};

#[test]
fn index_and_point_are_inverse() {
    let g = GridShape { dims: [7, 5, 9] };
    assert_eq!(g.len(), 315);
    for index in [0, 1, 17, g.len() / 3, g.len() - 1] {
        assert_eq!(g.index(g.point(index)), index);
    }
}

#[test]
fn the_last_axis_varies_fastest() {
    let g = GridShape { dims: [4, 3, 2] };
    assert_eq!(g.index([0, 0, 1]), 1);
    assert_eq!(g.index([0, 1, 0]), 2);
    assert_eq!(g.index([1, 0, 0]), 6);
    assert_eq!(g.index([3, 2, 1]), 23);
    assert_eq!(g.point(23), [3, 2, 1]);
    assert_eq!(g.point(7), [1, 0, 1]);
}

#[test]
fn every_point_round_trips() {
    let g = GridShape { dims: [3, 4, 5] };
    for i in 0..3 {
        for j in 0..4 {
            for k in 0..5 {
                let index = g.index([i, j, k]);
                assert!(index < g.len());
                assert_eq!(g.point(index), [i, j, k]);
            }
        }
    }
}

#[test]
fn offsets_index_a_table_centred_on_zero() {
    let reach = [1, 2, 3];
    // dims 3 x 5 x 7
    assert_eq!(offset_index(reach, [-1, -2, -3]), 0);
    assert_eq!(offset_index(reach, [0, 0, 0]), (1 * 5 + 2) * 7 + 3);
    assert_eq!(offset_index(reach, [1, 2, 3]), 3 * 5 * 7 - 1);
    let g = GridShape { dims: [3, 5, 7] };
    assert_eq!(g.point(offset_index(reach, [1, -2, 0])), [2, 0, 3]);
}

use fasterhenry::geometry::NodeId;
use fasterhenry::plane::{live_bars, plane_topology, Bar, BarAxis};

fn grid(nx: usize, ny: usize, holes: &[(usize, usize)]) -> Vec<Vec<bool>> {
    (0..nx)
        .map(|i| (0..ny).map(|j| !holes.contains(&(i, j))).collect())
        .collect()
}

#[test]
fn full_plane_counts() {
    // 5x3 cells, no holes: 15 nodes, 4*3 + 5*2 = 22 bars.
    let t = plane_topology(0, &grid(5, 3, &[]));
    let nodes: Vec<NodeId> = t.centres.iter().flatten().flatten().copied().collect();
    assert_eq!(nodes.len(), 15);
    assert_eq!(nodes, (0..15).map(NodeId).collect::<Vec<_>>());
    assert_eq!(t.bars.len(), 22);
    assert_eq!(t.bars.len(), 2 * 5 * 3 - 5 - 3);
}

#[test]
fn a_hole_removes_its_cell_and_bars() {
    let t = plane_topology(0, &grid(5, 3, &[(2, 1)]));
    assert!(t.centres[2][1].is_none());
    assert_eq!(t.centres.iter().flatten().flatten().count(), 14);
    // 22 bars minus the 4 incident to the removed cell.
    assert_eq!(t.bars.len(), 18);
    // Numbering skips the removed cell: (2, 2) follows (2, 0).
    assert_eq!(t.centres[2][0], Some(NodeId(6)));
    assert_eq!(t.centres[2][2], Some(NodeId(7)));
}

#[test]
fn nodes_number_from_the_first_free_id() {
    let t = plane_topology(7, &grid(2, 2, &[]));
    assert_eq!(t.centres[0][0], Some(NodeId(7)));
    assert_eq!(t.centres[1][1], Some(NodeId(10)));
}

#[test]
fn bars_are_laid_column_by_column_x_before_y() {
    let t = plane_topology(0, &grid(5, 3, &[]));
    assert_eq!(
        t.bars[0],
        Bar { column: 0, row: 0, axis: BarAxis::X, from: NodeId(0), to: NodeId(3) }
    );
    assert_eq!(
        t.bars[1],
        Bar { column: 0, row: 0, axis: BarAxis::Y, from: NodeId(0), to: NodeId(1) }
    );
    // The last column has y bars only.
    let last: Vec<&Bar> = t.bars.iter().filter(|b| b.column == 4).collect();
    assert_eq!(last.len(), 2);
    assert!(last.iter().all(|b| b.axis == BarAxis::Y));
}

#[test]
fn every_bar_joins_live_neighbours() {
    let live = grid(4, 4, &[(1, 1), (2, 1), (3, 3)]);
    let t = plane_topology(0, &live);
    for b in &t.bars {
        let (i2, j2) = match b.axis {
            BarAxis::X => (b.column + 1, b.row),
            BarAxis::Y => (b.column, b.row + 1),
        };
        assert!(live[b.column][b.row] && live[i2][j2]);
        assert_eq!(t.centres[b.column][b.row], Some(b.from));
        assert_eq!(t.centres[i2][j2], Some(b.to));
    }
    // Pairs of adjacent live cells: 12 + 12 in the full grid, less those
    // touching a hole.
    let mut pairs = 0;
    for i in 0..4 {
        for j in 0..4 {
            if live[i][j] && i + 1 < 4 && live[i + 1][j] {
                pairs += 1;
            }
            if live[i][j] && j + 1 < 4 && live[i][j + 1] {
                pairs += 1;
            }
        }
    }
    assert_eq!(t.bars.len(), pairs);
}

#[test]
fn an_empty_plane_has_no_bars() {
    let t = plane_topology(3, &grid(3, 3, &[(0, 0), (0, 1), (0, 2), (1, 0), (1, 1), (1, 2), (2, 0), (2, 1), (2, 2)]));
    assert!(t.centres.iter().flatten().all(Option::is_none));
    assert!(t.bars.is_empty());
}

#[test]
fn the_independent_count_matches_the_bars_laid() {
    for holes in [vec![], vec![(2, 1)], vec![(0, 0), (4, 2), (2, 1), (3, 1)]] {
        let live = grid(5, 3, &holes);
        let t = plane_topology(0, &live);
        assert_eq!(live_bars(&live), t.bars.len());
    }
    assert_eq!(live_bars(&grid(5, 3, &[])), 22);
    assert_eq!(live_bars(&grid(5, 3, &[(2, 1)])), 18);
}

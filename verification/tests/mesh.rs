use fasterhenry::geometry::NodeId;
use fasterhenry::mesh::{MeshError, MeshMatrix, Port};

/// Segments given as node-index pairs.
fn segments(pairs: &[(usize, usize)]) -> Vec<(NodeId, NodeId)> {
    pairs.iter().map(|&(a, b)| (NodeId(a), NodeId(b))).collect()
}

/// A unit square ring 0-1-2-3-0 with a stub 3-4, and a separate bar 5-6.
fn ring_with_stub_and_floating_bar() -> (usize, Vec<(NodeId, NodeId)>) {
    // The ring is deliberately not oriented consistently.
    (7, segments(&[(0, 1), (2, 1), (2, 3), (0, 3), (3, 4), (5, 6)]))
}

/// Net current leaving every node when loop `row` carries unit current.
fn node_divergence(
    nodes: usize,
    segs: &[(NodeId, NodeId)],
    per_segment: &[usize],
    row: &[(usize, i8)],
) -> Vec<f64> {
    let owner: Vec<usize> = per_segment
        .iter()
        .enumerate()
        .flat_map(|(s, &n)| std::iter::repeat_n(s, n))
        .collect();
    let mut divergence = vec![0.0; nodes];
    for &(branch, sign) in row {
        let (a, b) = segs[owner[branch]];
        divergence[a.0] += sign as f64;
        divergence[b.0] -= sign as f64;
    }
    divergence
}

/// The loop-branch matrix as dense rows.
fn dense(mesh: &MeshMatrix) -> Vec<Vec<f64>> {
    let mut dense = vec![vec![0.0; mesh.branch_count()]; mesh.loop_count()];
    for i in 0..mesh.loop_count() {
        for &(branch, sign) in mesh.row(i) {
            assert_eq!(dense[i][branch], 0.0, "loop {i} repeats branch {branch}");
            dense[i][branch] = sign as f64;
        }
    }
    dense
}

/// Rank by Gaussian elimination with partial pivoting.
fn rank(mut rows: Vec<Vec<f64>>, tolerance: f64) -> usize {
    let columns = rows.first().map_or(0, |r| r.len());
    let mut rank = 0;
    for column in 0..columns {
        let pivot = (rank..rows.len()).max_by(|&a, &b| {
            rows[a][column].abs().partial_cmp(&rows[b][column].abs()).unwrap()
        });
        let Some(pivot) = pivot else { break };
        if rows[pivot][column].abs() <= tolerance {
            continue;
        }
        rows.swap(rank, pivot);
        for r in 0..rows.len() {
            if r != rank {
                let factor = rows[r][column] / rows[rank][column];
                for c in column..columns {
                    let value = rows[rank][c];
                    rows[r][c] -= factor * value;
                }
            }
        }
        rank += 1;
    }
    rank
}

#[test]
fn loops_are_closed_independent_and_complete() {
    let (nodes, segs) = ring_with_stub_and_floating_bar();
    let per_segment = [3, 1, 2, 4, 2, 3];
    let ports = [
        Port::new(NodeId(1), NodeId(4)),
        Port::new(NodeId(3), NodeId(0)),
    ];
    let mesh = MeshMatrix::build(nodes, &segs, &per_segment, &ports).unwrap();

    // Cycle-space dimension: branches - nodes + components, plus the ports.
    let branches: usize = per_segment.iter().sum();
    assert_eq!(mesh.branch_count(), branches);
    assert_eq!(mesh.internal_count(), branches - 7 + 2);
    assert_eq!(mesh.port_count(), 2);
    assert_eq!(mesh.loop_count(), mesh.internal_count() + 2);

    for i in 0..mesh.internal_count() {
        let divergence = node_divergence(nodes, &segs, &per_segment, mesh.row(i));
        assert!(
            divergence.iter().all(|&d| d == 0.0),
            "loop {i} is not closed"
        );
    }
    for (p, port) in ports.iter().enumerate() {
        let row = mesh.row(mesh.internal_count() + p);
        let mut expected = vec![0.0; 7];
        expected[port.positive.0] = 1.0;
        expected[port.negative.0] = -1.0;
        assert_eq!(node_divergence(nodes, &segs, &per_segment, row), expected);
    }

    let rank = rank(dense(&mesh), 1e-9);
    assert_eq!(rank, mesh.loop_count(), "the loops are not independent");
}

#[test]
fn single_filament_chain_has_only_the_port_loop() {
    let segs = segments(&[(0, 1), (2, 1)]);
    let mesh = MeshMatrix::build(3, &segs, &[1, 1], &[Port::new(NodeId(0), NodeId(2))]).unwrap();
    assert_eq!(mesh.internal_count(), 0);
    // Forwards along segment 0, backwards along segment 1.
    assert_eq!(mesh.row(0), &[(0, 1), (1, -1)]);

    let reversed =
        MeshMatrix::build(3, &segs, &[1, 1], &[Port::new(NodeId(2), NodeId(0))]).unwrap();
    assert_eq!(reversed.row(0), &[(1, 1), (0, -1)]);
}

#[test]
fn bundle_loops_pair_each_filament_with_the_first() {
    let segs = segments(&[(0, 1)]);
    let mesh = MeshMatrix::build(2, &segs, &[3], &[Port::new(NodeId(0), NodeId(1))]).unwrap();
    assert_eq!(mesh.internal_count(), 2);
    assert_eq!(mesh.row(0), &[(1, 1), (0, -1)]);
    assert_eq!(mesh.row(1), &[(2, 1), (0, -1)]);
    assert_eq!(mesh.row(2), &[(0, 1)]);
}

#[test]
fn construction_is_deterministic() {
    let (nodes, segs) = ring_with_stub_and_floating_bar();
    let ports = [Port::new(NodeId(0), NodeId(2)).named("across")];
    let first = MeshMatrix::build(nodes, &segs, &[2; 6], &ports).unwrap();
    assert_eq!(first, MeshMatrix::build(nodes, &segs, &[2; 6], &ports).unwrap());
}

#[test]
fn breadth_first_forest_fixes_every_loop() {
    // A square 0-1-2-3 with the diagonal 0-2: node 0 reaches 1, 3 and 2
    // directly, so segments 1 and 2 are left out of the forest.
    let segs = segments(&[(0, 1), (1, 2), (2, 3), (3, 0), (0, 2)]);
    let mesh = MeshMatrix::build(4, &segs, &[1; 5], &[Port::new(NodeId(1), NodeId(3))]).unwrap();
    assert_eq!(mesh.internal_count(), 2);
    assert_eq!(mesh.row(0), &[(1, 1), (4, -1), (0, 1)]);
    assert_eq!(mesh.row(1), &[(2, 1), (3, 1), (4, 1)]);
    assert_eq!(mesh.row(2), &[(0, -1), (3, -1)]);
}

#[test]
fn invalid_ports_and_counts_are_rejected() {
    let (nodes, segs) = ring_with_stub_and_floating_bar();
    let build = |counts: &[usize], ports: &[Port]| MeshMatrix::build(nodes, &segs, counts, ports);
    let ok = [1; 6];

    assert_eq!(build(&ok, &[]), Err(MeshError::NoPorts));
    assert_eq!(
        build(&ok, &[Port::new(NodeId(0), NodeId(7))]),
        Err(MeshError::UnknownPortNode {
            port: 0,
            node: 7,
            node_count: 7
        })
    );
    assert_eq!(
        build(
            &ok,
            &[
                Port::new(NodeId(0), NodeId(1)),
                Port::new(NodeId(2), NodeId(2))
            ]
        ),
        Err(MeshError::DegeneratePort { port: 1, node: 2 })
    );
    // Node 5 belongs to the floating bar, node 0 to the ring.
    assert_eq!(
        build(&ok, &[Port::new(NodeId(0), NodeId(5))]),
        Err(MeshError::PortNotConnected {
            port: 0,
            positive: 0,
            negative: 5
        })
    );
    assert_eq!(
        build(&[1; 5], &[Port::new(NodeId(0), NodeId(1))]),
        Err(MeshError::SegmentCountMismatch {
            expected: 6,
            got: 5
        })
    );
    assert_eq!(
        build(&[1, 1, 0, 1, 1, 1], &[Port::new(NodeId(0), NodeId(1))]),
        Err(MeshError::EmptySegment { segment: 2 })
    );
}

#[test]
fn a_node_without_segments_cannot_carry_a_port() {
    let segs = segments(&[(0, 1)]);
    assert_eq!(
        MeshMatrix::build(3, &segs, &[1], &[Port::new(NodeId(0), NodeId(2))]),
        Err(MeshError::PortNotConnected {
            port: 0,
            positive: 0,
            negative: 2
        })
    );
}

#[test]
fn the_first_faulty_port_is_reported() {
    let (nodes, segs) = ring_with_stub_and_floating_bar();
    let ports = [
        Port::new(NodeId(0), NodeId(4)),
        Port::new(NodeId(9), NodeId(8)),
        Port::new(NodeId(1), NodeId(1)),
    ];
    assert_eq!(
        MeshMatrix::build(nodes, &segs, &[1; 6], &ports),
        Err(MeshError::UnknownPortNode {
            port: 1,
            node: 9,
            node_count: 7
        })
    );
    // The negative node is checked once the positive one is known.
    assert_eq!(
        MeshMatrix::build(nodes, &segs, &[1; 6], &[Port::new(NodeId(1), NodeId(8))]),
        Err(MeshError::UnknownPortNode {
            port: 0,
            node: 8,
            node_count: 7
        })
    );
    // Filament counts are checked before the ports.
    assert_eq!(
        MeshMatrix::build(nodes, &segs, &[0; 6], &[]),
        Err(MeshError::EmptySegment { segment: 0 })
    );
}

#[test]
fn cycle_count_counts_isolated_nodes_as_components() {
    // Two disjoint triangles and an isolated node: 6 segments, 7 nodes,
    // 3 components, so one conductor loop per triangle.
    let segs = segments(&[(0, 1), (1, 2), (2, 0), (3, 4), (4, 5), (5, 3)]);
    let mesh = MeshMatrix::build(7, &segs, &[1; 6], &[Port::new(NodeId(0), NodeId(1))]).unwrap();
    assert_eq!(mesh.internal_count(), 6 + 3 - 7);
    assert_eq!(mesh.port_count(), 1);
    for i in 0..mesh.internal_count() {
        let divergence = node_divergence(7, &segs, &[1; 6], mesh.row(i));
        assert!(divergence.iter().all(|&d| d == 0.0));
    }
}

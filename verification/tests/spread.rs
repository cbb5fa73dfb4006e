use fasterhenry::spread::spread_layout;

#[test]
fn spread_layout_lists_filaments_grid_point_by_grid_point() {
    let entries = vec![vec![2, 0], vec![0], vec![2, 1]];
    let layout = spread_layout(4, &entries);
    assert_eq!(layout.projection_offsets, vec![0, 2, 3, 5]);
    assert_eq!(layout.projection_index, vec![2, 0, 0, 2, 1]);
    assert_eq!(layout.spread_offsets, vec![0, 2, 3, 5, 5]);
    assert_eq!(layout.spread_filament, vec![0, 1, 2, 0, 2]);
    assert_eq!(layout.slot, vec![3, 0, 1, 4, 2]);
    // Every entry lands where its filament is listed under its grid point.
    for (e, &place) in layout.slot.iter().enumerate() {
        let g = layout.projection_index[e] as usize;
        assert!(layout.spread_offsets[g] <= place && place < layout.spread_offsets[g + 1]);
    }
}

#[test]
fn spread_layout_of_no_filaments_is_empty() {
    let layout = spread_layout(3, &[]);
    assert_eq!(layout.projection_offsets, vec![0]);
    assert!(layout.projection_index.is_empty());
    assert_eq!(layout.spread_offsets, vec![0, 0, 0, 0]);
    assert!(layout.spread_filament.is_empty());
    assert!(layout.slot.is_empty());
}

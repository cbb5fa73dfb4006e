use fasterhenry::columns::{gather, scatter, transpose};

#[test]
fn transpose_moves_entry_r_c_to_c_r() {
    // 2 x 3, row-major.
    let from = [1, 2, 3, 4, 5, 6];
    let mut to = vec![0; 6];
    transpose(&from, &mut to, 2, 3);
    assert_eq!(to, vec![1, 4, 2, 5, 3, 6]);
    let mut back = vec![0; 6];
    transpose(&to, &mut back, 3, 2);
    assert_eq!(back, from.to_vec());
}

#[test]
fn transpose_leaves_the_tail_alone() {
    let from = [1.5, 2.5, 3.5, 4.5];
    let mut to = vec![9.0; 6];
    transpose(&from, &mut to, 2, 2);
    assert_eq!(to, vec![1.5, 3.5, 2.5, 4.5, 9.0, 9.0]);
}

#[test]
fn gather_lays_planes_out_as_columns_padded_with_zero() {
    // Two planes of stride 3 into columns of m0 = 4.
    let data = [(1.0, 0.0), (2.0, 0.0), (3.0, 0.0), (4.0, 1.0), (5.0, 1.0), (6.0, 1.0)];
    let columns = gather(&data, 4, 3, (0.0, 0.0));
    assert_eq!(columns.len(), 12);
    assert_eq!(
        columns,
        vec![
            (1.0, 0.0), (4.0, 1.0), (0.0, 0.0), (0.0, 0.0),
            (2.0, 0.0), (5.0, 1.0), (0.0, 0.0), (0.0, 0.0),
            (3.0, 0.0), (6.0, 1.0), (0.0, 0.0), (0.0, 0.0),
        ]
    );
}

#[test]
fn scatter_is_the_inverse_of_gather() {
    let data: Vec<i64> = (0..20).map(|x| x * x - 7).collect();
    // Four planes of stride 5, columns of m0 = 6.
    let columns = gather(&data, 6, 5, 0);
    let mut back = vec![0; 20];
    scatter(&columns, &mut back, 6, 5);
    assert_eq!(back, data);
}

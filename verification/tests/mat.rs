use fasterhenry::mat::matrix_record;

/// The record as the MAT v4 layout spells it out.
fn expected(name: &str, m: usize, n: usize, complex: bool, re: &[f64], im: &[f64]) -> Vec<u8> {
    let mut out = Vec::new();
    out.extend_from_slice(&0i32.to_le_bytes());
    out.extend_from_slice(&(m as i32).to_le_bytes());
    out.extend_from_slice(&(n as i32).to_le_bytes());
    out.extend_from_slice(&(complex as i32).to_le_bytes());
    out.extend_from_slice(&(name.len() as i32).to_le_bytes());
    out.extend_from_slice(name.as_bytes());
    for v in re {
        out.extend_from_slice(&v.to_le_bytes());
    }
    if complex {
        for v in im {
            out.extend_from_slice(&v.to_le_bytes());
        }
    }
    out
}

fn bits(values: &[f64]) -> Vec<u64> {
    values.iter().map(|v| v.to_bits()).collect()
}

#[test]
fn a_real_row_vector_record() {
    let freqs = [0.0, 1e6, 2.5e9];
    let record = matrix_record(b"freqs", 1, 3, false, &bits(&freqs), &[]);
    assert_eq!(record, expected("freqs", 1, 3, false, &freqs, &[]));
    assert_eq!(record.len(), 20 + 5 + 3 * 8);
    assert_eq!(&record[4..8], &[1, 0, 0, 0]);
}

#[test]
fn a_complex_matrix_record_writes_real_then_imaginary() {
    let re = [0.0049, 0.001, 0.001, 0.0051];
    let im = [0.0437, -0.5, -0.5, 0.0437];
    let record = matrix_record(b"Zc_1", 2, 2, true, &bits(&re), &bits(&im));
    assert_eq!(record, expected("Zc_1", 2, 2, true, &re, &im));
    assert_eq!(&record[12..16], &[1, 0, 0, 0]);
}

#[test]
fn the_imaginary_block_is_ignored_for_a_real_matrix() {
    let record = matrix_record(b"x", 1, 1, false, &bits(&[3.0]), &bits(&[4.0]));
    assert_eq!(record, expected("x", 1, 1, false, &[3.0], &[]));
}

use terraflow::SparseMatrix;
use terraflow::matrix_text::format_entry;
use terraflow::matrix_text::parse_entry_line;
use terraflow::sparse_matrix::SparseError;

#[test]
fn dot_concrete_case() {
    let rows = vec![0usize, 1, 2, 2];
    let cols = vec![0usize, 1, 2, 1];
    let values = vec![1i64, 3, 5, 7];
    let m = SparseMatrix::from_vecs(&rows, &cols, &values);
    assert_eq!(m.n_rows, 3);
    assert_eq!(m.n_cols, 3);
    let x = vec![1i64, 1, 1];
    let b = m.dot(&x).unwrap();
    assert_eq!(b, vec![1, 3, 12]);
}

#[test]
fn dot_and_dot_par_agree() {
    let rows = vec![0usize, 1, 2, 2, 0, 3];
    let cols = vec![0usize, 1, 2, 1, 3, 0];
    let values = vec![1i64, 3, 5, 7, -2, 11];
    let m = SparseMatrix::from_vecs(&rows, &cols, &values);
    let x = vec![4i64, -1, 2, 9];
    let serial = m.dot(&x).unwrap();
    let parallel = m.dot_par(&x).unwrap();
    assert_eq!(serial, parallel);
}

#[test]
fn dot_par_agrees_on_random_matrix() {
    let m = SparseMatrix::random(20, 60, true);
    let x = m.random_vec_like();
    let serial = m.dot(&x).unwrap();
    let parallel = m.dot_par(&x).unwrap();
    assert_eq!(serial, parallel);
    assert_eq!(serial.len(), 20);
}

#[test]
fn dot_dimension_mismatch() {
    let rows = vec![0usize, 1];
    let cols = vec![0usize, 1];
    let values = vec![1i64, 1];
    let m = SparseMatrix::from_vecs(&rows, &cols, &values);
    let x = vec![1i64, 2, 3];
    assert_eq!(m.dot(&x), Err(SparseError::DimensionMismatch));
    assert_eq!(m.dot_par(&x), Err(SparseError::DimensionMismatch));
}

#[test]
fn dot_value_out_of_range() {
    let rows = vec![0usize];
    let cols = vec![0usize];
    let values = vec![2147483648i64];
    let m = SparseMatrix::from_vecs(&rows, &cols, &values);
    let x = vec![i64::MAX];
    assert_eq!(m.dot(&x), Err(SparseError::ValueOutOfRange));
    assert_eq!(m.dot_par(&x), Err(SparseError::ValueOutOfRange));
}

#[test]
fn preprocess_sorts_and_indexes() {
    let mut m = SparseMatrix::new(4);
    m.push_entry(2, 1, 7);
    m.push_entry(0, 0, 1);
    m.push_entry(2, 0, 5);
    m.push_entry(1, 1, 3);
    m.preprocess();
    assert_eq!(m.n_rows, 3);
    assert_eq!(m.n_cols, 2);
    let keys: Vec<(usize, usize)> = m.entries.iter().map(|e| (e.row, e.col)).collect();
    assert_eq!(keys, vec![(0, 0), (1, 1), (2, 0), (2, 1)]);
    assert_eq!(m.row_indices, vec![Some((0, 0)), Some((1, 1)), Some((2, 3))]);
}

#[test]
fn row_indices_mark_empty_rows() {
    let rows = vec![0usize, 2];
    let cols = vec![0usize, 2];
    let values = vec![1i64, 1];
    let m = SparseMatrix::from_vecs(&rows, &cols, &values);
    assert_eq!(m.row_indices, vec![Some((0, 0)), None, Some((1, 1))]);
}

#[test]
fn duplicate_positions_both_count() {
    let rows = vec![0usize, 0];
    let cols = vec![0usize, 0];
    let values = vec![2i64, 3];
    let m = SparseMatrix::from_vecs(&rows, &cols, &values);
    let b = m.dot(&vec![10]).unwrap();
    assert_eq!(b, vec![50]);
}

#[test]
fn diagonal_and_off_diagonal_split() {
    let rows = vec![0usize, 0, 1, 1];
    let cols = vec![0usize, 1, 0, 1];
    let values = vec![4i64, 1, -1, 5];
    let m = SparseMatrix::from_vecs(&rows, &cols, &values);
    let diag = m.diagonal_entries();
    assert_eq!(diag.len(), 2);
    assert_eq!((diag[0].row, diag[0].col, diag[0].value), (0, 0, 4));
    assert_eq!((diag[1].row, diag[1].col, diag[1].value), (1, 1, 5));
    assert_eq!(m.diagonal_values(), vec![4, 5]);
    let off = m.off_diagonal_entries();
    assert_eq!(off.len(), 2);
    assert_eq!((off[0].row, off[0].col, off[0].value), (0, 1, 1));
    assert_eq!((off[1].row, off[1].col, off[1].value), (1, 0, -1));
}

#[test]
fn random_matrix_shape_and_ranges() {
    let m = SparseMatrix::random(5, 8, true);
    assert_eq!(m.n_rows, 5);
    assert_eq!(m.n_cols, 5);
    for e in m.entries.iter() {
        assert!(e.row < 5 && e.col < 5);
        if e.row == e.col {
            assert!((5000..10000).contains(&e.value));
        } else {
            assert!((-10..10).contains(&e.value));
        }
    }
    for r in 0..5 {
        assert!(m.entries.iter().any(|e| e.row == r && e.col == r));
    }
}

#[test]
fn sort_is_stable_for_equal_positions() {
    let mut m = SparseMatrix::new(3);
    m.push_entry(1, 1, 30);
    m.push_entry(0, 0, 10);
    m.push_entry(0, 0, 20);
    m.preprocess();
    let triples: Vec<(usize, usize, i64)> =
        m.entries.iter().map(|e| (e.row, e.col, e.value)).collect();
    // The two duplicates at (0, 0) keep their push order.
    assert_eq!(triples, vec![(0, 0, 10), (0, 0, 20), (1, 1, 30)]);
}

#[test]
fn preprocess_can_be_rerun_after_changes() {
    let mut m = SparseMatrix::new(2);
    m.push_entry(1, 1, 3);
    m.push_entry(0, 0, 1);
    m.preprocess();
    let sorted_once: Vec<(usize, usize, i64)> =
        m.entries.iter().map(|e| (e.row, e.col, e.value)).collect();
    m.preprocess();
    let sorted_twice: Vec<(usize, usize, i64)> =
        m.entries.iter().map(|e| (e.row, e.col, e.value)).collect();
    assert_eq!(sorted_once, sorted_twice);
    // New entries re-index cleanly and the dimensions grow to cover them.
    m.push_entry(4, 2, 9);
    m.preprocess();
    assert_eq!(m.n_rows, 5);
    assert_eq!(m.n_cols, 3);
    assert_eq!(m.row_indices.len(), 5);
    assert_eq!(m.dot(&vec![1, 1, 1]).unwrap(), vec![1, 3, 0, 0, 9]);
}

#[test]
fn random_vec_like_matches_columns() {
    let m = SparseMatrix::random(7, 10, true);
    let x = m.random_vec_like();
    assert_eq!(x.len(), m.n_cols);
    for v in x.iter() {
        assert!((-2147483648..2147483648).contains(v));
    }
}

#[test]
fn parse_entry_line_accepts_the_format() {
    assert_eq!(parse_entry_line(b"0 0 1"), Some((0, 0, 1)));
    assert_eq!(parse_entry_line(b"  12\t 34   -567  "), Some((12, 34, -567)));
    assert_eq!(parse_entry_line(b"2 1 7\r"), Some((2, 1, 7)));
}

#[test]
fn parse_entry_line_rejects_malformed_lines() {
    assert_eq!(parse_entry_line(b""), None);
    assert_eq!(parse_entry_line(b"1 2"), None);
    assert_eq!(parse_entry_line(b"1 2 3 4"), None);
    assert_eq!(parse_entry_line(b"a 2 3"), None);
    assert_eq!(parse_entry_line(b"1 2 --3"), None);
    assert_eq!(parse_entry_line(b"1 2 3x"), None);
    assert_eq!(parse_entry_line(b"123 4"), None);
    assert_eq!(parse_entry_line(b"1234567890123456789 0 1"), None);
}

#[test]
fn format_entry_renders_the_format() {
    assert_eq!(format_entry(0, 0, 1), b"0 0 1".to_vec());
    assert_eq!(format_entry(12, 34, -567), b"12 34 -567".to_vec());
    assert_eq!(format_entry(2, 1, 0), b"2 1 0".to_vec());
}

#[test]
fn format_and_parse_round_trip() {
    let cases: Vec<(usize, usize, i64)> = vec![
        (0, 0, 0),
        (1, 2, 3),
        (7, 0, -2147483648),
        (999999999999999999, 42, 999999999999999999),
    ];
    for (row, col, value) in cases {
        let line = format_entry(row, col, value);
        assert_eq!(parse_entry_line(&line), Some((row, col, value)));
    }
}

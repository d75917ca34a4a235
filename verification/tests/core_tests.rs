use mstdc::parsing::parse_decimal;
use mstdc::DisjointSet;
use mstdc::Matrix;
use mstdc::UpperTriangularMatrix;

#[test]
fn it_works() {
    assert_eq!(2 + 2, 4);
}

#[test]
fn adjust_endpoints_orders_pairs() {
    let mut i: usize = 5;
    let mut j: usize = 2;
    mstdc::adjust_endpoints(&mut i, &mut j);
    assert_eq!((i, j), (2, 5));

    let mut a: usize = 1;
    let mut b: usize = 4;
    mstdc::adjust_endpoints(&mut a, &mut b);
    assert_eq!((a, b), (1, 4));
}

#[test]
fn disjoint_set_test() {
    let n = 10;
    let mut ds = DisjointSet::new(n);

    for e in 0..n {
        assert_eq!(ds.representative(e), Some(e));
    }

    assert_eq!(ds.representative(n), None);

    ds.join(0, 1).unwrap();
    assert_eq!(ds.representative(0), ds.representative(1));

    ds.join(1, 2).unwrap();
    assert_eq!(ds.representative(0), ds.representative(2));

    ds.join(0, 4).unwrap();
    assert_eq!(ds.representative(1), ds.representative(4));

    assert_ne!(ds.representative(1), ds.representative(3));
}

#[test]
fn disjoint_set_counts_sets() {
    let mut ds = DisjointSet::new(4);
    assert_eq!(ds.num_sets(), 4);
    ds.join(0, 1).unwrap();
    assert_eq!(ds.num_sets(), 3);
    ds.join(2, 3).unwrap();
    assert_eq!(ds.num_sets(), 2);
    ds.join(1, 3).unwrap();
    assert_eq!(ds.num_sets(), 1);
    // joining elements already in the same set changes nothing
    ds.join(0, 2).unwrap();
    assert_eq!(ds.num_sets(), 1);
}

#[test]
fn disjoint_set_errors_and_idempotence() {
    let mut ds = DisjointSet::new(3);
    assert!(ds.join(0, 3).is_err());
    assert!(ds.join(3, 0).is_err());
    assert!(ds.join(0, 2).is_ok());

    // the representative represents itself
    let rep = ds.representative(0).unwrap();
    assert_eq!(ds.representative(rep), Some(rep));
}

#[test]
fn matrix_instantiation() {
    let mut m: Matrix<u32> = Matrix::new(10, 20, 0);

    assert_eq!(m.num_rows(), 10);
    assert_eq!(m.num_cols(), 20);

    let default_u32: u32 = Default::default();
    assert_eq!(*m.const_at(0, 0), default_u32);

    *m.at(2, 3) = 4;
    assert_eq!(*m.const_at(2, 3), 4);
}

#[test]
fn square_matrix() {
    let mut m: Matrix<bool> = Matrix::square(3, false);

    assert_eq!(m.num_rows(), 3);
    assert_eq!(m.num_cols(), 3);

    *m.at(2, 2) = true;
    *m.at(1, 1) = false;

    assert_eq!(*m.const_at(2, 2), true);
    assert_eq!(*m.const_at(1, 1), false);
}

#[test]
fn upper_triangular_matrix_instantiation() {
    let mut m: UpperTriangularMatrix<bool> = UpperTriangularMatrix::new(4, false);

    assert_eq!(m.num_rows(), 4);
    assert_eq!(m.num_cols(), 4);

    *m.at(2, 2) = true;
    assert_eq!(*m.const_at(2, 2), true);

    assert_eq!(*m.const_at(3, 3), false);
    *m.at(3, 3) = true;
    assert_eq!(*m.const_at(3, 3), true);
}

#[test]
fn decimal_parsing_exact() {
    assert_eq!(parse_decimal(b"0"), Some(0));
    assert_eq!(parse_decimal(b"123"), Some(123));
    assert_eq!(parse_decimal(b"18446744073709551615"), Some(u64::MAX));
    assert_eq!(parse_decimal(b"18446744073709551616"), None);
    assert_eq!(parse_decimal(b""), None);
    assert_eq!(parse_decimal(b"12a"), None);
    assert_eq!(parse_decimal(b"-3"), None);
}

#[test]
fn upper_triangular_matrix_symmetry() {
    // a write at an upper-triangle position is read back at both
    // orders; a write at a lower-triangle position is silently dropped
    let mut m: UpperTriangularMatrix<u64> = UpperTriangularMatrix::new(5, 0);

    *m.at(1, 3) = 7;
    assert_eq!(*m.const_at(1, 3), 7);
    assert_eq!(*m.const_at(3, 1), 7);

    *m.at(2, 4) = 9;
    assert_eq!(*m.const_at(2, 4), 9);
    assert_eq!(*m.const_at(4, 2), 9);

    // the write lands in a scratch cell, not in the matrix
    *m.at(4, 2) = 77;
    assert_eq!(*m.const_at(2, 4), 9);
    assert_eq!(*m.const_at(4, 2), 9);
    assert_eq!(*m.at(4, 2), 0);

    // distinct positions use distinct cells
    assert_eq!(*m.const_at(1, 3), 7);
    assert_eq!(*m.const_at(0, 0), 0);
}

use linalg::field::Field;
use linalg::gf101::Gf101;
use linalg::matrix::{lerp_matrix, Matrix};
use linalg::vector::Vector;
use linalg::LinalgError;

/// The residue standing for the integer `x`.
fn s(x: i64) -> Gf101 {
    if x < 0 {
        Gf101::from_u64((-x) as u64).neg()
    } else {
        Gf101::from_u64(x as u64)
    }
}

/// A deterministic test matrix of `rows x cols` integers.
fn gen(rows: usize, cols: usize, seed: i64) -> Vec<Vec<i64>> {
    (0..rows)
        .map(|i| (0..cols).map(|j| seed * 11 + 5 * i as i64 - 7 * j as i64 + 2).collect())
        .collect()
}

fn to_matrix(xs: &[Vec<i64>]) -> Matrix<Gf101> {
    Matrix::new(xs.iter().map(|row| row.iter().map(|&x| s(x)).collect()).collect()).unwrap()
}

fn expect(m: &Matrix<Gf101>, want: &[Vec<i64>]) {
    let data = m.data();
    assert_eq!(data.len(), want.len());
    for i in 0..want.len() {
        let row: Vec<Gf101> = want[i].iter().map(|&x| s(x)).collect();
        assert_eq!(data[i], row);
    }
}

fn ops_case(rows: usize, cols: usize) {
    let a = gen(rows, cols, 1);
    let b = gen(rows, cols, 2);
    let mut u = to_matrix(&a);
    let v = to_matrix(&b);
    u.add(&v).unwrap();
    let want: Vec<Vec<i64>> = (0..rows)
        .map(|i| (0..cols).map(|j| a[i][j] + b[i][j]).collect())
        .collect();
    expect(&u, &want);

    let mut u = to_matrix(&a);
    u.sub(&v).unwrap();
    let want: Vec<Vec<i64>> = (0..rows)
        .map(|i| (0..cols).map(|j| a[i][j] - b[i][j]).collect())
        .collect();
    expect(&u, &want);

    let mut u = to_matrix(&a);
    u.scl(s(9));
    let want: Vec<Vec<i64>> = (0..rows)
        .map(|i| (0..cols).map(|j| 9 * a[i][j]).collect())
        .collect();
    expect(&u, &want);
}

#[test]
fn matrices_ops_3x2() {
    ops_case(3, 2);
}

#[test]
fn matrices_ops_5x4() {
    ops_case(5, 4);
}

#[test]
fn matrices_ops_6x9() {
    ops_case(6, 9);
}

#[test]
fn matrices_ops_2x3() {
    ops_case(2, 3);
}

#[test]
fn matrices_ops_4x5() {
    ops_case(4, 5);
}

#[test]
fn matrices_ops_9x6() {
    ops_case(9, 6);
}

fn lerp_case(rows: usize, cols: usize) {
    let a = gen(rows, cols, 3);
    let b = gen(rows, cols, 4);
    let u = to_matrix(&a);
    let v = to_matrix(&b);
    let t: i64 = 37;
    let r = lerp_matrix(&u, &v, s(t)).unwrap();
    let want: Vec<Vec<i64>> = (0..rows)
        .map(|i| (0..cols).map(|j| a[i][j] + (b[i][j] - a[i][j]) * t).collect())
        .collect();
    expect(&r, &want);
}

#[test]
fn lerp_matrices_3x2() {
    lerp_case(3, 2);
}

#[test]
fn lerp_matrices_5x4() {
    lerp_case(5, 4);
}

#[test]
fn lerp_matrices_6x9() {
    lerp_case(6, 9);
}

#[test]
fn lerp_matrices_2x3() {
    lerp_case(2, 3);
}

#[test]
fn lerp_matrices_4x5() {
    lerp_case(4, 5);
}

#[test]
fn lerp_matrices_9x6() {
    lerp_case(9, 6);
}

#[test]
fn matrix_lerp_scenario() {
    let u = to_matrix(&[vec![2, 1], vec![3, 4]]);
    let v = to_matrix(&[vec![20, 10], vec![30, 40]]);
    let half = Gf101::one().div(s(2));
    let r = lerp_matrix(&u, &v, half).unwrap();
    // the midpoint: half the element-wise sum
    let want: Vec<Vec<Gf101>> = vec![
        vec![s(22).mul(half), s(11).mul(half)],
        vec![s(33).mul(half), s(44).mul(half)],
    ];
    assert_eq!(r.data(), &want);
    assert_eq!(r.at(0, 0), s(11));
    assert_eq!(r.at(1, 1), s(22));
}

#[test]
fn matrix_add_sub_mismatch_fails() {
    let mut u = to_matrix(&[vec![1, 2], vec![3, 4]]);
    let v = to_matrix(&[vec![1, 2, 3], vec![4, 5, 6]]);
    assert!(matches!(u.add(&v), Err(LinalgError::SizeMismatch)));
    assert!(matches!(u.sub(&v), Err(LinalgError::SizeMismatch)));
    expect(&u, &[vec![1, 2], vec![3, 4]]);
}

#[test]
fn matrix_inv_scl_by_zero_fails() {
    let mut u = to_matrix(&[vec![1, 2], vec![3, 4]]);
    assert!(matches!(u.inv_scl(s(0)), Err(LinalgError::DivisionByZero)));
    expect(&u, &[vec![1, 2], vec![3, 4]]);
    u.inv_scl(s(4)).unwrap();
    u.scl(s(4));
    expect(&u, &[vec![1, 2], vec![3, 4]]);
}

#[test]
fn matrix_new_rejects_ragged_rows() {
    let rows: Vec<Vec<Gf101>> = vec![vec![s(1), s(2)], vec![s(3)]];
    assert!(matches!(Matrix::new(rows), Err(LinalgError::SizeMismatch)));
}

#[test]
fn matrix_mul_mat_scenario() {
    let a = to_matrix(&[vec![1, 2], vec![3, 4]]);
    let b = to_matrix(&[vec![5, 6], vec![7, 8]]);
    let c = a.mul_mat(&b).unwrap();
    expect(&c, &[vec![19, 22], vec![43, 50]]);
    let idm = Matrix::<Gf101>::identity(2);
    let d = a.mul_mat(&idm).unwrap();
    expect(&d, &[vec![1, 2], vec![3, 4]]);
}

#[test]
fn matrix_mul_mat_mismatch_fails() {
    let a = to_matrix(&[vec![1, 2], vec![3, 4]]);
    let b = to_matrix(&[vec![5, 6], vec![7, 8], vec![9, 10]]);
    assert!(matches!(a.mul_mat(&b), Err(LinalgError::SizeMismatch)));
}

#[test]
fn matrix_mul_vec_scenario() {
    let a = to_matrix(&[vec![1, 2], vec![3, 4]]);
    let x = Vector::new(vec![s(5), s(6)]);
    let y = a.mul_vec(&x).unwrap();
    assert_eq!(y.data(), &vec![s(17), s(39)]);
    let bad = Vector::new(vec![s(5), s(6), s(7)]);
    assert!(matches!(a.mul_vec(&bad), Err(LinalgError::SizeMismatch)));
}

#[test]
fn matrix_row_broadcast_ops() {
    let mut a = to_matrix(&[vec![1, 2], vec![3, 4]]);
    let v = Vector::new(vec![s(10), s(20)]);
    a.add_vec(&v).unwrap();
    expect(&a, &[vec![11, 22], vec![13, 24]]);
    a.sub_vec(&v).unwrap();
    expect(&a, &[vec![1, 2], vec![3, 4]]);
    a.mul_vec_rows(&v).unwrap();
    expect(&a, &[vec![10, 40], vec![30, 80]]);
    let bad = Vector::new(vec![s(1)]);
    assert!(matches!(a.add_vec(&bad), Err(LinalgError::SizeMismatch)));
}

#[test]
fn matrix_transpose_scenario() {
    let a = to_matrix(&[vec![1, 2, 3], vec![4, 5, 6]]);
    let t = a.transpose();
    expect(&t, &[vec![1, 4], vec![2, 5], vec![3, 6]]);
    let tt = t.transpose();
    expect(&tt, &[vec![1, 2, 3], vec![4, 5, 6]]);
}

#[test]
fn matrix_getters() {
    let a = to_matrix(&[vec![1, 2, 3], vec![4, 5, 6]]);
    assert_eq!(a.rows(), 2);
    assert_eq!(a.cols(), 3);
    assert_eq!(a.get_rows(), 2);
    assert_eq!(a.get_cols(), 3);
    assert_eq!(a.at(1, 2), s(6));
    assert_eq!(a.get_data()[0], vec![s(1), s(2), s(3)]);
    let b = a.clone_mat();
    assert_eq!(b.data(), a.data());
}

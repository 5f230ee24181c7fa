use linalg::field::Field;
use linalg::gf101::Gf101;
use linalg::matrix::Matrix;
use linalg::LinalgError;

/// The residue standing for the integer `x`.
fn s(x: i64) -> Gf101 {
    if x < 0 {
        Gf101::from_u64((-x) as u64).neg()
    } else {
        Gf101::from_u64(x as u64)
    }
}

/// The residue standing for the fraction `num / den`.
fn frac(num: i64, den: i64) -> Gf101 {
    s(num).div(s(den))
}

fn to_matrix(xs: &[Vec<i64>]) -> Matrix<Gf101> {
    Matrix::new(xs.iter().map(|row| row.iter().map(|&x| s(x)).collect()).collect()).unwrap()
}

fn expect(m: &Matrix<Gf101>, want: &[Vec<Gf101>]) {
    let data = m.data();
    assert_eq!(data.len(), want.len());
    for i in 0..want.len() {
        assert_eq!(data[i], want[i]);
    }
}

fn expect_int(m: &Matrix<Gf101>, want: &[Vec<i64>]) {
    let data = m.data();
    assert_eq!(data.len(), want.len());
    for i in 0..want.len() {
        let row: Vec<Gf101> = want[i].iter().map(|&x| s(x)).collect();
        assert_eq!(data[i], row);
    }
}

#[test]
fn row_echelon_identity_is_identity() {
    for n in 0..6 {
        let idm = Matrix::<Gf101>::identity(n);
        let r = idm.row_echelon();
        assert_eq!(r.data(), idm.data());
    }
}

#[test]
fn row_echelon_full_rank_2x2() {
    let m = to_matrix(&[vec![1, 2], vec![3, 4]]);
    let r = m.row_echelon();
    expect_int(&r, &[vec![1, 0], vec![0, 1]]);
}

#[test]
fn row_echelon_rank_deficient() {
    let m = to_matrix(&[vec![1, 2], vec![2, 4]]);
    let r = m.row_echelon();
    expect_int(&r, &[vec![1, 2], vec![0, 0]]);
}

#[test]
fn row_echelon_wide_matrix() {
    // the wide example; the half-integer entry is an exact field element
    let m = Matrix::new(vec![
        vec![s(8), s(5), s(-2), s(4), s(28)],
        vec![s(4), frac(5, 2), s(20), s(4), s(-4)],
        vec![s(8), s(5), s(1), s(4), s(17)],
    ])
    .unwrap();
    let r = m.row_echelon();
    // the reduced row-echelon form is canonical, and its fractions are
    // exact field elements
    expect(&r, &[
        vec![s(1), frac(5, 8), s(0), s(0), frac(-73, 6)],
        vec![s(0), s(0), s(1), s(0), frac(-11, 3)],
        vec![s(0), s(0), s(0), s(1), frac(59, 2)],
    ]);
}

#[test]
fn row_echelon_leaves_input_unchanged() {
    let m = to_matrix(&[vec![1, 2], vec![3, 4]]);
    let _ = m.row_echelon();
    expect_int(&m, &[vec![1, 2], vec![3, 4]]);
}

#[test]
fn row_echelon_all_zero_matrix() {
    let m = to_matrix(&[vec![0, 0], vec![0, 0]]);
    let r = m.row_echelon();
    expect_int(&r, &[vec![0, 0], vec![0, 0]]);
}

#[test]
fn determinant_scenario() {
    let m = to_matrix(&[vec![2, 5, 3], vec![1, -2, -1], vec![1, 3, 4]]);
    assert_eq!(m.determinant().unwrap(), s(-20));
}

#[test]
fn determinant_diagonal_is_product() {
    let m = to_matrix(&[vec![2, 0, 0], vec![0, 2, 0], vec![0, 0, 2]]);
    assert_eq!(m.determinant().unwrap(), s(8));
    let m = to_matrix(&[vec![3, 0], vec![0, -7]]);
    assert_eq!(m.determinant().unwrap(), s(-21));
}

#[test]
fn determinant_upper_triangular_is_product() {
    let m = to_matrix(&[vec![2, 9, 1], vec![0, 5, 8], vec![0, 0, 4]]);
    assert_eq!(m.determinant().unwrap(), s(40));
    // a zero on the diagonal gives exactly zero
    let m = to_matrix(&[vec![2, 9, 1], vec![0, 0, 8], vec![0, 0, 4]]);
    assert_eq!(m.determinant().unwrap(), s(0));
}

#[test]
fn determinant_singular_is_zero() {
    let m = to_matrix(&[vec![1, 2], vec![2, 4]]);
    assert_eq!(m.determinant().unwrap(), s(0));
}

#[test]
fn determinant_of_swapped_rows_flips_sign() {
    let a = to_matrix(&[vec![1, 2], vec![3, 4]]);
    let b = to_matrix(&[vec![3, 4], vec![1, 2]]);
    assert_eq!(a.determinant().unwrap(), s(-2));
    assert_eq!(b.determinant().unwrap(), s(2));
}

#[test]
fn determinant_not_square_fails() {
    let m = to_matrix(&[vec![1, 2, 3], vec![4, 5, 6]]);
    assert!(matches!(m.determinant(), Err(LinalgError::NotSquare)));
}

#[test]
fn inverse_singular_fails() {
    let m = to_matrix(&[vec![2, 4], vec![1, 2]]);
    assert!(matches!(m.inverse(), Err(LinalgError::Singular)));
}

#[test]
fn inverse_not_square_fails() {
    let m = to_matrix(&[vec![1, 2, 3], vec![4, 5, 6]]);
    assert!(matches!(m.inverse(), Err(LinalgError::NotSquare)));
}

#[test]
fn inverse_of_identity() {
    let idm = Matrix::<Gf101>::identity(3);
    let inv = idm.inverse().unwrap();
    assert_eq!(inv.data(), idm.data());
}

#[test]
fn inverse_of_diagonal() {
    let m = to_matrix(&[vec![2, 0, 0], vec![0, 2, 0], vec![0, 0, 2]]);
    let inv = m.inverse().unwrap();
    let half = frac(1, 2);
    let z = s(0);
    expect(&inv, &[
        vec![half, z, z],
        vec![z, half, z],
        vec![z, z, half],
    ]);
}

#[test]
fn inverse_times_matrix_is_identity_both_ways() {
    let a = to_matrix(&[vec![8, 5, -2], vec![4, 7, 20], vec![7, 6, 1]]);
    let b = a.inverse().unwrap();
    let idm = Matrix::<Gf101>::identity(3);
    // the left-inverse direction is also proved in the library; the
    // right-inverse direction is checked here
    assert_eq!(b.mul_mat(&a).unwrap().data(), idm.data());
    assert_eq!(a.mul_mat(&b).unwrap().data(), idm.data());
}

#[test]
fn inverse_2x2_exact() {
    // [[1, 2], [3, 4]] has determinant -2; its inverse is
    // [[-2, 1], [3/2, -1/2]]
    let a = to_matrix(&[vec![1, 2], vec![3, 4]]);
    let b = a.inverse().unwrap();
    expect(&b, &[
        vec![s(-2), s(1)],
        vec![frac(3, 2), frac(-1, 2)],
    ]);
}

#[test]
fn inverse_leaves_input_unchanged() {
    let a = to_matrix(&[vec![1, 2], vec![3, 4]]);
    let _ = a.inverse().unwrap();
    expect_int(&a, &[vec![1, 2], vec![3, 4]]);
}

#[test]
fn projection_shape_from_camera_parameters() {
    // the projection builder lives with the floating-point demos; its
    // shape over the field: a diagonal-plus-corner pattern is invertible
    // whenever the diagonal entries are nonzero
    let p = to_matrix(&[
        vec![3, 0, 0, 0],
        vec![0, 3, 0, 0],
        vec![0, 0, -2, -1],
        vec![0, 0, -3, 0],
    ]);
    let inv = p.inverse().unwrap();
    let idm = Matrix::<Gf101>::identity(4);
    assert_eq!(inv.mul_mat(&p).unwrap().data(), idm.data());
}

#[test]
fn determinant_and_inverse_1x1() {
    let m = to_matrix(&[vec![4]]);
    assert_eq!(m.determinant().unwrap(), s(4));
    let inv = m.inverse().unwrap();
    expect(&inv, &[vec![frac(1, 4)]]);
    let z = to_matrix(&[vec![0]]);
    assert_eq!(z.determinant().unwrap(), s(0));
    assert!(matches!(z.inverse(), Err(LinalgError::Singular)));
}

#[test]
fn row_echelon_tall_matrix() {
    let m = to_matrix(&[vec![1, 2], vec![3, 4], vec![5, 6]]);
    let r = m.row_echelon();
    expect_int(&r, &[vec![1, 0], vec![0, 1], vec![0, 0]]);
}

use linalg::field::Field;
use linalg::gf101::Gf101;
use linalg::vector::{cross_product, lerp, lerp_scalar, Vector};
use linalg::LinalgError;

/// The residue standing for the integer `x`.
fn s(x: i64) -> Gf101 {
    if x < 0 {
        Gf101::from_u64((-x) as u64).neg()
    } else {
        Gf101::from_u64(x as u64)
    }
}

/// A deterministic test vector of dimension `n`.
fn gen(n: usize, seed: i64) -> Vec<i64> {
    (0..n).map(|i| seed * 13 + 3 * i as i64 - 17).collect()
}

fn to_vector(xs: &[i64]) -> Vector<Gf101> {
    Vector::new(xs.iter().map(|&x| s(x)).collect())
}

fn ops_roundtrip(n: usize) {
    let a = gen(n, 1);
    let b = gen(n, 2);
    let mut u = to_vector(&a);
    let v = to_vector(&b);
    u.add(&v).unwrap();
    let want: Vec<Gf101> = (0..n).map(|i| s(a[i] + b[i])).collect();
    assert_eq!(u.data(), &want);

    let mut u = to_vector(&a);
    u.sub(&v).unwrap();
    let want: Vec<Gf101> = (0..n).map(|i| s(a[i] - b[i])).collect();
    assert_eq!(u.data(), &want);

    let mut u = to_vector(&a);
    u.scl(s(7));
    let want: Vec<Gf101> = (0..n).map(|i| s(a[i] * 7)).collect();
    assert_eq!(u.data(), &want);
}

#[test]
fn vectors_ops_3() {
    ops_roundtrip(3);
}

#[test]
fn vectors_ops_5() {
    ops_roundtrip(5);
}

#[test]
fn vectors_ops_42() {
    ops_roundtrip(42);
}

#[test]
fn vectors_ops_69() {
    ops_roundtrip(69);
}

fn lincomb_case(n: usize) {
    let a = gen(n, 3);
    let b = gen(n, 4);
    let c = gen(n, 5);
    let vs = vec![to_vector(&a), to_vector(&b), to_vector(&c)];
    let coefs = vec![s(2), s(-1), s(10)];
    let r = Vector::linear_combination(&vs, &coefs).unwrap();
    let want: Vec<Gf101> = (0..n).map(|i| s(2 * a[i] - b[i] + 10 * c[i])).collect();
    assert_eq!(r.data(), &want);
}

#[test]
fn vectors_linear_combination_3() {
    lincomb_case(3);
}

#[test]
fn vectors_linear_combination_5() {
    lincomb_case(5);
}

#[test]
fn vectors_linear_combination_42() {
    lincomb_case(42);
}

#[test]
fn vectors_linear_combination_69() {
    lincomb_case(69);
}

fn bad_size_case(n: usize) {
    let vs = vec![to_vector(&gen(n, 1)), to_vector(&gen(n, 2))];
    let coefs = vec![s(1), s(2), s(3)];
    let r = Vector::linear_combination(&vs, &coefs);
    assert!(
        matches!(r, Err(LinalgError::SizeMismatch)),
        "mismatched numbers of vectors and coefficients must fail"
    );
}

#[test]
fn vector_bad_size_3() {
    bad_size_case(3);
}

#[test]
fn vector_bad_size_5() {
    bad_size_case(5);
}

#[test]
fn vector_bad_size_42() {
    bad_size_case(42);
}

#[test]
fn vector_bad_size_69() {
    bad_size_case(69);
}

fn lerp_case(n: usize) {
    let a = gen(n, 6);
    let b = gen(n, 7);
    let u = to_vector(&a);
    let v = to_vector(&b);
    let t: i64 = 29;
    let r = lerp(&u, &v, s(t)).unwrap();
    let want: Vec<Gf101> = (0..n).map(|i| s(a[i] + (b[i] - a[i]) * t)).collect();
    assert_eq!(r.data(), &want);
}

#[test]
fn test_lerp_vector3() {
    lerp_case(3);
}

#[test]
fn test_lerp_vector5() {
    lerp_case(5);
}

#[test]
fn test_lerp_vector42() {
    lerp_case(42);
}

#[test]
fn test_lerp_vector69() {
    lerp_case(69);
}

fn dot_case(n: usize) {
    let a = gen(n, 8);
    let b = gen(n, 9);
    let u = to_vector(&a);
    let v = to_vector(&b);
    let want: i64 = (0..n).map(|i| ((a[i] * b[i]) % 101 + 101) % 101).sum();
    assert_eq!(u.dot(&v).unwrap(), s(want));
    // the dot product is symmetric
    assert_eq!(u.dot(&v).unwrap(), v.dot(&u).unwrap());
}

#[test]
fn test_dot_vector3() {
    dot_case(3);
}

#[test]
fn test_dot_vector5() {
    dot_case(5);
}

#[test]
fn test_dot_vector42() {
    dot_case(42);
}

#[test]
fn test_dot_vector69() {
    dot_case(69);
}

#[test]
fn test_cross_product_vector() {
    let u = to_vector(&[0, 0, 1]);
    let v = to_vector(&[1, 0, 0]);
    assert_eq!(cross_product(&u, &v).unwrap().data(), to_vector(&[0, 1, 0]).data());
    let u = to_vector(&[4, 2, -3]);
    let v = to_vector(&[-2, -5, 16]);
    assert_eq!(
        cross_product(&u, &v).unwrap().data(),
        to_vector(&[17, -58, -16]).data()
    );
}

#[test]
fn test_cross_product_vector3() {
    let u = to_vector(&[1, 2, 3]);
    let v = to_vector(&[4, 5, 6]);
    let c = cross_product(&u, &v).unwrap();
    assert_eq!(c.data(), to_vector(&[-3, 6, -3]).data());
    // orthogonal to both operands
    assert_eq!(c.dot(&u).unwrap(), s(0));
    assert_eq!(c.dot(&v).unwrap(), s(0));
}

#[test]
fn cross_product_wrong_dimension_fails() {
    let u = to_vector(&[1, 2]);
    let v = to_vector(&[4, 5, 6]);
    assert!(matches!(cross_product(&u, &v), Err(LinalgError::SizeMismatch)));
    assert!(matches!(cross_product(&v, &u), Err(LinalgError::SizeMismatch)));
}

#[test]
fn vector_add_sub_mismatch_fails() {
    let mut u = to_vector(&[1, 2, 3]);
    let v = to_vector(&[1, 2]);
    assert!(matches!(u.add(&v), Err(LinalgError::SizeMismatch)));
    assert!(matches!(u.sub(&v), Err(LinalgError::SizeMismatch)));
    // the receiver is left unchanged
    assert_eq!(u.data(), to_vector(&[1, 2, 3]).data());
}

#[test]
fn vector_inv_scl_by_zero_fails() {
    let mut u = to_vector(&[1, 2, 3]);
    assert!(matches!(u.inv_scl(s(0)), Err(LinalgError::DivisionByZero)));
    assert_eq!(u.data(), to_vector(&[1, 2, 3]).data());
    u.inv_scl(s(2)).unwrap();
    // 3 / 2 == 3 * inv(2); twice the result gives 3 back
    let mut w = Vector::new(u.data().clone());
    w.scl(s(2));
    assert_eq!(w.data(), to_vector(&[1, 2, 3]).data());
}

#[test]
fn vector_add_scenario() {
    let mut u = to_vector(&[2, 3]);
    let v = to_vector(&[5, 7]);
    u.add(&v).unwrap();
    assert_eq!(u.data(), to_vector(&[7, 10]).data());
}

#[test]
fn vector_sub_scenario() {
    let mut u = to_vector(&[2, 3]);
    let v = to_vector(&[5, 7]);
    u.sub(&v).unwrap();
    assert_eq!(u.data(), to_vector(&[-3, -4]).data());
}

#[test]
fn vector_scl_scenario() {
    let mut u = to_vector(&[2, 3]);
    u.scl(s(2));
    assert_eq!(u.data(), to_vector(&[4, 6]).data());
}

#[test]
fn vector_add_is_associative() {
    let u = to_vector(&[1, 5, -3]);
    let v = to_vector(&[2, -7, 9]);
    let w = to_vector(&[40, 11, 6]);
    let mut left = Vector::new(u.data().clone());
    left.add(&v).unwrap();
    left.add(&w).unwrap();
    let mut vw = Vector::new(v.data().clone());
    vw.add(&w).unwrap();
    let mut right = Vector::new(u.data().clone());
    right.add(&vw).unwrap();
    assert_eq!(left.data(), right.data());
}

#[test]
fn vector_scl_composes() {
    let base = to_vector(&[3, -4, 12, 50]);
    let mut twice = Vector::new(base.data().clone());
    twice.scl(s(6));
    twice.scl(s(9));
    let mut once = Vector::new(base.data().clone());
    once.scl(s(54));
    assert_eq!(twice.data(), once.data());
}

#[test]
fn lerp_endpoints_and_midpoint() {
    let u = to_vector(&[2, 1]);
    let v = to_vector(&[4, 2]);
    assert_eq!(lerp(&u, &v, s(0)).unwrap().data(), u.data());
    assert_eq!(lerp(&u, &v, s(1)).unwrap().data(), v.data());
    // one half is the inverse of two: 51 + 51 == 1 (mod 101)
    let half = Gf101::one().div(s(2));
    assert_eq!(half, Gf101::from_u64(51));
    let mid = lerp(&u, &v, half).unwrap();
    let mut sum = Vector::new(u.data().clone());
    sum.add(&v).unwrap();
    sum.scl(half);
    assert_eq!(mid.data(), sum.data());
}

#[test]
fn lerp_scalar_scenario() {
    assert_eq!(lerp_scalar(s(0), s(1), s(0)), s(0));
    assert_eq!(lerp_scalar(s(0), s(1), s(1)), s(1));
    assert_eq!(lerp_scalar(s(21), s(42), s(3)), s(84));
}

#[test]
fn linear_combination_single_identity_coefficient() {
    let v = to_vector(&[10, -2, 33]);
    let r = Vector::linear_combination(&vec![Vector::new(v.data().clone())], &vec![s(1)]).unwrap();
    assert_eq!(r.data(), v.data());
}

#[test]
fn gf101_arithmetic() {
    // wrapping of the representative
    assert_eq!(Gf101::from_u64(103), s(2));
    assert_eq!(s(-1), Gf101::from_u64(100));
    // field division: every nonzero residue has an inverse
    for x in 1..101u64 {
        let a = Gf101::from_u64(x);
        assert_eq!(a.div(a), Gf101::one());
        assert_eq!(a.mul(Gf101::one().div(a)), Gf101::one());
    }
    assert_eq!(s(1).div(s(2)), Gf101::from_u64(51));
    assert_eq!(s(7).mul(s(8)), s(56));
    assert_eq!(s(50).add(s(60)), s(9));
    assert_eq!(s(3).sub(s(5)), s(-2));
    assert_eq!(s(20).neg(), s(81));
    assert_eq!(s(14).repr(), 14);
}

#[test]
fn dot_zero_vector_is_zero() {
    let z = to_vector(&[0, 0, 0]);
    let v = to_vector(&[5, 7, 9]);
    assert_eq!(z.dot(&v).unwrap(), s(0));
    assert_eq!(z.dot(&z).unwrap(), s(0));
}

#[test]
fn dot_mismatch_fails() {
    let u = to_vector(&[1, 2]);
    let v = to_vector(&[1, 2, 3]);
    assert!(matches!(u.dot(&v), Err(LinalgError::SizeMismatch)));
}

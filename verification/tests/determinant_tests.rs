use linalg::{Matrix, Scalar, Vector};

fn sc4(n: i64) -> Scalar {
    Scalar::from_int(n)
}

fn fr4(n: i64, d: i64) -> Scalar {
    Scalar::new(n, d).unwrap()
}

fn vv4(xs: &[Scalar]) -> Vector {
    Vector::new(xs.to_vec())
}

fn mm4(cols: &[&[i64]]) -> Matrix {
    Matrix::new(
        cols.iter()
            .map(|c| Vector::new(c.iter().map(|&x| Scalar::from_int(x)).collect()))
            .collect(),
    )
}

#[test]
fn determinant_test_subject_case_1() {
    let u = mm4(&[&[1, -1], &[-1, 1]]);
    assert_eq!(u.determinant().unwrap(), sc4(0));
}

#[test]
fn determinant_test_subject_case_2() {
    let u = mm4(&[&[2, 0, 0], &[0, 2, 0], &[0, 0, 2]]);
    assert_eq!(u.determinant().unwrap(), sc4(8));
}

#[test]
fn determinant_test_subject_case_3() {
    let u = mm4(&[&[8, 5, -2], &[4, 7, 20], &[7, 6, 1]]);
    assert_eq!(u.determinant().unwrap(), sc4(-174));
}

#[test]
fn determinant_test_subject_case_4() {
    let u = Matrix::new(vec![
        vv4(&[sc4(8), sc4(5), sc4(-2), sc4(4)]),
        vv4(&[sc4(4), fr4(5, 2), sc4(20), sc4(4)]),
        vv4(&[sc4(8), sc4(5), sc4(1), sc4(4)]),
        vv4(&[sc4(28), sc4(-4), sc4(17), sc4(1)]),
    ]);
    assert_eq!(u.determinant().unwrap(), sc4(1032));
}

#[test]
fn test_1x1() {
    let m = mm4(&[&[10]]);
    assert_eq!(m.determinant().unwrap(), sc4(10));
}

#[test]
fn test_2x2() {
    // | 1 2 | / | 3 4 |: det = 1*4 - 2*3 = -2
    let m = mm4(&[&[1, 2], &[3, 4]]);
    assert_eq!(m.determinant().unwrap(), sc4(-2));
}

#[test]
fn test_3x3() {
    // Rule of Sarrus gives -306.
    let m = mm4(&[&[6, 1, 1], &[4, -2, 5], &[2, 8, 7]]);
    assert_eq!(m.determinant().unwrap(), sc4(-306));
}

#[test]
fn test_4x4_identity() {
    let m = mm4(&[
        &[1, 0, 0, 0],
        &[0, 1, 0, 0],
        &[0, 0, 1, 0],
        &[0, 0, 0, 1],
    ]);
    assert_eq!(m.determinant().unwrap(), sc4(1));
}

#[test]
fn test_4x4_singular() {
    // Two identical rows: determinant must be 0.
    let m = mm4(&[
        &[1, 2, 3, 4],
        &[1, 2, 3, 4],
        &[5, 6, 7, 8],
        &[9, 0, 1, 2],
    ]);
    assert_eq!(m.determinant().unwrap(), sc4(0));
}

#[test]
fn test_4x4_swap_required() {
    // One row swap needed; the identity's determinant 1 becomes -1.
    let m = mm4(&[
        &[0, 1, 0, 0],
        &[1, 0, 0, 0],
        &[0, 0, 1, 0],
        &[0, 0, 0, 1],
    ]);
    assert_eq!(m.determinant().unwrap(), sc4(-1));
}

#[test]
fn test_4x4_triangular() {
    // Product of the diagonal: 2 * 3 * 4 * 5 = 120.
    let m = mm4(&[
        &[2, 5, 9, 1],
        &[0, 3, 8, 2],
        &[0, 0, 4, 3],
        &[0, 0, 0, 5],
    ]);
    assert_eq!(m.determinant().unwrap(), sc4(120));
}

#[test]
fn test_determinant_empty_matrix() {
    // The 0-by-0 matrix has determinant 0 by convention.
    let m = Matrix::new(vec![]);
    assert_eq!(m.determinant().unwrap(), sc4(0));
}

#[test]
fn test_determinant_zero_iff_rank_deficient() {
    // det == 0 exactly when rank < size, on both sides.
    let singular = mm4(&[&[1, 2], &[2, 4]]);
    assert_eq!(singular.determinant().unwrap(), sc4(0));
    assert!(singular.rank().unwrap() < singular.size());

    let regular = mm4(&[&[1, 2], &[3, 4]]);
    assert!(regular.determinant().unwrap() != sc4(0));
    assert_eq!(regular.rank().unwrap(), regular.size());
}

#[test]
fn test_determinant_swap_two_rows_flips_sign() {
    // |det(A)| == |det(A with two rows swapped)|, with opposite sign.
    let a = mm4(&[&[1, 2], &[3, 4]]);
    let swapped = mm4(&[&[2, 1], &[4, 3]]);
    let da = a.determinant().unwrap();
    let db = swapped.determinant().unwrap();
    assert_eq!(da, sc4(-2));
    assert_eq!(db, sc4(2));
    assert_eq!(da.neg(), db);
    assert_eq!(da.abs(), db.abs());
}

#[test]
fn test_determinant_swap_sign_3x3() {
    // Swapping rows 0 and 2 of a 3x3 flips the determinant's sign.
    let a = mm4(&[&[8, 5, -2], &[4, 7, 20], &[7, 6, 1]]);
    let swapped = mm4(&[&[-2, 5, 8], &[20, 7, 4], &[1, 6, 7]]);
    assert_eq!(a.determinant().unwrap(), sc4(-174));
    assert_eq!(swapped.determinant().unwrap(), sc4(174));
}

#[test]
fn test_determinant_overflow_reported() {
    // The exact pivot product does not fit in 64 bits: no answer rather
    // than a wrong one.
    let big = 1_i64 << 40;
    let m = mm4(&[&[big, 0], &[0, big]]);
    assert_eq!(m.determinant(), None);
}

use linalg::{Error, Matrix, Scalar, Vector};

fn sc5(n: i64) -> Scalar {
    Scalar::from_int(n)
}

fn fr5(n: i64, d: i64) -> Scalar {
    Scalar::new(n, d).unwrap()
}

fn vv5(xs: &[Scalar]) -> Vector {
    Vector::new(xs.to_vec())
}

fn mm5(cols: &[&[i64]]) -> Matrix {
    Matrix::new(
        cols.iter()
            .map(|c| Vector::new(c.iter().map(|&x| Scalar::from_int(x)).collect()))
            .collect(),
    )
}

#[test]
fn test_subject_inverse_identity() {
    let u = mm5(&[&[1, 0, 0], &[0, 1, 0], &[0, 0, 1]]);
    let result = u.inverse().expect("Matrix should be invertible");
    let expected = mm5(&[&[1, 0, 0], &[0, 1, 0], &[0, 0, 1]]);
    assert_eq!(result, expected);
}

#[test]
fn test_subject_inverse_diagonal() {
    let u = mm5(&[&[2, 0, 0], &[0, 2, 0], &[0, 0, 2]]);
    let result = u.inverse().expect("Matrix should be invertible");
    let expected = Matrix::new(vec![
        vv5(&[fr5(1, 2), sc5(0), sc5(0)]),
        vv5(&[sc5(0), fr5(1, 2), sc5(0)]),
        vv5(&[sc5(0), sc5(0), fr5(1, 2)]),
    ]);
    assert_eq!(result, expected);
}

#[test]
fn test_subject_inverse_complex() {
    let u = mm5(&[&[8, 5, -2], &[4, 7, 20], &[7, 6, 1]]);
    let result = u.inverse().expect("Matrix should be invertible");
    // The exact inverse, over the common denominator 174 (the determinant
    // is -174): these are the exact values behind the decimal expansions
    // 0.649425287, 0.097701149, and so on.
    let expected = Matrix::new(vec![
        vv5(&[fr5(113, 174), fr5(17, 174), fr5(-114, 174)]),
        vv5(&[fr5(-136, 174), fr5(-22, 174), fr5(168, 174)]),
        vv5(&[fr5(25, 174), fr5(13, 174), fr5(-36, 174)]),
    ]);
    assert_eq!(result, expected);
}

#[test]
fn test_inverse_singular_matrix() {
    // A matrix with a zero row is singular.
    let u = mm5(&[&[1, 2, 3], &[0, 0, 0], &[7, 8, 9]]);
    let result = u.inverse();
    assert!(result.is_err());
    assert_eq!(result.unwrap_err(), Error::SingularMatrix);
}

#[test]
fn test_inverse_property_verification() {
    // Fundamental property: A * A_inverse == Identity, exactly.
    let a = mm5(&[&[4, 7], &[2, 6]]);
    let a_inv = a.inverse().expect("Matrix should be invertible");
    let identity = a.mul_mat(&a_inv).unwrap();
    let expected_identity = mm5(&[&[1, 0], &[0, 1]]);
    assert_eq!(identity, expected_identity);
}

#[test]
fn test_inverse_2x2_simple() {
    // [1, 2] / [3, 4]: det = -2, inverse = [-2, 1] / [1.5, -0.5].
    let u = mm5(&[&[1, 2], &[3, 4]]);
    let result = u.inverse().expect("Invertible");
    let expected = Matrix::new(vec![
        vv5(&[sc5(-2), sc5(1)]),
        vv5(&[fr5(3, 2), fr5(-1, 2)]),
    ]);
    assert_eq!(result, expected);
}

#[test]
fn test_inverse_of_inverse() {
    // inverse(inverse(A)) == A, exactly.
    let a = mm5(&[&[4, 7], &[2, 6]]);
    let back = a.inverse().unwrap().inverse().unwrap();
    assert_eq!(back, a);
}

#[test]
fn test_inverse_times_original_both_sides() {
    // A * A⁻¹ == A⁻¹ * A == Identity for a 3x3 matrix.
    let a = mm5(&[&[8, 5, -2], &[4, 7, 20], &[7, 6, 1]]);
    let a_inv = a.inverse().unwrap();
    let identity = Matrix::identity(3);
    assert_eq!(a.mul_mat(&a_inv).unwrap(), identity);
    assert_eq!(a_inv.mul_mat(&a).unwrap(), identity);
}

#[test]
fn test_inverse_zero_matrix_singular() {
    // The all-zero 3x3 matrix: rank 0, determinant 0, no inverse.
    let z = mm5(&[&[0, 0, 0], &[0, 0, 0], &[0, 0, 0]]);
    assert_eq!(z.rank().unwrap(), 0);
    assert_eq!(z.determinant().unwrap(), sc5(0));
    assert_eq!(z.inverse().unwrap_err(), Error::SingularMatrix);
}

#[test]
fn test_identity_scenario() {
    // Identity 3x3: determinant 1, rank 3, inverse identity.
    let id = Matrix::identity(3);
    assert_eq!(id.determinant().unwrap(), sc5(1));
    assert_eq!(id.rank().unwrap(), 3);
    assert_eq!(id.inverse().unwrap(), Matrix::identity(3));
}

#[test]
fn test_singular_scenario() {
    // [[1, 2], [2, 4]]: singular, determinant 0, rank 1.
    let u = mm5(&[&[1, 2], &[2, 4]]);
    assert_eq!(u.determinant().unwrap(), sc5(0));
    assert_eq!(u.rank().unwrap(), 1);
    assert_eq!(u.inverse().unwrap_err(), Error::SingularMatrix);
}

#[test]
fn test_swap_scenario() {
    // [[0, 1], [1, 0]] needs exactly one row swap: determinant -1.
    let u = mm5(&[&[0, 1], &[1, 0]]);
    assert_eq!(u.determinant().unwrap(), sc5(-1));
    assert_eq!(u.rank().unwrap(), 2);
}

#[test]
fn test_back_substitution_ops_finish_the_identity() {
    // Replaying forward and back operations onto the reduced matrix of an
    // invertible matrix yields the identity.
    let a = mm5(&[&[1, 2], &[3, 4]]);
    let (reduced, details) = a.row_echelon_with_details().unwrap();
    let back_ops = reduced.back_substitution().unwrap();
    let mut work = reduced.duplicate();
    assert!(work.apply_all(&back_ops));
    assert_eq!(work, Matrix::identity(2));
    assert_eq!(details.tracked_pivots.len(), 2);
}

#[test]
fn test_unrepresentable_reduction_reported() {
    // Elimination would need the denominator 3 * (2^62 + 1), which does not
    // fit in 64 bits: every consumer reports it instead of answering wrong.
    let big = (1_i64 << 62) + 1;
    let m = Matrix::new(vec![
        vv5(&[sc5(big), sc5(1)]),
        vv5(&[sc5(1), fr5(1, 3)]),
    ]);
    assert!(m.row_echelon().is_none());
    assert!(m.rank().is_none());
    assert_eq!(m.determinant(), None);
    assert_eq!(m.inverse().unwrap_err(), Error::Unrepresentable);
}

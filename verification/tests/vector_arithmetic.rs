use linalg::{Scalar, Vector};

fn sc1(n: i64) -> Scalar {
    Scalar::from_int(n)
}

fn vv1(xs: &[i64]) -> Vector {
    Vector::new(xs.iter().map(|&x| Scalar::from_int(x)).collect())
}

fn scalars_of1(xs: &[i64]) -> Vec<Scalar> {
    xs.iter().map(|&x| Scalar::from_int(x)).collect()
}

// ---------------------------------------------------------------------------
// Addition
// ---------------------------------------------------------------------------

#[test]
fn test_owned_owned() {
    let mut v1 = vv1(&[1, 2, 3]);
    let v2 = vv1(&[4, 5, 6]);
    assert!(v1.add(&v2));
    assert_eq!(v1.scalars(), &scalars_of1(&[5, 7, 9]));
}

#[test]
fn test_owned_ref() {
    let mut v1 = vv1(&[10, 20]);
    let v2 = vv1(&[1, 2]);
    assert!(v1.add(&v2));
    assert_eq!(v1.scalars(), &scalars_of1(&[11, 22]));
}

#[test]
fn test_ref_ref() {
    let v1 = vv1(&[1, 1]);
    let v2 = vv1(&[2, 2]);
    let mut result = v1.duplicate();
    assert!(result.add(&v2));
    assert_eq!(result.scalars(), &scalars_of1(&[3, 3]));
    // Ensure originals are still valid
    assert_eq!(v1.scalars(), &scalars_of1(&[1, 1]));
    assert_eq!(v2.scalars(), &scalars_of1(&[2, 2]));
}

#[test]
fn test_assign_owned() {
    let mut v1 = vv1(&[0, 10]);
    assert!(v1.add(&vv1(&[1, 1])));
    assert_eq!(v1.scalars(), &scalars_of1(&[1, 11]));
}

#[test]
fn test_assign_ref() {
    let mut v1 = vv1(&[5, 5]);
    let v2 = vv1(&[1, 2]);
    assert!(v1.add(&v2));
    assert_eq!(v1.scalars(), &scalars_of1(&[6, 7]));
}

// ---------------------------------------------------------------------------
// Subtraction
// ---------------------------------------------------------------------------

#[test]
fn test_assign() {
    let mut v1 = vv1(&[10, 10]);
    let v2 = vv1(&[3, 4]);
    assert!(v1.sub(&v2));
    assert_eq!(v1.scalars(), &scalars_of1(&[7, 6]));
}

#[test]
fn test_negative_result() {
    let mut v1 = vv1(&[0, 0]);
    let v2 = vv1(&[1, 1]);
    assert!(v1.sub(&v2));
    assert_eq!(v1.scalars(), &scalars_of1(&[-1, -1]));
}

// ---------------------------------------------------------------------------
// Scalar multiplication
// ---------------------------------------------------------------------------

#[test]
fn test_owned_scalar() {
    let mut v1 = vv1(&[1, -2, 3]);
    assert!(v1.scl(sc1(2)));
    assert_eq!(v1.scalars(), &scalars_of1(&[2, -4, 6]));
}

#[test]
fn test_ref_scalar() {
    let v1 = vv1(&[10, 20]);
    let mut result = v1.duplicate();
    assert!(result.scl(sc1(3)));
    assert_eq!(result.scalars(), &scalars_of1(&[30, 60]));
    // Ensure original is preserved
    assert_eq!(v1.scalars(), &scalars_of1(&[10, 20]));
}

#[test]
fn test_zero() {
    let mut v1 = vv1(&[1, 2, 3]);
    assert!(v1.scl(sc1(0)));
    assert_eq!(v1.scalars(), &scalars_of1(&[0, 0, 0]));
}

// ---------------------------------------------------------------------------
// Component-wise vector multiplication
// ---------------------------------------------------------------------------

#[test]
fn test_ref_owned() {
    let v1 = vv1(&[1, 2]);
    let v2 = vv1(&[3, 4]);
    let mut result = v1.duplicate();
    assert!(result.mul(&v2));
    assert_eq!(result.scalars(), &scalars_of1(&[3, 8]));
}

#[test]
fn test_with_negatives() {
    let mut v1 = vv1(&[-1, 2, -3]);
    let v2 = vv1(&[2, -3, 4]);
    assert!(v1.mul(&v2));
    assert_eq!(v1.scalars(), &scalars_of1(&[-2, -6, -12]));
}

#[test]
fn test_with_zeros() {
    let mut v1 = vv1(&[0, 5, 10]);
    let v2 = vv1(&[7, 0, 3]);
    assert!(v1.mul(&v2));
    assert_eq!(v1.scalars(), &scalars_of1(&[0, 0, 30]));
}

// ---------------------------------------------------------------------------
// The same operations through the second test set of the original
// ---------------------------------------------------------------------------

#[test]
fn tests_test_owned_owned() {
    let mut v1 = vv1(&[1, 2, 3]);
    let v2 = vv1(&[4, 5, 6]);
    assert!(v1.add(&v2));
    assert_eq!(v1.scalars(), &scalars_of1(&[5, 7, 9]));
}

#[test]
fn tests_test_owned_ref() {
    let mut v1 = vv1(&[10, 20]);
    let v2 = vv1(&[1, 2]);
    assert!(v1.add(&v2));
    assert_eq!(v1.scalars(), &scalars_of1(&[11, 22]));
}

#[test]
fn tests_test_ref_ref() {
    let v1 = vv1(&[1, 1]);
    let v2 = vv1(&[2, 2]);
    let mut result = v1.duplicate();
    assert!(result.add(&v2));
    assert_eq!(result.scalars(), &scalars_of1(&[3, 3]));
    assert_eq!(v1.scalars(), &scalars_of1(&[1, 1]));
    assert_eq!(v2.scalars(), &scalars_of1(&[2, 2]));
}

#[test]
fn tests_test_assign_owned() {
    let mut v1 = vv1(&[0, 10]);
    assert!(v1.add(&vv1(&[1, 1])));
    assert_eq!(v1.scalars(), &scalars_of1(&[1, 11]));
}

#[test]
fn tests_test_assign_ref() {
    let mut v1 = vv1(&[5, 5]);
    let v2 = vv1(&[1, 2]);
    assert!(v1.add(&v2));
    assert_eq!(v1.scalars(), &scalars_of1(&[6, 7]));
}

#[test]
fn tests_test_assign() {
    let mut v1 = vv1(&[10, 10]);
    let v2 = vv1(&[3, 4]);
    assert!(v1.sub(&v2));
    assert_eq!(v1.scalars(), &scalars_of1(&[7, 6]));
}

#[test]
fn tests_test_negative_result() {
    let mut v1 = vv1(&[0, 0]);
    let v2 = vv1(&[1, 1]);
    assert!(v1.sub(&v2));
    assert_eq!(v1.scalars(), &scalars_of1(&[-1, -1]));
}

#[test]
fn tests_test_owned_scalar() {
    let mut v1 = vv1(&[1, -2, 3]);
    assert!(v1.scl(sc1(2)));
    assert_eq!(v1.scalars(), &scalars_of1(&[2, -4, 6]));
}

#[test]
fn tests_test_ref_scalar() {
    let v1 = vv1(&[10, 20]);
    let mut result = v1.duplicate();
    assert!(result.scl(sc1(3)));
    assert_eq!(result.scalars(), &scalars_of1(&[30, 60]));
    assert_eq!(v1.scalars(), &scalars_of1(&[10, 20]));
}

#[test]
fn tests_test_zero() {
    let mut v1 = vv1(&[1, 2, 3]);
    assert!(v1.scl(sc1(0)));
    assert_eq!(v1.scalars(), &scalars_of1(&[0, 0, 0]));
}

// ---------------------------------------------------------------------------
// The explicitly named add/sub/mul set of the original
// ---------------------------------------------------------------------------

#[test]
fn test_add_owned_owned() {
    let mut v1 = vv1(&[1, 2, 3]);
    let v2 = vv1(&[4, 5, 6]);
    assert!(v1.add(&v2));
    assert_eq!(v1.scalars(), &scalars_of1(&[5, 7, 9]));
}

#[test]
fn test_add_owned_ref() {
    let mut v1 = vv1(&[10, 20]);
    let v2 = vv1(&[1, 2]);
    assert!(v1.add(&v2));
    assert_eq!(v1.scalars(), &scalars_of1(&[11, 22]));
}

#[test]
fn test_add_ref_ref() {
    let v1 = vv1(&[1, 1]);
    let v2 = vv1(&[2, 2]);
    let mut result = v1.duplicate();
    assert!(result.add(&v2));
    assert_eq!(result.scalars(), &scalars_of1(&[3, 3]));
    assert_eq!(v1.scalars(), &scalars_of1(&[1, 1]));
    assert_eq!(v2.scalars(), &scalars_of1(&[2, 2]));
}

#[test]
fn test_add_assign_owned() {
    let mut v1 = vv1(&[0, 10]);
    assert!(v1.add(&vv1(&[1, 1])));
    assert_eq!(v1.scalars(), &scalars_of1(&[1, 11]));
}

#[test]
fn test_add_assign_ref() {
    let mut v1 = vv1(&[5, 5]);
    let v2 = vv1(&[1, 2]);
    assert!(v1.add(&v2));
    assert_eq!(v1.scalars(), &scalars_of1(&[6, 7]));
}

#[test]
fn test_sub_owned_owned() {
    let mut v1 = vv1(&[10, 20]);
    let v2 = vv1(&[1, 2]);
    assert!(v1.sub(&v2));
    assert_eq!(v1.scalars(), &scalars_of1(&[9, 18]));
}

#[test]
fn test_sub_ref_ref() {
    let v1 = vv1(&[5, 5, 5]);
    let v2 = vv1(&[1, 1, 1]);
    let mut result = v1.duplicate();
    assert!(result.sub(&v2));
    assert_eq!(result.scalars(), &scalars_of1(&[4, 4, 4]));
}

#[test]
fn test_sub_assign() {
    let mut v1 = vv1(&[10, 10]);
    let v2 = vv1(&[3, 4]);
    assert!(v1.sub(&v2));
    assert_eq!(v1.scalars(), &scalars_of1(&[7, 6]));
}

#[test]
fn arithmetics_test_negative_result() {
    let mut v1 = vv1(&[0, 0]);
    let v2 = vv1(&[1, 1]);
    assert!(v1.sub(&v2));
    assert_eq!(v1.scalars(), &scalars_of1(&[-1, -1]));
}

#[test]
fn test_mul_owned_scalar() {
    let mut v1 = vv1(&[1, -2, 3]);
    assert!(v1.scl(sc1(2)));
    assert_eq!(v1.scalars(), &scalars_of1(&[2, -4, 6]));
}

#[test]
fn test_mul_ref_scalar() {
    let v1 = vv1(&[10, 20]);
    let mut result = v1.duplicate();
    assert!(result.scl(sc1(3)));
    assert_eq!(result.scalars(), &scalars_of1(&[30, 60]));
    assert_eq!(v1.scalars(), &scalars_of1(&[10, 20]));
}

#[test]
fn test_mul_assign() {
    let mut v1 = vv1(&[2, 4]);
    assert!(v1.scl(sc1(2)));
    assert_eq!(v1.scalars(), &scalars_of1(&[4, 8]));
}

#[test]
fn test_mul_zero() {
    let mut v1 = vv1(&[1, 2, 3]);
    assert!(v1.scl(sc1(0)));
    assert_eq!(v1.scalars(), &scalars_of1(&[0, 0, 0]));
}

#[test]
fn arithmetics_test_ref_ref() {
    let v1 = vv1(&[5, 5, 5]);
    let v2 = vv1(&[1, 1, 1]);
    let mut result = v1.duplicate();
    assert!(result.sub(&v2));
    assert_eq!(result.scalars(), &scalars_of1(&[4, 4, 4]));
}

#[test]
fn arithmetics_test_assign_ref() {
    let mut v1 = vv1(&[1, 2]);
    let v2 = vv1(&[3, 4]);
    assert!(v1.mul(&v2));
    assert_eq!(v1.scalars(), &scalars_of1(&[3, 8]));
}

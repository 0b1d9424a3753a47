use linalg::{cross_product, lerp_generic, linear_combination, Matrix, Scalar, Vector};

fn sc6(n: i64) -> Scalar {
    Scalar::from_int(n)
}

fn fr6(n: i64, d: i64) -> Scalar {
    Scalar::new(n, d).unwrap()
}

fn vv6(xs: &[i64]) -> Vector {
    Vector::new(xs.iter().map(|&x| Scalar::from_int(x)).collect())
}

fn mm6(cols: &[&[i64]]) -> Matrix {
    Matrix::new(
        cols.iter()
            .map(|c| Vector::new(c.iter().map(|&x| Scalar::from_int(x)).collect()))
            .collect(),
    )
}

fn scalars_of6(xs: &[i64]) -> Vec<Scalar> {
    xs.iter().map(|&x| Scalar::from_int(x)).collect()
}

// ---------------------------------------------------------------------------
// Dot product
// ---------------------------------------------------------------------------

#[test]
fn dot_product_test_subject_case_1() {
    // [0, 0] . [1, 1] = 0
    let u = vv6(&[0, 0]);
    let v = vv6(&[1, 1]);
    assert_eq!(u.dot(&v).unwrap(), sc6(0));
}

#[test]
fn dot_product_test_subject_case_2() {
    // [1, 1] . [1, 1] = 2
    let u = vv6(&[1, 1]);
    let v = vv6(&[1, 1]);
    assert_eq!(u.dot(&v).unwrap(), sc6(2));
}

#[test]
fn dot_product_test_subject_case_3() {
    // [-1, 6] . [3, 2] = 9
    let u = vv6(&[-1, 6]);
    let v = vv6(&[3, 2]);
    assert_eq!(u.dot(&v).unwrap(), sc6(9));
}

#[test]
fn test_orthogonality() {
    let u = vv6(&[1, 0]);
    let v = vv6(&[0, 1]);
    assert_eq!(u.dot(&v).unwrap(), sc6(0));
}

#[test]
fn test_collinear_opposite() {
    let u = vv6(&[2, 0]);
    let v = vv6(&[-2, 0]);
    assert_eq!(u.dot(&v).unwrap(), sc6(-4));
}

#[test]
fn test_commutativity() {
    let u = vv6(&[2, 3]);
    let v = vv6(&[4, 5]);
    let res1 = u.dot(&v).unwrap();
    let res2 = v.dot(&u).unwrap();
    assert_eq!(res1, res2);
    assert_eq!(res1, sc6(23));
}

#[test]
fn test_larger_dimension() {
    let u = vv6(&[1, 2, 3]);
    let v = vv6(&[4, -5, 6]);
    assert_eq!(u.dot(&v).unwrap(), sc6(12));
}

#[test]
fn test_identity_magnitude_squared() {
    // Dot product with self is the magnitude squared.
    let u = vv6(&[3, 4]);
    assert_eq!(u.dot(&u).unwrap(), sc6(25));
}

// ---------------------------------------------------------------------------
// Cross product
// ---------------------------------------------------------------------------

#[test]
fn test_subject_cross_product_axes() {
    // Z cross X gives Y.
    let u = vv6(&[0, 0, 1]);
    let v = vv6(&[1, 0, 0]);
    let res = cross_product(&u, &v).unwrap();
    assert_eq!(res.scalars(), &scalars_of6(&[0, 1, 0]));
}

#[test]
fn test_subject_cross_product_standard() {
    let u = vv6(&[1, 2, 3]);
    let v = vv6(&[4, 5, 6]);
    let res = cross_product(&u, &v).unwrap();
    assert_eq!(res.scalars(), &scalars_of6(&[-3, 6, -3]));
}

#[test]
fn test_subject_cross_product_complex() {
    let u = vv6(&[4, 2, -3]);
    let v = vv6(&[-2, -5, 16]);
    let res = cross_product(&u, &v).unwrap();
    assert_eq!(res.scalars(), &scalars_of6(&[17, -58, -16]));
}

#[test]
fn test_cross_product_zero_vector() {
    let u = vv6(&[1, 2, 3]);
    let z = vv6(&[0, 0, 0]);
    let res = cross_product(&u, &z).unwrap();
    assert_eq!(res.scalars(), &scalars_of6(&[0, 0, 0]));
}

#[test]
fn test_cross_product_self() {
    let u = vv6(&[42, -12, 7]);
    let res = cross_product(&u, &u).unwrap();
    assert_eq!(res.scalars(), &scalars_of6(&[0, 0, 0]));
}

#[test]
fn test_cross_product_anticommutativity() {
    // u x v == -(v x u)
    let u = vv6(&[1, 2, 3]);
    let v = vv6(&[4, 5, 6]);
    let uv = cross_product(&u, &v).unwrap();
    let vu = cross_product(&v, &u).unwrap();
    assert_eq!(uv.scalars()[0], vu.scalars()[0].neg());
    assert_eq!(uv.scalars()[1], vu.scalars()[1].neg());
    assert_eq!(uv.scalars()[2], vu.scalars()[2].neg());
}

#[test]
fn test_cross_product_integers() {
    let u = vv6(&[1, 0, 0]);
    let v = vv6(&[0, 1, 0]);
    let res = cross_product(&u, &v).unwrap();
    assert_eq!(res.scalars(), &scalars_of6(&[0, 0, 1]));
}

// ---------------------------------------------------------------------------
// Linear combination
// ---------------------------------------------------------------------------

#[test]
fn test_simple() {
    // 2*[1, 0] + 3*[0, 1] = [2, 3]
    let vectors = vec![vv6(&[1, 0]), vv6(&[0, 1])];
    let coefficients = vec![sc6(2), sc6(3)];
    let result = linear_combination(&vectors, &coefficients).unwrap();
    assert_eq!(result.scalars(), &scalars_of6(&[2, 3]));
}

#[test]
fn test_three_vectors() {
    let vectors = vec![vv6(&[1, 0, 0]), vv6(&[0, 1, 0]), vv6(&[0, 0, 1])];
    let coefficients = vec![sc6(1), sc6(2), sc6(3)];
    let result = linear_combination(&vectors, &coefficients).unwrap();
    assert_eq!(result.scalars(), &scalars_of6(&[1, 2, 3]));
}

#[test]
fn linear_combination_test_with_negatives() {
    // -1*[1, 2] + 2*[3, 4] = [5, 6]
    let vectors = vec![vv6(&[1, 2]), vv6(&[3, 4])];
    let coefficients = vec![sc6(-1), sc6(2)];
    let result = linear_combination(&vectors, &coefficients).unwrap();
    assert_eq!(result.scalars(), &scalars_of6(&[5, 6]));
}

#[test]
fn linear_combination_test_with_zeros() {
    // 0*[1, 2] + 5*[3, 4] = [15, 20]
    let vectors = vec![vv6(&[1, 2]), vv6(&[3, 4])];
    let coefficients = vec![sc6(0), sc6(5)];
    let result = linear_combination(&vectors, &coefficients).unwrap();
    assert_eq!(result.scalars(), &scalars_of6(&[15, 20]));
}

#[test]
fn test_single_vector() {
    // 5*[2, 3, 4] = [10, 15, 20]
    let vectors = vec![vv6(&[2, 3, 4])];
    let coefficients = vec![sc6(5)];
    let result = linear_combination(&vectors, &coefficients).unwrap();
    assert_eq!(result.scalars(), &scalars_of6(&[10, 15, 20]));
}

// ---------------------------------------------------------------------------
// Linear interpolation
// ---------------------------------------------------------------------------

#[test]
fn linear_interpolation_test_subject_case_1() {
    // lerp(0, 1, 0) -> 0
    assert_eq!(lerp_generic(sc6(0), sc6(1), sc6(0)).unwrap(), sc6(0));
}

#[test]
fn linear_interpolation_test_subject_case_2() {
    // lerp(0, 1, 1) -> 1
    assert_eq!(lerp_generic(sc6(0), sc6(1), sc6(1)).unwrap(), sc6(1));
}

#[test]
fn linear_interpolation_test_subject_case_3() {
    // lerp(0, 1, 1/2) -> 1/2
    assert_eq!(lerp_generic(sc6(0), sc6(1), fr6(1, 2)).unwrap(), fr6(1, 2));
}

#[test]
fn linear_interpolation_test_subject_case_4() {
    // lerp(21, 42, 3/10) -> 27.3 exactly
    assert_eq!(
        lerp_generic(sc6(21), sc6(42), fr6(3, 10)).unwrap(),
        fr6(273, 10)
    );
}

#[test]
fn test_reverse_direction() {
    // Start at 42, go towards 21 with t = 3/10: 42 - 6.3 = 35.7 exactly.
    assert_eq!(
        lerp_generic(sc6(42), sc6(21), fr6(3, 10)).unwrap(),
        fr6(357, 10)
    );
}

// ---------------------------------------------------------------------------
// Trace and transpose
// ---------------------------------------------------------------------------

#[test]
fn test_subject_trace_identity() {
    let u = mm6(&[&[1, 0], &[0, 1]]);
    assert_eq!(u.trace().unwrap(), sc6(2));
}

#[test]
fn test_subject_trace_3x3_positive() {
    let u = mm6(&[&[2, -5, 0], &[4, 3, 7], &[-2, 3, 4]]);
    assert_eq!(u.trace().unwrap(), sc6(9));
}

#[test]
fn test_subject_trace_3x3_negative() {
    let u = mm6(&[&[-2, -8, 4], &[1, -23, 4], &[0, 6, 4]]);
    assert_eq!(u.trace().unwrap(), sc6(-21));
}

#[test]
fn test_trace_1x1() {
    // Trace of a 1x1 matrix is its single entry, 42.5 here.
    let u = Matrix::new(vec![Vector::new(vec![fr6(85, 2)])]);
    assert_eq!(u.trace().unwrap(), fr6(85, 2));
}

#[test]
fn test_trace_integers() {
    let u = mm6(&[&[10, 2], &[3, 5]]);
    assert_eq!(u.trace().unwrap(), sc6(15));
}

#[test]
fn test_trace_zero_matrix() {
    let u = mm6(&[&[0, 0, 0], &[0, 0, 0], &[0, 0, 0]]);
    assert_eq!(u.trace().unwrap(), sc6(0));
}

#[test]
fn test_trace_empty_matrix() {
    let u = Matrix::new(vec![]);
    assert_eq!(u.trace().unwrap(), sc6(0));
}

#[test]
fn test_transpose_square() {
    let m = mm6(&[&[1, 2], &[3, 4]]);
    let t = m.transpose();
    assert_eq!(t.vectors()[0].scalars(), &scalars_of6(&[1, 3]));
    assert_eq!(t.vectors()[1].scalars(), &scalars_of6(&[2, 4]));
}

#[test]
fn test_transpose_rectangular_wide() {
    let m = mm6(&[&[1, 2, 3], &[4, 5, 6]]);
    let t = m.transpose();
    assert_eq!(t.vectors().len(), 3);
    assert_eq!(t.vectors()[0].scalars(), &scalars_of6(&[1, 4]));
    assert_eq!(t.vectors()[1].scalars(), &scalars_of6(&[2, 5]));
    assert_eq!(t.vectors()[2].scalars(), &scalars_of6(&[3, 6]));
}

#[test]
fn test_transpose_rectangular_tall() {
    let m = mm6(&[&[1], &[2], &[3]]);
    let t = m.transpose();
    assert_eq!(t.vectors().len(), 1);
    assert_eq!(t.vectors()[0].scalars(), &scalars_of6(&[1, 2, 3]));
}

#[test]
fn test_transpose_identity() {
    let m = mm6(&[&[1, 0], &[0, 1]]);
    let t = m.transpose();
    assert_eq!(t.vectors()[0].scalars(), &scalars_of6(&[1, 0]));
    assert_eq!(t.vectors()[1].scalars(), &scalars_of6(&[0, 1]));
}

#[test]
fn test_transpose_twice() {
    // (A^T)^T == A
    let m = mm6(&[&[1, 5, 9], &[2, 6, 10]]);
    let t_twice = m.transpose().transpose();
    assert_eq!(m, t_twice);
}

// ---------------------------------------------------------------------------
// Exact norms
// ---------------------------------------------------------------------------

#[test]
fn test_norm_1_and_inf_zero_vector() {
    let u = vv6(&[0, 0, 0]);
    assert_eq!(u.norm_1().unwrap(), sc6(0));
    assert_eq!(u.norm_inf(), sc6(0));
}

#[test]
fn test_norm_1_and_inf_positive() {
    let u = vv6(&[1, 2, 3]);
    assert_eq!(u.norm_1().unwrap(), sc6(6));
    assert_eq!(u.norm_inf(), sc6(3));
}

#[test]
fn test_norm_1_and_inf_negative() {
    let u = vv6(&[-1, -2]);
    assert_eq!(u.norm_1().unwrap(), sc6(3));
    assert_eq!(u.norm_inf(), sc6(2));
}

#[test]
fn test_norm_1_and_inf_empty() {
    let u = Vector::new(vec![]);
    assert_eq!(u.norm_1().unwrap(), sc6(0));
    assert_eq!(u.norm_inf(), sc6(0));
}

// ---------------------------------------------------------------------------
// The exact scalar itself
// ---------------------------------------------------------------------------

#[test]
fn test_scalar_reduction_to_lowest_terms() {
    // 2/4 is stored as 1/2 and compares equal to it.
    let half = Scalar::new(2, 4).unwrap();
    assert_eq!(half.num, 1);
    assert_eq!(half.den, 2);
    assert_eq!(half, fr6(1, 2));
}

#[test]
fn test_scalar_negative_denominator_normalized() {
    // 3/-6 is stored as -1/2.
    let s = Scalar::new(3, -6).unwrap();
    assert_eq!(s.num, -1);
    assert_eq!(s.den, 2);
}

#[test]
fn test_scalar_division_exact() {
    // (1/2) / (3/4) = 2/3
    let r = fr6(1, 2).div(fr6(3, 4)).unwrap();
    assert_eq!(r, fr6(2, 3));
}

#[test]
fn test_scalar_zero_denominator_rejected() {
    assert_eq!(Scalar::new(1, 0), None);
}

#[test]
fn test_scalar_overflow_reported() {
    // The exact sum does not fit in 64 bits: no answer rather than a
    // wrong one.
    let big = Scalar::from_int((1_i64 << 62) + 1);
    let third = fr6(1, 3);
    assert_eq!(big.add(third), None);
}

#[test]
fn test_scalar_comparisons() {
    assert!(fr6(1, 3).lt(&fr6(1, 2)));
    assert!(!fr6(1, 2).lt(&fr6(1, 3)));
    assert!(fr6(-3, 4).mag_gt(&fr6(1, 2)));
    assert!(fr6(2, 3).abs() == fr6(2, 3));
    assert!(fr6(-2, 3).abs() == fr6(2, 3));
    assert!(sc6(0).is_zero());
    assert!(!sc6(1).is_zero());
}

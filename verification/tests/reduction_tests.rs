use linalg::{Matrix, Scalar, Vector};

fn sc3(n: i64) -> Scalar {
    Scalar::from_int(n)
}

fn fr3(n: i64, d: i64) -> Scalar {
    Scalar::new(n, d).unwrap()
}

fn vv3(xs: &[Scalar]) -> Vector {
    Vector::new(xs.to_vec())
}

fn mm3(cols: &[&[i64]]) -> Matrix {
    Matrix::new(
        cols.iter()
            .map(|c| Vector::new(c.iter().map(|&x| Scalar::from_int(x)).collect()))
            .collect(),
    )
}

// ---------------------------------------------------------------------------
// Row echelon form of the engine
// ---------------------------------------------------------------------------

#[test]
fn test_subject_rref_identity() {
    let u = mm3(&[&[1, 0, 0], &[0, 1, 0], &[0, 0, 1]]);
    // Identity is already in row echelon form
    let res = u.row_echelon().unwrap();
    assert!(res.is_row_echelon_form());
    assert_eq!(res, u);
}

#[test]
fn test_subject_rref_2x2_invertible() {
    let u = mm3(&[&[1, 2], &[3, 4]]);
    let res = u.row_echelon().unwrap();
    assert!(res.is_row_echelon_form());
}

#[test]
fn test_subject_rref_2x2_singular() {
    let u = mm3(&[&[1, 2], &[2, 4]]);
    let res = u.row_echelon().unwrap();
    assert!(res.is_row_echelon_form());
}

#[test]
fn test_subject_rref_complex() {
    let u = Matrix::new(vec![
        vv3(&[sc3(8), sc3(5), sc3(-2), sc3(4), sc3(28)]),
        vv3(&[sc3(4), fr3(5, 2), sc3(20), sc3(4), sc3(-4)]),
        vv3(&[sc3(8), sc3(5), sc3(1), sc3(4), sc3(17)]),
    ]);
    let res = u.row_echelon().unwrap();
    assert!(res.is_row_echelon_form());
}

#[test]
fn test_rref_zero_matrix() {
    let u = mm3(&[&[0, 0], &[0, 0]]);
    let res = u.row_echelon().unwrap();
    assert!(res.is_row_echelon_form());
    assert_eq!(res, u);
}

#[test]
fn test_rref_tall_matrix() {
    let u = mm3(&[&[1, 2], &[3, 4], &[5, 6]]);
    let res = u.row_echelon().unwrap();
    assert!(res.is_row_echelon_form());
}

#[test]
fn test_rref_pivot_moving() {
    let u = mm3(&[&[0, 1, 2], &[0, 3, 6]]);
    let res = u.row_echelon().unwrap();
    assert!(res.is_row_echelon_form());
}

#[test]
fn test_rref_idempotent_on_result() {
    // Reducing twice equals reducing once, exactly.
    let u = mm3(&[&[8, 5, -2], &[4, 7, 20], &[7, 6, 1]]);
    let once = u.row_echelon().unwrap();
    let twice = once.row_echelon().unwrap();
    assert_eq!(once, twice);
}

#[test]
fn test_rref_rank_preserved() {
    // rank(A) == rank(row_echelon(A))
    let u = mm3(&[&[1, 2, 0, 0], &[2, 4, 0, 0], &[-1, 2, 1, 1]]);
    let reduced = u.row_echelon().unwrap();
    assert_eq!(u.rank().unwrap(), reduced.rank().unwrap());
}

#[test]
fn test_rref_details_replay() {
    // Replaying the recorded operations reproduces the reduced matrix.
    let u = mm3(&[&[2, 4], &[6, 9]]);
    let (reduced, details) = u.row_echelon_with_details().unwrap();
    assert_eq!(details.tracked_pivots.len(), u.rank().unwrap());
    let mut replay = u.duplicate();
    assert!(replay.apply_all(&details.operations));
    assert_eq!(replay, reduced);
}

// ---------------------------------------------------------------------------
// The validator
// ---------------------------------------------------------------------------

#[test]
fn test_simple_valid_case() {
    // Matrix: | 1 1 | — pivot at (0,0), valid.
    let matrix = mm3(&[&[1], &[1]]);
    assert_eq!(matrix.is_row_echelon_form(), true);
}

#[test]
fn test_valid_case() {
    // 1 2 3 / 0 1 2 / 0 0 1
    let matrix = mm3(&[&[1, 0, 0], &[2, 1, 0], &[3, 2, 1]]);
    assert_eq!(matrix.is_row_echelon_form(), true);
}

#[test]
fn test_zero_matrix() {
    let matrix = mm3(&[&[0, 0], &[0, 0]]);
    assert_eq!(matrix.is_row_echelon_form(), true);
}

#[test]
fn test_identity_matrix() {
    let matrix = mm3(&[&[1, 0], &[0, 1]]);
    assert_eq!(matrix.is_row_echelon_form(), true);
}

#[test]
fn test_invalid_case_bad_stairs() {
    // Pivot directly below previous pivot (not strictly right).
    let matrix = mm3(&[&[1, 0, 0], &[2, 1, 1], &[3, 2, 1]]);
    assert_eq!(matrix.is_row_echelon_form(), false);
}

#[test]
fn test_invalid_pivot_order() {
    // 0 1 / 1 0 — second row's pivot is left of the first's.
    let matrix = mm3(&[&[0, 1], &[1, 0]]);
    assert_eq!(matrix.is_row_echelon_form(), false);
}

#[test]
fn test_invalid_zero_row_gap() {
    // A zero row above a nonzero row.
    let matrix = mm3(&[&[1, 0, 0], &[1, 0, 1]]);
    assert_eq!(matrix.is_row_echelon_form(), false);
}

#[test]
fn test_wide_matrix_with_large_step() {
    // 1 2 3 4 / 0 0 1 2 — valid.
    let matrix = mm3(&[&[1, 0], &[2, 0], &[3, 1], &[4, 2]]);
    assert_eq!(matrix.is_row_echelon_form(), true);
}

#[test]
fn test_tall_matrix_valid() {
    // 1 2 / 0 1 / 0 0 — valid.
    let matrix = mm3(&[&[1, 0, 0], &[2, 1, 0]]);
    assert_eq!(matrix.is_row_echelon_form(), true);
}

#[test]
fn test_tall_matrix_invalid() {
    // 1 2 / 0 0 / 0 1 — zero row not at the bottom.
    let matrix = mm3(&[&[1, 0, 0], &[2, 0, 1]]);
    assert_eq!(matrix.is_row_echelon_form(), false);
}

// ---------------------------------------------------------------------------
// Rank
// ---------------------------------------------------------------------------

#[test]
fn test_subject_rank_identity() {
    let u = mm3(&[&[1, 0, 0], &[0, 1, 0], &[0, 0, 1]]);
    assert_eq!(u.rank().unwrap(), 3);
}

#[test]
fn test_subject_rank_rectangular_dependent() {
    let u = mm3(&[&[1, 2, 0, 0], &[2, 4, 0, 0], &[-1, 2, 1, 1]]);
    assert_eq!(u.rank().unwrap(), 2);
}

#[test]
fn test_subject_rank_tall_matrix() {
    let u = mm3(&[&[8, 5, -2], &[4, 7, 20], &[7, 6, 1], &[21, 18, 7]]);
    assert_eq!(u.rank().unwrap(), 3);
}

#[test]
fn test_rank_zero_matrix() {
    let u = mm3(&[&[0, 0], &[0, 0], &[0, 0]]);
    assert_eq!(u.rank().unwrap(), 0);
}

#[test]
fn test_rank_single_element() {
    let u = mm3(&[&[42]]);
    assert_eq!(u.rank().unwrap(), 1);
}

#[test]
fn test_rank_linear_dependency() {
    let u = mm3(&[&[1, 1, 1], &[2, 2, 2], &[3, 3, 3]]);
    assert_eq!(u.rank().unwrap(), 1);
}

#[test]
fn test_rank_wide_matrix() {
    let u = mm3(&[&[1, 0, 5, 9], &[0, 1, 2, 3]]);
    assert_eq!(u.rank().unwrap(), 2);
}

#[test]
fn test_rank_fractional_entries() {
    // A reduction that passes through fractions: rows [1, 2] and [2, 5]
    // are independent.
    let u = Matrix::new(vec![
        vv3(&[fr3(1, 2), sc3(2)]),
        vv3(&[sc3(1), fr3(5, 2)]),
    ]);
    assert_eq!(u.rank().unwrap(), 2);
}

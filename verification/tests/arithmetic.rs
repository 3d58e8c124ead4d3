use block_matrix::matrix::{max, min, padding_exponent, Matrix, MatrixError};
use block_matrix::scalar::{ring_add, ring_mul};

fn rows_of(m: &Matrix) -> Vec<Vec<i64>> {
    let mut out = Vec::new();
    for r in 0..m.row_count() {
        let mut row = Vec::new();
        for c in 0..m.col_count() {
            row.push(m.get(r, c).unwrap());
        }
        out.push(row);
    }
    out
}

#[test]
fn sum_and_difference_of_two_by_two() {
    let a = Matrix::new(vec![vec![1, 2], vec![3, 4]], 2, 2);
    let b = Matrix::new(vec![vec![5, 6], vec![7, 8]], 2, 2);
    let sum = a.add(&b).unwrap();
    let difference = a.sub(&b).unwrap();
    assert_eq!(rows_of(&sum), vec![vec![6, 8], vec![10, 12]]);
    assert_eq!(rows_of(&difference), vec![vec![-4, -4], vec![-4, -4]]);
    let expected = Matrix::new(vec![vec![6, 8], vec![10, 12]], 2, 2);
    assert_eq!(sum.eq(&expected), Ok(true));
}

#[test]
fn addition_commutes() {
    let a = Matrix::new(vec![vec![1, -2, 3], vec![i64::MAX, 0, 9]], 2, 3);
    let b = Matrix::new(vec![vec![4, 5], vec![1, i64::MIN, 7]], 2, 3);
    let ab = a.add(&b).unwrap();
    let ba = b.add(&a).unwrap();
    assert_eq!(ab.eq(&ba), Ok(true));
    assert_eq!(rows_of(&ab), vec![vec![5, 3, 3], vec![i64::MIN, i64::MIN, 16]]);
}

#[test]
fn matrix_plus_its_negation_is_zero() {
    let a = Matrix::new(vec![vec![1, -2, 3], vec![i64::MIN, 0, i64::MAX]], 2, 3);
    let zero = a.add(&a.neg()).unwrap();
    assert_eq!(rows_of(&zero), vec![vec![0, 0, 0], vec![0, 0, 0]]);
    assert_eq!(rows_of(&a.neg()), vec![vec![-1, 2, -3], vec![i64::MIN, 0, -i64::MAX]]);
}

#[test]
fn scalar_multiple_scales_every_entry() {
    let a = Matrix::new(vec![vec![1, -2], vec![3, 4]], 2, 2);
    assert_eq!(rows_of(&a.mul_scalar(3)), vec![vec![3, -6], vec![9, 12]]);
    assert_eq!(rows_of(&a.mul_scalar(-1)), rows_of(&a.neg()));
    let mut b = Matrix::new(vec![vec![1, -2], vec![3, 4]], 2, 2);
    b.mul_assign_scalar(3);
    assert_eq!(rows_of(&b), vec![vec![3, -6], vec![9, 12]]);
    assert_eq!(rows_of(&a), vec![vec![1, -2], vec![3, 4]]);
}

#[test]
fn in_place_sum_and_difference() {
    let mut a = Matrix::new(vec![vec![1, 2], vec![3, 4]], 2, 2);
    let b = Matrix::new(vec![vec![5, 6], vec![7, 8]], 2, 2);
    assert_eq!(a.add_assign(&b), Ok(()));
    assert_eq!(rows_of(&a), vec![vec![6, 8], vec![10, 12]]);
    assert_eq!(a.sub_assign(&b), Ok(()));
    assert_eq!(a.sub_assign(&b), Ok(()));
    assert_eq!(rows_of(&a), vec![vec![-4, -4], vec![-4, -4]]);
}

#[test]
fn mismatched_sizes_are_refused() {
    let mut a = Matrix::new(vec![vec![1, 2], vec![3, 4]], 2, 2);
    let b = Matrix::new(vec![vec![1, 2, 3], vec![4, 5, 6]], 2, 3);
    assert!(matches!(a.add(&b), Err(MatrixError::DimensionMismatch)));
    assert!(matches!(a.sub(&b), Err(MatrixError::DimensionMismatch)));
    assert!(matches!(b.mul(&a), Err(MatrixError::DimensionMismatch)));
    assert_eq!(a.eq(&b), Err(MatrixError::DimensionMismatch));
    assert_eq!(a.add_assign(&b), Err(MatrixError::DimensionMismatch));
    assert_eq!(a.sub_assign(&b), Err(MatrixError::DimensionMismatch));
    assert_eq!(a.mul_assign(&b), Err(MatrixError::DimensionMismatch));
    assert_eq!(rows_of(&a), vec![vec![1, 2], vec![3, 4]]);
    assert!(a.mul(&b).is_ok());
}

#[test]
fn equality_ignores_how_far_the_store_has_grown() {
    let mut grown = Matrix::new(vec![vec![1, 2]], 4, 4);
    let never_grown = Matrix::new(vec![vec![1, 2]], 4, 4);
    assert_eq!(grown.set(3, 3, 9), Ok(()));
    assert_eq!(grown.eq(&never_grown), Ok(false));
    assert_eq!(grown.set(3, 3, 0), Ok(()));
    assert_eq!(grown.eq(&never_grown), Ok(true));
    assert_eq!(never_grown.eq(&grown), Ok(true));
    let padded = Matrix::new(vec![vec![1, 2, 0, 0], vec![0, 0, 0, 0], vec![], vec![0]], 4, 4);
    assert_eq!(padded.eq(&never_grown), Ok(true));
}

#[test]
fn equality_sees_a_single_differing_entry() {
    let a = Matrix::new(vec![vec![1, 2], vec![3, 4]], 2, 2);
    let b = Matrix::new(vec![vec![1, 2], vec![3, 5]], 2, 2);
    assert_eq!(a.eq(&b), Ok(false));
    assert_eq!(a.eq(&a), Ok(true));
}

#[test]
fn data_beyond_the_declared_size_is_ignored() {
    let m = Matrix::new(vec![vec![1, 2, 3], vec![4, 5, 6], vec![7, 8, 9]], 2, 2);
    assert_eq!(m.row_count(), 2);
    assert_eq!(m.col_count(), 2);
    assert_eq!(rows_of(&m), vec![vec![1, 2], vec![4, 5]]);
    let wide = Matrix::new(vec![vec![1, 1, 1], vec![1, 1, 1]], 2, 3);
    let product = m.mul(&wide).unwrap();
    assert_eq!(rows_of(&product), vec![vec![3, 3, 3], vec![9, 9, 9]]);
}

#[test]
fn padding_exponent_is_the_least_power_of_two_that_reaches() {
    assert_eq!(padding_exponent(0), 0);
    assert_eq!(padding_exponent(1), 0);
    assert_eq!(padding_exponent(2), 1);
    assert_eq!(padding_exponent(3), 2);
    assert_eq!(padding_exponent(4), 2);
    assert_eq!(padding_exponent(15), 4);
    assert_eq!(padding_exponent(16), 4);
    assert_eq!(padding_exponent(17), 5);
    assert_eq!(padding_exponent(1 << 30), 30);
}

#[test]
fn max_and_min_of_sizes() {
    assert_eq!(max(3, 7), 7);
    assert_eq!(max(7, 3), 7);
    assert_eq!(max(5, 5), 5);
    assert_eq!(min(3, 7), 3);
    assert_eq!(min(7, 3), 3);
    assert_eq!(min(5, 5), 5);
}

#[test]
fn scalars_wrap_around() {
    assert_eq!(ring_add(i64::MAX, 1), i64::MIN);
    assert_eq!(ring_add(2, 3), 5);
    assert_eq!(ring_add(i64::MIN, -1), i64::MAX);
    assert_eq!(ring_add(2, -3), -1);
    assert_eq!(ring_mul(1 << 62, 4), 0);
    assert_eq!(ring_mul(-3, 7), -21);
    assert_eq!(ring_mul(i64::MAX, 2), -2);
    assert_eq!(ring_mul(-1, 5), -5);
    assert_eq!(ring_mul(-1, i64::MIN), i64::MIN);
}

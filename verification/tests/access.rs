use block_matrix::matrix::{Matrix, MatrixError};
use block_matrix::remember::Remember;

#[test]
fn get_outside_declared_rows_is_refused() {
    let m = Matrix::new(vec![vec![1, 2, 3], vec![4, 5, 6]], 2, 3);
    assert_eq!(m.get(2, 0), Err(MatrixError::IndexOutOfBounds));
    assert_eq!(m.get(1, 2), Ok(6));
}

#[test]
fn set_outside_declared_columns_is_refused() {
    let mut m = Matrix::new(vec![vec![1, 2, 3], vec![4, 5, 6]], 2, 3);
    assert_eq!(m.set(0, 3, 9), Err(MatrixError::IndexOutOfBounds));
    assert_eq!(m.set(0, 2, 9), Ok(()));
    assert_eq!(m.get(0, 2), Ok(9));
}

#[test]
fn unwritten_entries_read_zero() {
    let m = Matrix::new(vec![vec![1], vec![]], 3, 4);
    assert_eq!(m.get(0, 0), Ok(1));
    assert_eq!(m.get(0, 3), Ok(0));
    assert_eq!(m.get(1, 0), Ok(0));
    assert_eq!(m.get(2, 3), Ok(0));
}

#[test]
fn remember_recomputes_only_when_stale() {
    let mut cache = Remember::new(|| 7u32, Some(3u32));
    assert_eq!(cache.get_static(), 3);
    assert_eq!(cache.get(), 3);
    cache.stale = true;
    assert_eq!(cache.get_static(), 7);
    assert!(cache.stale);
    assert_eq!(cache.get(), 7);
    assert!(!cache.stale);
    cache.set(11);
    assert_eq!(cache.get(), 11);
    let fresh = Remember::new(|| 5u32, None);
    assert_eq!(fresh.get_static(), 5);
}

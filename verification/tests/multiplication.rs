use block_matrix::matrix::Matrix;
use block_matrix::matrix_view::MatrixView;

fn entry(seed: u64, r: usize, c: usize) -> i64 {
    let mut x = seed
        .wrapping_add((r as u64).wrapping_mul(0x9E37_79B9_7F4A_7C15))
        .wrapping_add((c as u64).wrapping_mul(0xC2B2_AE3D_27D4_EB4F));
    x ^= x >> 29;
    x = x.wrapping_mul(0xBF58_476D_1CE4_E5B9);
    x ^= x >> 32;
    (x % 2001) as i64 - 1000
}

fn table(seed: u64, rows: usize, cols: usize) -> Vec<Vec<i64>> {
    (0..rows).map(|r| (0..cols).map(|c| entry(seed, r, c)).collect()).collect()
}

fn by_hand(a: &[Vec<i64>], b: &[Vec<i64>], inner: usize, cols: usize) -> Vec<Vec<i64>> {
    a.iter()
        .map(|row| {
            (0..cols)
                .map(|j| {
                    let mut sum = 0i64;
                    for k in 0..inner {
                        sum = sum.wrapping_add(row[k].wrapping_mul(b[k][j]));
                    }
                    sum
                })
                .collect()
        })
        .collect()
}

fn rows_of(m: &Matrix) -> Vec<Vec<i64>> {
    (0..m.row_count())
        .map(|r| (0..m.col_count()).map(|c| m.get(r, c).unwrap()).collect())
        .collect()
}

fn window(v: &MatrixView, side: usize) -> Vec<Vec<i64>> {
    (0..side).map(|r| (0..side).map(|c| v.index((r, c))).collect()).collect()
}

fn identity(n: usize) -> Matrix {
    let data = (0..n).map(|r| (0..n).map(|c| if r == c { 1 } else { 0 }).collect()).collect();
    Matrix::new(data, n, n)
}

fn exponent_for(n: usize) -> usize {
    let mut e = 0;
    while (1usize << e) < n {
        e += 1;
    }
    e
}

fn both_paths_agree(n: usize) {
    let a = table(11, n, n);
    let b = table(23, n, n);
    let e = exponent_for(n);
    let left = MatrixView::new(a.clone(), e);
    let right = MatrixView::new(b.clone(), e);
    let recursive = MatrixView::multiplication_strassen_winograd(&left, &right);
    let mut direct = MatrixView::new(a.clone(), e);
    MatrixView::multiplication_schoolbook_inplace(&mut direct, &right);
    assert!(recursive.eq(&direct));
    assert!(direct.eq(&recursive));
    let expected = by_hand(&a, &b, n, n);
    assert_eq!(window(&recursive, n), expected);
    assert_eq!(window(&direct, n), expected);
    assert!(left.mul(&right).eq(&direct));
}

fn identity_is_neutral(n: usize) {
    let a = Matrix::new(table(5, n, n), n, n);
    let one = identity(n);
    let right = a.mul(&one).unwrap();
    let left = one.mul(&a).unwrap();
    assert_eq!(right.eq(&a), Ok(true));
    assert_eq!(left.eq(&a), Ok(true));
    assert_eq!(rows_of(&right), table(5, n, n));
}

#[test]
fn product_of_two_by_two() {
    let a = Matrix::new(vec![vec![1, 2], vec![3, 4]], 2, 2);
    let b = Matrix::new(vec![vec![5, 6], vec![7, 8]], 2, 2);
    let product = a.mul(&b).unwrap();
    assert_eq!(rows_of(&product), vec![vec![19, 22], vec![43, 50]]);
    let expected = Matrix::new(vec![vec![19, 22], vec![43, 50]], 2, 2);
    assert_eq!(product.eq(&expected), Ok(true));
}

#[test]
fn product_of_one_by_one() {
    let a = Matrix::new(vec![vec![7]], 1, 1);
    let b = Matrix::new(vec![vec![3]], 1, 1);
    let product = a.mul(&b).unwrap();
    assert_eq!(rows_of(&product), vec![vec![21]]);
    let left = MatrixView::new(vec![vec![7]], 0);
    let right = MatrixView::new(vec![vec![3]], 0);
    assert_eq!(MatrixView::multiplication_strassen_winograd(&left, &right).index((0, 0)), 21);
}

#[test]
fn identity_is_neutral_for_size_1() {
    identity_is_neutral(1);
}

#[test]
fn identity_is_neutral_for_size_2() {
    identity_is_neutral(2);
}

#[test]
fn identity_is_neutral_for_size_16() {
    identity_is_neutral(16);
}

#[test]
fn identity_is_neutral_for_size_17() {
    identity_is_neutral(17);
}

#[test]
fn both_paths_agree_for_size_15() {
    both_paths_agree(15);
}

#[test]
fn both_paths_agree_for_size_16() {
    both_paths_agree(16);
}

#[test]
fn both_paths_agree_for_size_31() {
    both_paths_agree(31);
}

#[test]
fn both_paths_agree_for_small_sizes() {
    for n in 1..=9 {
        both_paths_agree(n);
    }
}

#[test]
fn rectangular_product_matches_the_sums_by_hand() {
    let a = table(3, 5, 19);
    let b = table(4, 19, 2);
    let product = Matrix::new(a.clone(), 5, 19).mul(&Matrix::new(b.clone(), 19, 2)).unwrap();
    assert_eq!(product.row_count(), 5);
    assert_eq!(product.col_count(), 2);
    assert_eq!(rows_of(&product), by_hand(&a, &b, 19, 2));
}

#[test]
fn product_is_associative() {
    let a = Matrix::new(table(1, 3, 20), 3, 20);
    let b = Matrix::new(table(2, 20, 17), 20, 17);
    let c = Matrix::new(table(3, 17, 4), 17, 4);
    let left = a.mul(&b).unwrap().mul(&c).unwrap();
    let right = a.mul(&b.mul(&c).unwrap()).unwrap();
    assert_eq!(left.eq(&right), Ok(true));
    assert_eq!(left.row_count(), 3);
    assert_eq!(left.col_count(), 4);
}

#[test]
fn product_wraps_around() {
    let a = Matrix::new(vec![vec![i64::MAX, 1 << 62]], 1, 2);
    let b = Matrix::new(vec![vec![2], vec![4]], 2, 1);
    let product = a.mul(&b).unwrap();
    assert_eq!(rows_of(&product), vec![vec![-2]]);
}

#[test]
fn in_place_product_with_a_square_matrix() {
    let a = table(8, 3, 18);
    let b = table(9, 18, 18);
    let mut m = Matrix::new(a.clone(), 3, 18);
    assert_eq!(m.mul_assign(&Matrix::new(b.clone(), 18, 18)), Ok(()));
    assert_eq!(rows_of(&m), by_hand(&a, &b, 18, 18));
}

#[test]
fn product_with_sparse_stores_reads_padding_as_zero() {
    let a = Matrix::new(vec![vec![2], vec![], vec![0, 0, 5]], 3, 3);
    let b = Matrix::new(vec![vec![1, 1, 1]], 3, 3);
    let product = a.mul(&b).unwrap();
    assert_eq!(rows_of(&product), vec![vec![2, 2, 2], vec![0, 0, 0], vec![0, 0, 0]]);
}

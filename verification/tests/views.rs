use block_matrix::matrix_view::{side_len, MatrixView};

fn window(v: &MatrixView, side: usize) -> Vec<Vec<i64>> {
    (0..side).map(|r| (0..side).map(|c| v.index((r, c))).collect()).collect()
}

fn sample() -> MatrixView {
    MatrixView::new(
        vec![vec![1, 2, 3, 4], vec![5, 6, 7, 8], vec![9, 10, 11, 12], vec![13, 14, 15, 16]],
        2,
    )
}

#[test]
fn side_is_a_power_of_two() {
    assert_eq!(side_len(0), 1);
    assert_eq!(side_len(4), 16);
    assert_eq!(side_len(30), 1 << 30);
}

#[test]
fn reads_outside_the_block_or_the_store_are_zero() {
    let v = MatrixView::new(vec![vec![1, 2, 3], vec![4]], 1);
    assert_eq!(v.index((0, 0)), 1);
    assert_eq!(v.index((0, 1)), 2);
    assert_eq!(v.index((0, 2)), 0);
    assert_eq!(v.index((1, 0)), 4);
    assert_eq!(v.index((1, 1)), 0);
    assert_eq!(v.index((2, 0)), 0);
    assert_eq!(v.index((usize::MAX, usize::MAX)), 0);
}

#[test]
fn writes_grow_the_store_and_leave_the_rest_zero() {
    let mut v = MatrixView::new(Vec::new(), 2);
    v.index_mut((2, 3), 7);
    assert_eq!(
        window(&v, 4),
        vec![vec![0, 0, 0, 0], vec![0, 0, 0, 0], vec![0, 0, 0, 7], vec![0, 0, 0, 0]]
    );
    v.index_mut((4, 0), 9);
    v.index_mut((0, 4), 9);
    assert_eq!(
        window(&v, 4),
        vec![vec![0, 0, 0, 0], vec![0, 0, 0, 0], vec![0, 0, 0, 7], vec![0, 0, 0, 0]]
    );
}

#[test]
fn quadrants_of_a_block() {
    let v = sample();
    assert_eq!(window(&v.block(0, 0), 2), vec![vec![1, 2], vec![5, 6]]);
    assert_eq!(window(&v.block(0, 1), 2), vec![vec![3, 4], vec![7, 8]]);
    assert_eq!(window(&v.block(1, 0), 2), vec![vec![9, 10], vec![13, 14]]);
    assert_eq!(window(&v.block(1, 1), 2), vec![vec![11, 12], vec![15, 16]]);
    assert_eq!(window(&v.block(1, 1).block(0, 1), 1), vec![vec![12]]);
    assert_eq!(v.block(1, 1).index((2, 0)), 0);
}

#[test]
fn block_at_exponent_zero_is_the_view_itself() {
    let v = MatrixView::new(vec![vec![42, 1], vec![2, 3]], 0);
    let b = v.block(1, 1);
    assert_eq!(b.index((0, 0)), 42);
    assert_eq!(b.index((0, 1)), 0);
    assert!(b.eq(&v));
}

#[test]
fn set_copies_and_zero_fills() {
    let mut target = sample();
    let source = MatrixView::new(vec![vec![-1, -2], vec![-3]], 2);
    target.set(&source);
    assert_eq!(
        window(&target, 4),
        vec![vec![-1, -2, 0, 0], vec![-3, 0, 0, 0], vec![0, 0, 0, 0], vec![0, 0, 0, 0]]
    );
    let mut empty = MatrixView::new(Vec::new(), 2);
    empty.set(&sample());
    assert!(empty.eq(&sample()));
}

#[test]
fn addition_with_either_sign() {
    let mut out = sample();
    let rhs = MatrixView::new(vec![vec![1, 1, 1, 1, 1], vec![1]], 2);
    MatrixView::addition(&mut out, &rhs, 1);
    assert_eq!(
        window(&out, 4),
        vec![vec![2, 3, 4, 5], vec![6, 6, 7, 8], vec![9, 10, 11, 12], vec![13, 14, 15, 16]]
    );
    MatrixView::addition(&mut out, &rhs, -1);
    assert!(out.eq(&sample()));
    let mut small = MatrixView::new(vec![vec![1]], 2);
    MatrixView::addition(&mut small, &sample(), -1);
    assert_eq!(
        window(&small, 4),
        vec![vec![0, -2, -3, -4], vec![-5, -6, -7, -8], vec![-9, -10, -11, -12], vec![
            -13, -14, -15, -16
        ]]
    );
}

#[test]
fn sums_differences_and_negation_leave_the_operands_alone() {
    let a = sample();
    let b = MatrixView::new(vec![vec![10, 20], vec![30, 40]], 2);
    let sum = a.add(&b);
    let difference = a.sub(&b);
    let negated = a.neg();
    assert_eq!(window(&sum, 2), vec![vec![11, 22], vec![35, 46]]);
    assert_eq!(window(&difference, 2), vec![vec![-9, -18], vec![-25, -34]]);
    assert_eq!(negated.index((3, 3)), -16);
    assert_eq!(sum.index((3, 3)), 16);
    assert!(a.eq(&sample()));
    let mut c = sample();
    c.add_assign(&b);
    assert!(c.eq(&sum));
    c.sub_assign(&b);
    c.sub_assign(&b);
    assert!(c.eq(&difference));
    assert!(a.scaled(-1).eq(&negated));
    assert_eq!(a.scaled(3).index((1, 2)), 21);
}

#[test]
fn views_of_different_exponents_are_never_equal() {
    let a = MatrixView::new(vec![vec![1]], 1);
    let b = MatrixView::new(vec![vec![1]], 2);
    assert!(!a.eq(&b));
    assert!(a.eq(&MatrixView::new(vec![vec![1, 0], vec![0, 0], vec![0]], 1)));
    assert!(!a.eq(&MatrixView::new(vec![vec![1, 0], vec![0, 2]], 1)));
}

#[test]
fn equality_looks_only_inside_the_block() {
    let a = MatrixView::new(vec![vec![1, 2, 99], vec![3, 4], vec![99]], 1);
    let b = MatrixView::new(vec![vec![1, 2], vec![3, 4]], 1);
    assert!(a.eq(&b));
    assert!(b.eq(&a));
}

#[test]
fn with_exponent_pads_or_cuts() {
    let v = sample();
    let larger = v.with_exponent(3);
    assert_eq!(larger.index((3, 3)), 16);
    assert_eq!(larger.index((4, 4)), 0);
    let smaller = v.with_exponent(1);
    assert_eq!(window(&smaller, 2), vec![vec![1, 2], vec![5, 6]]);
    assert_eq!(smaller.index((2, 2)), 0);
}

#[test]
fn direct_product_in_place() {
    let mut m = MatrixView::new(vec![vec![1, 2], vec![3, 4]], 1);
    let n = MatrixView::new(vec![vec![5, 6], vec![7, 8]], 1);
    MatrixView::multiplication_schoolbook_inplace(&mut m, &n);
    assert_eq!(window(&m, 2), vec![vec![19, 22], vec![43, 50]]);
    let mut wide = MatrixView::new(vec![vec![1, 2, 3]], 2);
    let tall = MatrixView::new(vec![vec![1], vec![1], vec![1]], 2);
    MatrixView::multiplication_schoolbook_inplace(&mut wide, &tall);
    assert_eq!(
        window(&wide, 4),
        vec![vec![6, 0, 0, 0], vec![0, 0, 0, 0], vec![0, 0, 0, 0], vec![0, 0, 0, 0]]
    );
}

#[test]
fn product_in_place_on_either_side_of_the_threshold() {
    let a: Vec<Vec<i64>> = (0..16).map(|r| (0..16).map(|c| (r * 16 + c) as i64 - 100).collect()).collect();
    let b: Vec<Vec<i64>> = (0..16).map(|r| (0..16).map(|c| (r as i64) - 2 * (c as i64)).collect()).collect();
    let mut big = MatrixView::new(a.clone(), 4);
    big.mul_assign(&MatrixView::new(b.clone(), 4));
    let expected = MatrixView::new(a.clone(), 4).mul(&MatrixView::new(b.clone(), 4));
    assert!(big.eq(&expected));
    let mut direct = MatrixView::new(a, 4);
    MatrixView::multiplication_schoolbook_inplace(&mut direct, &MatrixView::new(b, 4));
    assert!(big.eq(&direct));
    let mut small = MatrixView::new(vec![vec![2]], 0);
    small.mul_assign(&MatrixView::new(vec![vec![5]], 0));
    assert_eq!(small.index((0, 0)), 10);
}

#[test]
fn a_write_grows_the_store_only_as_far_as_needed() {
    let mut v = MatrixView::new(Vec::new(), 3);
    assert!(v.data().is_empty());
    v.index_mut((2, 3), 7);
    assert_eq!(v.data(), &vec![vec![], vec![], vec![0, 0, 0, 7]]);
    v.index_mut((0, 1), 5);
    assert_eq!(v.data(), &vec![vec![0, 5], vec![], vec![0, 0, 0, 7]]);
    v.index_mut((2, 0), 1);
    assert_eq!(v.data(), &vec![vec![0, 5], vec![], vec![1, 0, 0, 7]]);
    v.index_mut((8, 0), 1);
    assert_eq!(v.data(), &vec![vec![0, 5], vec![], vec![1, 0, 0, 7]]);
}

#[test]
fn set_and_addition_grow_within_reach_of_the_operands() {
    let source = MatrixView::new(vec![vec![1, 2, 3], vec![4]], 3);
    let mut target = MatrixView::new(vec![vec![9]], 3);
    target.set(&source);
    assert!(target.data().len() <= 2);
    assert!(target.data().iter().all(|row| row.len() <= 3));
    assert!(target.eq(&source));
    let mut sum = MatrixView::new(Vec::new(), 3);
    MatrixView::addition(&mut sum, &source, 1);
    assert!(sum.data().len() <= 2);
    assert!(sum.data().iter().all(|row| row.len() <= 3));
    assert!(sum.eq(&source));
    let mut untouched = MatrixView::new(Vec::new(), 3);
    untouched.set(&MatrixView::new(Vec::new(), 3));
    assert!(untouched.data().is_empty());
}

#[test]
fn direct_product_grows_within_reach_of_the_operands() {
    let mut m = MatrixView::new(vec![vec![1, 2], vec![3, 4]], 4);
    let n = MatrixView::new(vec![vec![1, 0, 1], vec![0, 1, 1]], 4);
    MatrixView::multiplication_schoolbook_inplace(&mut m, &n);
    assert_eq!(m.data(), &vec![vec![1, 2, 3], vec![3, 4, 7]]);
}

//! Matrices of declared size over a root block view.

use vstd::prelude::*;
use vstd::arithmetic::power2::*;
use crate::scalar::{wrap, lemma_wrap_id};
use crate::matrix_view::{MatrixView, cell, held, written, side_len, LIMIT, MAX_EXPONENT};
use crate::product::{dot, lemma_dot_zero_tail, lemma_dot_pointwise};

verus! {

/// The larger of two sizes.
pub fn max(a: usize, b: usize) -> (m: usize)
    ensures
        m == if a < b { b } else { a },
{
    if a < b {
        b
    } else {
        a
    }
}

/// The smaller of two sizes.
pub fn min(a: usize, b: usize) -> (m: usize)
    ensures
        m == if a > b { b } else { a },
{
    if a > b {
        b
    } else {
        a
    }
}

/// Is `e` the least exponent whose power of two reaches `n`?
pub open spec fn is_padding_exponent(e: nat, n: int) -> bool {
    &&& pow2(e) >= n
    &&& e == 0 || pow2((e - 1) as nat) < n
}

/// The least `e` with `2^e >= n`; 0 for `n <= 1`.
pub fn padding_exponent(n: usize) -> (e: usize)
    requires
        n <= LIMIT,
    ensures
        e <= MAX_EXPONENT,
        is_padding_exponent(e as nat, n as int),
{
    let mut e: usize = 0;
    proof {
        lemma2_to64();
    }
    while side_len(e) < n
        invariant
            e <= MAX_EXPONENT,
            n <= LIMIT,
            e == 0 || pow2((e - 1) as nat) < n,
            pow2(30) == 0x4000_0000,
        decreases MAX_EXPONENT - e,
    {
        e += 1;
    }
    e
}

/// There is only one padding exponent for a size.
pub proof fn lemma_padding_exponent_unique(e1: nat, e2: nat, n: int)
    requires
        is_padding_exponent(e1, n),
        is_padding_exponent(e2, n),
    ensures
        e1 == e2,
{
    if e1 < e2 {
        if e1 < e2 - 1 {
            lemma_pow2_strictly_increases(e1, (e2 - 1) as nat);
        }
    } else if e2 < e1 {
        if e2 < e1 - 1 {
            lemma_pow2_strictly_increases(e2, (e1 - 1) as nat);
        }
    }
}

/// The padding exponent grows with the size.
pub proof fn lemma_padding_exponent_monotone(e1: nat, n1: int, e2: nat, n2: int)
    requires
        is_padding_exponent(e1, n1),
        is_padding_exponent(e2, n2),
        n1 <= n2,
    ensures
        e1 <= e2,
{
    if e2 < e1 {
        if e2 < e1 - 1 {
            lemma_pow2_strictly_increases(e2, (e1 - 1) as nat);
        }
    }
}

/// Why an operation on matrices was refused.
#[derive(Debug, Clone, Copy, PartialEq, Eq, Structural)]
pub enum MatrixError {
    /// An element access outside the declared rows and columns.
    IndexOutOfBounds,
    /// Operands whose declared sizes do not fit the operation.
    DimensionMismatch,
}

/// A matrix of a declared, fixed number of rows and columns. Entries
/// that were never written read as `0`.
pub struct Matrix {
    rows: usize,
    cols: usize,
    view: MatrixView,
}

impl Matrix {
    /// The declared number of rows.
    pub closed spec fn rows(&self) -> int {
        self.rows as int
    }

    /// The declared number of columns.
    pub closed spec fn cols(&self) -> int {
        self.cols as int
    }

    /// The root view that holds the entries.
    pub closed spec fn view(&self) -> MatrixView {
        self.view
    }

    /// The entry at a position; `0` outside the declared size.
    #[verifier::inline]
    pub open spec fn at(&self, r: int, c: int) -> i64 {
        self.view().at(r, c)
    }

    /// The view is the whole padded square, and nothing lies outside the
    /// declared size.
    pub open spec fn wf(&self) -> bool {
        &&& 0 <= self.rows() <= LIMIT
        &&& 0 <= self.cols() <= LIMIT
        &&& self.view().wf()
        &&& self.view().coordinate() == (0int, 0int)
        &&& is_padding_exponent(
            self.view().exponent(),
            if self.rows() < self.cols() {
                self.cols()
            } else {
                self.rows()
            },
        )
        &&& forall|r: int, c: int|
            !(0 <= r < self.rows() && 0 <= c < self.cols()) ==> #[trigger] self.at(r, c) == 0
    }

    /// A matrix of `rows` by `cols` entries taken from `data`, row by
    /// row. Rows may be short or missing: what `data` does not hold is
    /// `0`. What it holds beyond the declared size is ignored.
    pub fn new(data: Vec<Vec<i64>>, rows: usize, cols: usize) -> (m: Matrix)
        requires
            rows <= LIMIT,
            cols <= LIMIT,
        ensures
            m.wf(),
            m.rows() == rows,
            m.cols() == cols,
            forall|r: int, c: int|
                0 <= r < rows && 0 <= c < cols ==> #[trigger] m.at(r, c) == cell(data@, r, c),
            forall|r: int, c: int| #[trigger]
                held(m.view().store(), r, c) ==> r < rows && c < cols && held(data@, r, c),
    {
        let e = padding_exponent(max(rows, cols));
        let mut view = MatrixView::new(Vec::new(), e);
        proof {
            assert(0 * view.side() == 0);
        }
        let h = min(rows, data.len());
        let mut r: usize = 0;
        while r < h
            invariant
                view.wf(),
                view.coordinate() == (0int, 0int),
                view.exponent() == e,
                is_padding_exponent(e as nat, if rows < cols { cols as int } else { rows as int }),
                r <= h,
                h <= rows,
                h <= data@.len(),
                view.origin() == (0int, 0int),
                forall|rr: int, cc: int| #[trigger]
                    held(view.store(), rr, cc) ==> rr < r && cc < cols && held(data@, rr, cc),
                forall|rr: int, cc: int|
                    #[trigger] view.at(rr, cc) == (if 0 <= rr < r && 0 <= cc < cols {
                        cell(data@, rr, cc)
                    } else {
                        0
                    }),
            decreases h - r,
        {
            let w = min(cols, data[r].len());
            let mut c: usize = 0;
            while c < w
                invariant
                    view.wf(),
                    view.coordinate() == (0int, 0int),
                    view.exponent() == e,
                    is_padding_exponent(
                        e as nat,
                        if rows < cols { cols as int } else { rows as int },
                    ),
                    r < h,
                    h <= rows,
                    h <= data@.len(),
                    c <= w,
                    w <= cols,
                    w <= data@[r as int]@.len(),
                    view.origin() == (0int, 0int),
                    forall|rr: int, cc: int| #[trigger]
                        held(view.store(), rr, cc) ==> (rr < r || (rr == r && cc < c)) && cc
                            < cols && held(data@, rr, cc),
                    forall|rr: int, cc: int|
                        #[trigger] view.at(rr, cc) == (if (0 <= rr < r && 0 <= cc < cols) || (rr
                            == r && 0 <= cc < c) {
                            cell(data@, rr, cc)
                        } else {
                            0
                        }),
                decreases w - c,
            {
                let ghost prev = view.store();
                view.index_mut((r, c), data[r][c]);
                proof {
                    let now = view.store();
                    assert(written(prev, now, r as int, c as int, data@[r as int]@[c as int]));
                    assert forall|rr: int, cc: int| #[trigger] held(now, rr, cc) implies (rr < r
                        || (rr == r && cc < c + 1)) && cc < cols && held(data@, rr, cc) by {
                        if rr != r {
                            assert(now[rr]@ == (if rr < prev.len() {
                                prev[rr]@
                            } else {
                                Seq::<i64>::empty()
                            }));
                            assert(held(prev, rr, cc));
                        } else if held(prev, rr, cc) {
                        } else {
                            assert(cc <= c);
                        }
                    }
                }
                c += 1;
            }
            r += 1;
        }
        Matrix { rows, cols, view }
    }

    /// The declared number of rows.
    pub fn row_count(&self) -> (n: usize)
        ensures
            n == self.rows(),
    {
        self.rows
    }

    /// The declared number of columns.
    pub fn col_count(&self) -> (n: usize)
        ensures
            n == self.cols(),
    {
        self.cols
    }

    /// Reads one entry. A position outside the declared size is refused.
    pub fn get(&self, row: usize, col: usize) -> (res: Result<i64, MatrixError>)
        requires
            self.wf(),
        ensures
            row < self.rows() && col < self.cols() ==> res == Ok::<i64, MatrixError>(
                self.at(row as int, col as int),
            ),
            !(row < self.rows() && col < self.cols()) ==> res == Err::<i64, MatrixError>(
                MatrixError::IndexOutOfBounds,
            ),
    {
        if row >= self.rows || col >= self.cols {
            return Err(MatrixError::IndexOutOfBounds);
        }
        Ok(self.view.index((row, col)))
    }

    /// Writes one entry. A position outside the declared size is refused
    /// and the matrix stays as it was.
    pub fn set(&mut self, row: usize, col: usize, value: i64) -> (res: Result<(), MatrixError>)
        requires
            old(self).wf(),
        ensures
            final(self).wf(),
            final(self).rows() == old(self).rows(),
            final(self).cols() == old(self).cols(),
            row < old(self).rows() && col < old(self).cols() ==> res.is_ok() && written(
                old(self).view().store(),
                final(self).view().store(),
                row as int,
                col as int,
                value,
            ) && forall|r: int, c: int| #[trigger]
                final(self).at(r, c) == (if r == row && c == col {
                    value
                } else {
                    old(self).at(r, c)
                }),
            !(row < old(self).rows() && col < old(self).cols()) ==> res == Err::<(), MatrixError>(
                MatrixError::IndexOutOfBounds,
            ) && *final(self) == *old(self),
    {
        if row >= self.rows || col >= self.cols {
            return Err(MatrixError::IndexOutOfBounds);
        }
        proof {
            let side = self.view().side();
            assert(0 * side == 0);
        }
        self.view.index_mut((row, col), value);
        Ok(())
    }

    /// The larger of the declared sizes, which the padding exponent is
    /// computed from.
    pub open spec fn extent(&self) -> int {
        if self.rows() < self.cols() {
            self.cols()
        } else {
            self.rows()
        }
    }

    /// Same declared size?
    pub open spec fn same_shape(&self, other: Matrix) -> bool {
        self.rows() == other.rows() && self.cols() == other.cols()
    }

    /// The entry of the sum of two matrices.
    pub open spec fn sum_at(&self, rhs: Matrix, r: int, c: int) -> i64 {
        wrap(self.at(r, c) + rhs.at(r, c))
    }

    /// The entry of the difference of two matrices.
    pub open spec fn difference_at(&self, rhs: Matrix, r: int, c: int) -> i64 {
        wrap(self.at(r, c) - rhs.at(r, c))
    }

    /// The entry of the negated matrix.
    pub open spec fn negation_at(&self, r: int, c: int) -> i64 {
        wrap(-self.at(r, c))
    }

    /// The entry of the matrix scaled by `scalar`.
    pub open spec fn scaled_at(&self, scalar: i64, r: int, c: int) -> i64 {
        wrap(scalar * self.at(r, c))
    }

    /// The entry of the product of two matrices: the dot product of a
    /// row of `self` and a column of `rhs` over the shared dimension.
    pub open spec fn product_at(&self, rhs: Matrix, i: int, j: int) -> i64 {
        wrap(dot(self.view(), rhs.view(), i, j, self.cols() as nat))
    }

    /// Wraps a root view of the right exponent whose entries outside the
    /// declared size are all zero.
    fn new_from_view(view: MatrixView, rows: usize, cols: usize) -> (m: Matrix)
        requires
            rows <= LIMIT,
            cols <= LIMIT,
            view.wf(),
            view.coordinate() == (0int, 0int),
            is_padding_exponent(view.exponent(), if rows < cols { cols as int } else { rows as int }),
            forall|r: int, c: int|
                !(0 <= r < rows && 0 <= c < cols) ==> #[trigger] view.at(r, c) == 0,
        ensures
            m.wf(),
            m.rows() == rows,
            m.cols() == cols,
            m.view() == view,
    {
        Matrix { rows, cols, view }
    }

    /// The sum of two matrices of the same declared size.
    pub fn add(&self, other: &Matrix) -> (res: Result<Matrix, MatrixError>)
        requires
            self.wf(),
            other.wf(),
        ensures
            match res {
                Ok(m) => self.same_shape(*other) && m.wf() && m.same_shape(*self) && forall|
                    r: int,
                    c: int,
                | #[trigger] m.at(r, c) == self.sum_at(*other, r, c),
                Err(e) => !self.same_shape(*other) && e == MatrixError::DimensionMismatch,
            },
    {
        if self.rows != other.rows || self.cols != other.cols {
            return Err(MatrixError::DimensionMismatch);
        }
        proof {
            lemma_padding_exponent_unique(
                self.view().exponent(),
                other.view().exponent(),
                self.extent(),
            );
            lemma_wrap_id(0);
        }
        let view = self.view.add(&other.view);
        Ok(Matrix::new_from_view(view, self.rows, self.cols))
    }

    /// Adds `other` into this matrix. On a size mismatch nothing changes.
    pub fn add_assign(&mut self, other: &Matrix) -> (res: Result<(), MatrixError>)
        requires
            old(self).wf(),
            other.wf(),
        ensures
            final(self).wf(),
            final(self).same_shape(*old(self)),
            match res {
                Ok(_) => old(self).same_shape(*other) && final(self).view().grown_within(
                    old(self).view(),
                    other.view(),
                ) && forall|r: int, c: int| #[trigger]
                    final(self).at(r, c) == old(self).sum_at(*other, r, c),
                Err(e) => !old(self).same_shape(*other) && e == MatrixError::DimensionMismatch
                    && *final(self) == *old(self),
            },
    {
        if self.rows != other.rows || self.cols != other.cols {
            return Err(MatrixError::DimensionMismatch);
        }
        proof {
            lemma_padding_exponent_unique(
                self.view().exponent(),
                other.view().exponent(),
                self.extent(),
            );
            lemma_wrap_id(0);
        }
        self.view.add_assign(&other.view);
        Ok(())
    }

    /// The difference of two matrices of the same declared size.
    pub fn sub(&self, other: &Matrix) -> (res: Result<Matrix, MatrixError>)
        requires
            self.wf(),
            other.wf(),
        ensures
            match res {
                Ok(m) => self.same_shape(*other) && m.wf() && m.same_shape(*self) && forall|
                    r: int,
                    c: int,
                | #[trigger] m.at(r, c) == self.difference_at(*other, r, c),
                Err(e) => !self.same_shape(*other) && e == MatrixError::DimensionMismatch,
            },
    {
        if self.rows != other.rows || self.cols != other.cols {
            return Err(MatrixError::DimensionMismatch);
        }
        proof {
            lemma_padding_exponent_unique(
                self.view().exponent(),
                other.view().exponent(),
                self.extent(),
            );
            lemma_wrap_id(0);
        }
        let view = self.view.sub(&other.view);
        Ok(Matrix::new_from_view(view, self.rows, self.cols))
    }

    /// Subtracts `other` from this matrix. On a size mismatch nothing
    /// changes.
    pub fn sub_assign(&mut self, other: &Matrix) -> (res: Result<(), MatrixError>)
        requires
            old(self).wf(),
            other.wf(),
        ensures
            final(self).wf(),
            final(self).same_shape(*old(self)),
            match res {
                Ok(_) => old(self).same_shape(*other) && final(self).view().grown_within(
                    old(self).view(),
                    other.view(),
                ) && forall|r: int, c: int| #[trigger]
                    final(self).at(r, c) == old(self).difference_at(*other, r, c),
                Err(e) => !old(self).same_shape(*other) && e == MatrixError::DimensionMismatch
                    && *final(self) == *old(self),
            },
    {
        if self.rows != other.rows || self.cols != other.cols {
            return Err(MatrixError::DimensionMismatch);
        }
        proof {
            lemma_padding_exponent_unique(
                self.view().exponent(),
                other.view().exponent(),
                self.extent(),
            );
            lemma_wrap_id(0);
        }
        self.view.sub_assign(&other.view);
        Ok(())
    }

    /// The matrix with every entry negated.
    pub fn neg(&self) -> (m: Matrix)
        requires
            self.wf(),
        ensures
            m.wf(),
            m.same_shape(*self),
            forall|r: int, c: int| #[trigger] m.at(r, c) == self.negation_at(r, c),
    {
        proof {
            lemma_wrap_id(0);
        }
        let view = self.view.neg();
        Matrix::new_from_view(view, self.rows, self.cols)
    }

    /// The matrix with every entry multiplied by `scalar`.
    pub fn mul_scalar(&self, scalar: i64) -> (m: Matrix)
        requires
            self.wf(),
        ensures
            m.wf(),
            m.same_shape(*self),
            forall|r: int, c: int| #[trigger] m.at(r, c) == self.scaled_at(scalar, r, c),
    {
        proof {
            lemma_wrap_id(0);
            assert(scalar * 0 == 0);
        }
        let view = self.view.scaled(scalar);
        Matrix::new_from_view(view, self.rows, self.cols)
    }

    /// Multiplies every entry by `scalar`.
    pub fn mul_assign_scalar(&mut self, scalar: i64)
        requires
            old(self).wf(),
        ensures
            final(self).wf(),
            final(self).same_shape(*old(self)),
            forall|r: int, c: int| #[trigger]
                final(self).at(r, c) == old(self).scaled_at(scalar, r, c),
    {
        proof {
            lemma_wrap_id(0);
            assert(scalar * 0 == 0);
        }
        self.view = self.view.scaled(scalar);
    }

    /// Are the two matrices equal entry by entry? How far the stores
    /// behind them have grown does not matter. Matrices of different
    /// declared sizes cannot be compared.
    pub fn eq(&self, other: &Matrix) -> (res: Result<bool, MatrixError>)
        requires
            self.wf(),
            other.wf(),
        ensures
            match res {
                Ok(same) => self.same_shape(*other) && same == (forall|r: int, c: int|
                    0 <= r < self.rows() && 0 <= c < self.cols() ==> self.at(r, c) == other.at(
                        r,
                        c,
                    )),
                Err(e) => !self.same_shape(*other) && e == MatrixError::DimensionMismatch,
            },
    {
        if self.rows != other.rows || self.cols != other.cols {
            return Err(MatrixError::DimensionMismatch);
        }
        proof {
            lemma_padding_exponent_unique(
                self.view().exponent(),
                other.view().exponent(),
                self.extent(),
            );
        }
        let same = self.view.eq(&other.view);
        proof {
            if forall|r: int, c: int|
                0 <= r < self.rows() && 0 <= c < self.cols() ==> self.at(r, c) == other.at(r, c) {
                assert forall|r: int, c: int| self.view().at(r, c) == other.view().at(r, c) by {
                    if !(0 <= r < self.rows() && 0 <= c < self.cols()) {
                        assert(self.at(r, c) == 0);
                        assert(other.at(r, c) == 0);
                    }
                }
            }
        }
        Ok(same)
    }

    /// The product of an `N x M` and an `M x P` matrix, an `N x P`
    /// matrix. The inner sizes must agree.
    pub fn mul(&self, other: &Matrix) -> (res: Result<Matrix, MatrixError>)
        requires
            self.wf(),
            other.wf(),
        ensures
            match res {
                Ok(m) => self.cols() == other.rows() && m.wf() && m.rows() == self.rows()
                    && m.cols() == other.cols() && forall|i: int, j: int|
                    0 <= i < m.rows() && 0 <= j < m.cols() ==> #[trigger] m.at(i, j)
                        == self.product_at(*other, i, j),
                Err(e) => self.cols() != other.rows() && e == MatrixError::DimensionMismatch,
            },
    {
        if self.cols != other.rows {
            return Err(MatrixError::DimensionMismatch);
        }
        let rows = self.rows;
        let inner = self.cols;
        let cols = other.cols;
        let widest = max(max(rows, inner), cols);
        let e = padding_exponent(widest);
        let ec = padding_exponent(max(rows, cols));
        let lhs = self.view.with_exponent(e);
        let rhs = other.view.with_exponent(e);
        let product = lhs.mul(&rhs);
        let view = product.with_exponent(ec);
        proof {
            let big = widest as int;
            let small = (if rows < cols { cols } else { rows }) as int;
            lemma_padding_exponent_monotone(ec as nat, small, e as nat, big);
            if ec < e {
                lemma_pow2_strictly_increases(ec as nat, e as nat);
            }
            lemma_wrap_id(0);
            let side = lhs.side() as nat;
            assert(view.side() <= lhs.side());
            assert(inner <= side);
            assert forall|i: int, j: int| 0 <= i < side && 0 <= j < side implies #[trigger] product.at(
                i,
                j,
            ) == self.product_at(*other, i, j) by {
                lemma_dot_pointwise(lhs, rhs, i, j, self.view(), other.view(), i, j, side);
                assert forall|k: int| inner <= k < side implies #[trigger] self.view().at(i, k)
                    == 0 || #[trigger] other.view().at(k, j) == 0 by {
                    assert(self.at(i, k) == 0);
                }
                lemma_dot_zero_tail(self.view(), other.view(), i, j, inner as nat, side);
            }
            assert forall|r: int, c: int|
                !(0 <= r < rows && 0 <= c < cols) implies #[trigger] view.at(r, c) == 0 by {
                if 0 <= r < view.side() && 0 <= c < view.side() {
                    assert forall|k: int| 0 <= k < inner implies #[trigger] self.view().at(r, k)
                        == 0 || #[trigger] other.view().at(k, c) == 0 by {
                        if !(0 <= r < rows) {
                            assert(self.at(r, k) == 0);
                        } else {
                            assert(other.at(k, c) == 0);
                        }
                    }
                    lemma_dot_zero_tail(self.view(), other.view(), r, c, 0, inner as nat);
                    assert(view.at(r, c) == product.at(r, c));
                } else {
                    view.lemma_at_outside(r, c);
                }
            }
        }
        Ok(Matrix::new_from_view(view, rows, cols))
    }

    /// Replaces this matrix by its product with a square matrix of as
    /// many rows as this one has columns. On any other size nothing
    /// changes.
    pub fn mul_assign(&mut self, other: &Matrix) -> (res: Result<(), MatrixError>)
        requires
            old(self).wf(),
            other.wf(),
        ensures
            final(self).wf(),
            final(self).same_shape(*old(self)),
            match res {
                Ok(_) => old(self).cols() == other.rows() && other.rows() == other.cols()
                    && forall|i: int, j: int|
                    0 <= i < old(self).rows() && 0 <= j < old(self).cols() ==> #[trigger] final(
                        self
                    ).at(i, j) == old(self).product_at(*other, i, j),
                Err(e) => !(old(self).cols() == other.rows() && other.rows() == other.cols()) && e
                    == MatrixError::DimensionMismatch && *final(self) == *old(self),
            },
    {
        if self.cols != other.rows || other.rows != other.cols {
            return Err(MatrixError::DimensionMismatch);
        }
        match self.mul(other) {
            Ok(product) => {
                self.view = product.view;
                Ok(())
            },
            Err(e) => Err(e),
        }
    }
}

} // verus!

//! Laws of matrix arithmetic, stated over the entries that the
//! operations are specified to produce.

use vstd::prelude::*;
use crate::scalar::{
    wrap, congruent, lemma_congruent_intro, lemma_congruent_elim, lemma_wrap_elim,
    lemma_wrap_by_difference, lemma_wrap_id,
};
use crate::matrix::Matrix;
use crate::matrix_view::{MatrixView, cell};
use crate::product::dot;

verus! {

/// Addition commutes: the sum of `a` and `b` and the sum of `b` and `a`
/// have the same entries.
pub proof fn lemma_add_commutes(a: Matrix, b: Matrix, ab: Matrix, ba: Matrix)
    requires
        forall|r: int, c: int| #[trigger] ab.at(r, c) == a.sum_at(b, r, c),
        forall|r: int, c: int| #[trigger] ba.at(r, c) == b.sum_at(a, r, c),
    ensures
        forall|r: int, c: int| #[trigger] ab.at(r, c) == ba.at(r, c),
{
}

/// A matrix and its negation add up to zero everywhere.
pub proof fn lemma_sum_with_negation_is_zero(a: Matrix, minus_a: Matrix, sum: Matrix)
    requires
        forall|r: int, c: int| #[trigger] minus_a.at(r, c) == a.negation_at(r, c),
        forall|r: int, c: int| #[trigger] sum.at(r, c) == a.sum_at(minus_a, r, c),
    ensures
        forall|r: int, c: int| #[trigger] sum.at(r, c) == 0,
{
    assert forall|r: int, c: int| #[trigger] sum.at(r, c) == 0 by {
        let x = a.at(r, c) as int;
        let q = lemma_wrap_elim(-x);
        lemma_congruent_intro(x + wrap(-x), 0, q);
        lemma_wrap_by_difference(x + wrap(-x), 0);
        lemma_wrap_id(0);
    }
}

/// Zero padding: in a matrix built from `data` and then written at one
/// position, every other position that `data` does not hold reads `0`.
pub proof fn lemma_unwritten_entry_is_zero(
    built: Matrix,
    data: Seq<Vec<i64>>,
    written: Matrix,
    row: int,
    col: int,
    value: i64,
    r: int,
    c: int,
)
    requires
        0 <= r < built.rows(),
        0 <= c < built.cols(),
        forall|i: int, j: int|
            0 <= i < built.rows() && 0 <= j < built.cols() ==> #[trigger] built.at(i, j) == cell(
                data,
                i,
                j,
            ),
        forall|i: int, j: int| #[trigger]
            written.at(i, j) == (if i == row && j == col {
                value
            } else {
                built.at(i, j)
            }),
        !(r == row && c == col),
        !(r < data.len() && c < data[r]@.len()),
    ensures
        written.at(r, c) == 0,
{
}

/// Equality does not see how far a store has grown: a matrix that was
/// written at a position that read `0` and then written there again
/// with `0` has the entries it had before, so it compares equal to a
/// matrix that was never touched.
pub proof fn lemma_zero_write_restores(
    before: Matrix,
    written: Matrix,
    cleared: Matrix,
    row: int,
    col: int,
    value: i64,
)
    requires
        before.at(row, col) == 0,
        forall|i: int, j: int| #[trigger]
            written.at(i, j) == (if i == row && j == col {
                value
            } else {
                before.at(i, j)
            }),
        forall|i: int, j: int| #[trigger]
            cleared.at(i, j) == (if i == row && j == col {
                0
            } else {
                written.at(i, j)
            }),
    ensures
        forall|i: int, j: int| #[trigger] cleared.at(i, j) == before.at(i, j),
{
}

/// The direct and the recursive multiplication agree: two views that
/// hold what the one and the other are specified to return for the same
/// operands have the same entries.
pub proof fn lemma_multiplication_paths_agree(
    m: MatrixView,
    n: MatrixView,
    direct: MatrixView,
    recursive: MatrixView,
)
    requires
        forall|i: int, j: int|
            0 <= i < m.side() && 0 <= j < m.side() ==> #[trigger] direct.at(i, j) == m.product_at(
                n,
                i,
                j,
            ),
        forall|i: int, j: int|
            0 <= i < m.side() && 0 <= j < m.side() ==> #[trigger] recursive.at(i, j)
                == m.product_at(n, i, j),
    ensures
        forall|i: int, j: int|
            0 <= i < m.side() && 0 <= j < m.side() ==> #[trigger] direct.at(i, j) == recursive.at(
                i,
                j,
            ),
{
}

/// The sum over `k < p` of `(a b)[i][k] * c[k][j]`, with the inner
/// product taken over `m` terms and nothing wrapped.
pub open spec fn left_nested(
    a: MatrixView,
    b: MatrixView,
    c: MatrixView,
    i: int,
    j: int,
    m: nat,
    p: nat,
) -> int
    decreases p,
{
    if p == 0 {
        0
    } else {
        left_nested(a, b, c, i, j, m, (p - 1) as nat) + dot(a, b, i, p - 1, m) * c.at(p - 1, j)
    }
}

/// The sum over `l < m` of `a[i][l] * (b c)[l][j]`, with the inner
/// product taken over `p` terms and nothing wrapped.
pub open spec fn right_nested(
    a: MatrixView,
    b: MatrixView,
    c: MatrixView,
    i: int,
    j: int,
    m: nat,
    p: nat,
) -> int
    decreases m,
{
    if m == 0 {
        0
    } else {
        right_nested(a, b, c, i, j, (m - 1) as nat, p) + a.at(i, m - 1) * dot(b, c, m - 1, j, p)
    }
}

/// One more column of `b` and row of `c` adds one term to the
/// right-nested sum.
proof fn lemma_right_nested_step(
    a: MatrixView,
    b: MatrixView,
    c: MatrixView,
    i: int,
    j: int,
    m: nat,
    p: nat,
)
    requires
        p > 0,
    ensures
        right_nested(a, b, c, i, j, m, p) == right_nested(a, b, c, i, j, m, (p - 1) as nat) + dot(
            a,
            b,
            i,
            p - 1,
            m,
        ) * c.at(p - 1, j),
    decreases m,
{
    if m > 0 {
        lemma_right_nested_step(a, b, c, i, j, (m - 1) as nat, p);
        let x = a.at(i, m - 1) as int;
        let y = b.at(m - 1, p - 1) as int;
        let z = c.at(p - 1, j) as int;
        let inner = dot(b, c, m - 1, j, (p - 1) as nat);
        let outer = dot(a, b, i, p - 1, (m - 1) as nat);
        assert(x * (inner + y * z) == x * inner + (x * y) * z) by (nonlinear_arith);
        assert((outer + x * y) * z == outer * z + (x * y) * z) by (nonlinear_arith);
    } else {
        assert(0 * c.at(p - 1, j) == 0);
    }
}

/// With no columns of `b` the right-nested sum is empty.
proof fn lemma_right_nested_empty(
    a: MatrixView,
    b: MatrixView,
    c: MatrixView,
    i: int,
    j: int,
    m: nat,
)
    ensures
        right_nested(a, b, c, i, j, m, 0) == 0,
    decreases m,
{
    if m > 0 {
        lemma_right_nested_empty(a, b, c, i, j, (m - 1) as nat);
        assert(a.at(i, m - 1) * 0 == 0);
    }
}

/// The order of summation does not matter.
pub proof fn lemma_nested_sums_agree(
    a: MatrixView,
    b: MatrixView,
    c: MatrixView,
    i: int,
    j: int,
    m: nat,
    p: nat,
)
    ensures
        left_nested(a, b, c, i, j, m, p) == right_nested(a, b, c, i, j, m, p),
    decreases p,
{
    if p == 0 {
        lemma_right_nested_empty(a, b, c, i, j, m);
    } else {
        lemma_nested_sums_agree(a, b, c, i, j, m, (p - 1) as nat);
        lemma_right_nested_step(a, b, c, i, j, m, p);
    }
}

/// A row of wrapped products against a column of `c` is congruent to
/// the left-nested sum.
proof fn lemma_dot_of_products_left(
    ab: MatrixView,
    a: MatrixView,
    b: MatrixView,
    c: MatrixView,
    i: int,
    j: int,
    m: nat,
    p: nat,
)
    requires
        forall|k: int| 0 <= k < p ==> #[trigger] ab.at(i, k) == wrap(dot(a, b, i, k, m)),
    ensures
        congruent(dot(ab, c, i, j, p), left_nested(a, b, c, i, j, m, p)),
    decreases p,
{
    if p == 0 {
        lemma_congruent_intro(0, 0, 0);
    } else {
        lemma_dot_of_products_left(ab, a, b, c, i, j, m, (p - 1) as nat);
        let q0 = lemma_congruent_elim(
            dot(ab, c, i, j, (p - 1) as nat),
            left_nested(a, b, c, i, j, m, (p - 1) as nat),
        );
        let d = dot(a, b, i, p - 1, m);
        let q1 = lemma_wrap_elim(d);
        let z = c.at(p - 1, j) as int;
        assert((d + 0x1_0000_0000_0000_0000 * q1) * z == d * z + 0x1_0000_0000_0000_0000 * (q1
            * z)) by (nonlinear_arith);
        lemma_congruent_intro(dot(ab, c, i, j, p), left_nested(a, b, c, i, j, m, p), q0 + q1 * z);
    }
}

/// A row of `a` against a column of wrapped products is congruent to
/// the right-nested sum.
proof fn lemma_dot_of_products_right(
    bc: MatrixView,
    a: MatrixView,
    b: MatrixView,
    c: MatrixView,
    i: int,
    j: int,
    m: nat,
    p: nat,
)
    requires
        forall|l: int| 0 <= l < m ==> #[trigger] bc.at(l, j) == wrap(dot(b, c, l, j, p)),
    ensures
        congruent(dot(a, bc, i, j, m), right_nested(a, b, c, i, j, m, p)),
    decreases m,
{
    if m == 0 {
        lemma_congruent_intro(0, 0, 0);
    } else {
        lemma_dot_of_products_right(bc, a, b, c, i, j, (m - 1) as nat, p);
        let q0 = lemma_congruent_elim(
            dot(a, bc, i, j, (m - 1) as nat),
            right_nested(a, b, c, i, j, (m - 1) as nat, p),
        );
        let d = dot(b, c, m - 1, j, p);
        let q1 = lemma_wrap_elim(d);
        let x = a.at(i, m - 1) as int;
        assert(x * (d + 0x1_0000_0000_0000_0000 * q1) == x * d + 0x1_0000_0000_0000_0000 * (x
            * q1)) by (nonlinear_arith);
        lemma_congruent_intro(dot(a, bc, i, j, m), right_nested(a, b, c, i, j, m, p), q0 + x * q1);
    }
}

/// Multiplication is associative: with `ab` the product of `a` and `b`
/// and `bc` the product of `b` and `c`, the products `ab * c` and
/// `a * bc` have the same entries.
pub proof fn lemma_mul_associative(a: Matrix, b: Matrix, c: Matrix, ab: Matrix, bc: Matrix)
    requires
        a.wf(),
        b.wf(),
        c.wf(),
        a.cols() == b.rows(),
        b.cols() == c.rows(),
        ab.rows() == a.rows() && ab.cols() == b.cols(),
        bc.rows() == b.rows() && bc.cols() == c.cols(),
        forall|i: int, j: int|
            0 <= i < ab.rows() && 0 <= j < ab.cols() ==> #[trigger] ab.at(i, j) == a.product_at(
                b,
                i,
                j,
            ),
        forall|i: int, j: int|
            0 <= i < bc.rows() && 0 <= j < bc.cols() ==> #[trigger] bc.at(i, j) == b.product_at(
                c,
                i,
                j,
            ),
    ensures
        forall|i: int, j: int|
            0 <= i < a.rows() && 0 <= j < c.cols() ==> ab.product_at(c, i, j) == a.product_at(
                bc,
                i,
                j,
            ),
{
    assert forall|i: int, j: int| 0 <= i < a.rows() && 0 <= j < c.cols() implies ab.product_at(
        c,
        i,
        j,
    ) == a.product_at(bc, i, j) by {
        let m = a.cols() as nat;
        let p = b.cols() as nat;
        lemma_dot_of_products_left(ab.view(), a.view(), b.view(), c.view(), i, j, m, p);
        lemma_dot_of_products_right(bc.view(), a.view(), b.view(), c.view(), i, j, m, p);
        lemma_nested_sums_agree(a.view(), b.view(), c.view(), i, j, m, p);
        let left = dot(ab.view(), c.view(), i, j, p);
        let right = dot(a.view(), bc.view(), i, j, m);
        let nested = left_nested(a.view(), b.view(), c.view(), i, j, m, p);
        let q0 = lemma_congruent_elim(left, nested);
        let q1 = lemma_congruent_elim(right, nested);
        lemma_congruent_intro(left, right, q0 - q1);
        lemma_wrap_by_difference(left, right);
    }
}

} // verus!

//! The matrix product as a mathematical object: dot products of rows
//! and columns over the integers, and the algebra that the
//! multiplication routines rest on.

use vstd::prelude::*;
use crate::scalar::{
    wrap, congruent, lemma_congruent_intro, lemma_congruent_elim, lemma_wrap_elim,
    lemma_wrap_by_difference, lemma_product_of_sum,
};
use crate::matrix_view::MatrixView;

verus! {

/// The sum of `f[i][k] * g[k][j]` over `k` in `0..len`, in the integers.
pub open spec fn dot(f: MatrixView, g: MatrixView, i: int, j: int, len: nat) -> int
    decreases len,
{
    if len == 0 {
        0
    } else {
        dot(f, g, i, j, (len - 1) as nat) + f.at(i, len - 1) * g.at(len - 1, j)
    }
}

/// Terms that vanish from `from` on do not count.
pub proof fn lemma_dot_zero_tail(
    f: MatrixView,
    g: MatrixView,
    i: int,
    j: int,
    from: nat,
    len: nat,
)
    requires
        from <= len,
        forall|k: int| from <= k < len ==> #[trigger] f.at(i, k) == 0 || #[trigger] g.at(k, j) == 0,
    ensures
        dot(f, g, i, j, len) == dot(f, g, i, j, from),
    decreases len,
{
    if len > from {
        lemma_dot_zero_tail(f, g, i, j, from, (len - 1) as nat);
        let x = f.at(i, len - 1);
        let y = g.at(len - 1, j);
        assert(x * y == 0) by (nonlinear_arith)
            requires
                x == 0 || y == 0,
        ;
    }
}

/// A row and a column found again in other views, possibly at another
/// row and column index, give the same dot product there.
pub proof fn lemma_dot_pointwise(
    f: MatrixView,
    g: MatrixView,
    i: int,
    j: int,
    f2: MatrixView,
    g2: MatrixView,
    i2: int,
    j2: int,
    len: nat,
)
    requires
        forall|k: int| 0 <= k < len ==> f.at(i, k) == #[trigger] f2.at(i2, k),
        forall|k: int| 0 <= k < len ==> g.at(k, j) == #[trigger] g2.at(k, j2),
    ensures
        dot(f, g, i, j, len) == dot(f2, g2, i2, j2, len),
    decreases len,
{
    if len > 0 {
        lemma_dot_pointwise(f, g, i, j, f2, g2, i2, j2, (len - 1) as nat);
    }
}

/// A dot product over `2h` terms is the sum of two over `h` terms: one
/// over the leading halves of the row and the column, one over the
/// trailing halves, each found in a view of its own.
pub proof fn lemma_dot_split(
    m: MatrixView,
    n: MatrixView,
    i: int,
    j: int,
    lead_m: MatrixView,
    lead_n: MatrixView,
    tail_m: MatrixView,
    tail_n: MatrixView,
    i2: int,
    j2: int,
    h: nat,
    len: nat,
)
    requires
        len <= h,
        forall|k: int| 0 <= k < h ==> m.at(i, k) == #[trigger] lead_m.at(i2, k),
        forall|k: int| 0 <= k < h ==> n.at(k, j) == #[trigger] lead_n.at(k, j2),
        forall|k: int| 0 <= k < h ==> m.at(i, h + k) == #[trigger] tail_m.at(i2, k),
        forall|k: int| 0 <= k < h ==> n.at(h + k, j) == #[trigger] tail_n.at(k, j2),
    ensures
        dot(m, n, i, j, h + len) == dot(lead_m, lead_n, i2, j2, h) + dot(
            tail_m,
            tail_n,
            i2,
            j2,
            len,
        ),
    decreases len,
{
    if len == 0 {
        lemma_dot_pointwise(m, n, i, j, lead_m, lead_n, i2, j2, h);
    } else {
        lemma_dot_split(m, n, i, j, lead_m, lead_n, tail_m, tail_n, i2, j2, h, (len - 1) as nat);
        assert(m.at(i, h + (len - 1)) == tail_m.at(i2, len - 1));
        assert(n.at(h + (len - 1), j) == tail_n.at(len - 1, j2));
    }
}

/// A linear combination of four values.
pub open spec fn combo(x1: int, v1: int, x2: int, v2: int, x3: int, v3: int, x4: int, v4: int) -> int {
    x1 * v1 + x2 * v2 + x3 * v3 + x4 * v4
}

/// The dot product is linear in its left factor, up to multiples of
/// 2^64: a row that is congruent to a combination of four rows gives a
/// dot product congruent to the same combination of their dot products.
pub proof fn lemma_dot_left(
    f: MatrixView,
    a1: MatrixView,
    a2: MatrixView,
    a3: MatrixView,
    a4: MatrixView,
    x1: int,
    x2: int,
    x3: int,
    x4: int,
    g: MatrixView,
    i: int,
    j: int,
    len: nat,
)
    requires
        forall|k: int|
            0 <= k < len ==> congruent(
                #[trigger] f.at(i, k) as int,
                combo(
                    x1,
                    a1.at(i, k) as int,
                    x2,
                    a2.at(i, k) as int,
                    x3,
                    a3.at(i, k) as int,
                    x4,
                    a4.at(i, k) as int,
                ),
            ),
    ensures
        congruent(
            dot(f, g, i, j, len),
            combo(
                x1,
                dot(a1, g, i, j, len),
                x2,
                dot(a2, g, i, j, len),
                x3,
                dot(a3, g, i, j, len),
                x4,
                dot(a4, g, i, j, len),
            ),
        ),
    decreases len,
{
    if len == 0 {
        assert(x1 * 0 + x2 * 0 + x3 * 0 + x4 * 0 == 0);
        lemma_congruent_intro(0, 0, 0);
    } else {
        let k = (len - 1) as nat;
        lemma_dot_left(f, a1, a2, a3, a4, x1, x2, x3, x4, g, i, j, k);
        let d1 = dot(a1, g, i, j, k);
        let d2 = dot(a2, g, i, j, k);
        let d3 = dot(a3, g, i, j, k);
        let d4 = dot(a4, g, i, j, k);
        let v1 = a1.at(i, k as int) as int;
        let v2 = a2.at(i, k as int) as int;
        let v3 = a3.at(i, k as int) as int;
        let v4 = a4.at(i, k as int) as int;
        let fv = f.at(i, k as int) as int;
        let gv = g.at(k as int, j) as int;
        let q0 = lemma_congruent_elim(dot(f, g, i, j, k), combo(x1, d1, x2, d2, x3, d3, x4, d4));
        let q1 = lemma_congruent_elim(fv, combo(x1, v1, x2, v2, x3, v3, x4, v4));
        lemma_product_of_sum(x1 * v1, x2 * v2, x3 * v3, x4 * v4, 0x1_0000_0000_0000_0000 * q1, gv);
        assert((x1 * v1) * gv == x1 * (v1 * gv)) by (nonlinear_arith);
        assert((x2 * v2) * gv == x2 * (v2 * gv)) by (nonlinear_arith);
        assert((x3 * v3) * gv == x3 * (v3 * gv)) by (nonlinear_arith);
        assert((x4 * v4) * gv == x4 * (v4 * gv)) by (nonlinear_arith);
        assert((0x1_0000_0000_0000_0000 * q1) * gv == 0x1_0000_0000_0000_0000 * (q1 * gv))
            by (nonlinear_arith);
        assert(x1 * (d1 + v1 * gv) == x1 * d1 + x1 * (v1 * gv)) by (nonlinear_arith);
        assert(x2 * (d2 + v2 * gv) == x2 * d2 + x2 * (v2 * gv)) by (nonlinear_arith);
        assert(x3 * (d3 + v3 * gv) == x3 * d3 + x3 * (v3 * gv)) by (nonlinear_arith);
        assert(x4 * (d4 + v4 * gv) == x4 * d4 + x4 * (v4 * gv)) by (nonlinear_arith);
        lemma_congruent_intro(
            dot(f, g, i, j, len),
            combo(
                x1,
                dot(a1, g, i, j, len),
                x2,
                dot(a2, g, i, j, len),
                x3,
                dot(a3, g, i, j, len),
                x4,
                dot(a4, g, i, j, len),
            ),
            q0 + q1 * gv,
        );
    }
}

/// The dot product is linear in its right factor, up to multiples of
/// 2^64.
pub proof fn lemma_dot_right(
    f: MatrixView,
    g: MatrixView,
    b1: MatrixView,
    b2: MatrixView,
    b3: MatrixView,
    b4: MatrixView,
    y1: int,
    y2: int,
    y3: int,
    y4: int,
    i: int,
    j: int,
    len: nat,
)
    requires
        forall|k: int|
            0 <= k < len ==> congruent(
                #[trigger] g.at(k, j) as int,
                combo(
                    y1,
                    b1.at(k, j) as int,
                    y2,
                    b2.at(k, j) as int,
                    y3,
                    b3.at(k, j) as int,
                    y4,
                    b4.at(k, j) as int,
                ),
            ),
    ensures
        congruent(
            dot(f, g, i, j, len),
            combo(
                y1,
                dot(f, b1, i, j, len),
                y2,
                dot(f, b2, i, j, len),
                y3,
                dot(f, b3, i, j, len),
                y4,
                dot(f, b4, i, j, len),
            ),
        ),
    decreases len,
{
    if len == 0 {
        assert(y1 * 0 + y2 * 0 + y3 * 0 + y4 * 0 == 0);
        lemma_congruent_intro(0, 0, 0);
    } else {
        let k = (len - 1) as nat;
        lemma_dot_right(f, g, b1, b2, b3, b4, y1, y2, y3, y4, i, j, k);
        let d1 = dot(f, b1, i, j, k);
        let d2 = dot(f, b2, i, j, k);
        let d3 = dot(f, b3, i, j, k);
        let d4 = dot(f, b4, i, j, k);
        let v1 = b1.at(k as int, j) as int;
        let v2 = b2.at(k as int, j) as int;
        let v3 = b3.at(k as int, j) as int;
        let v4 = b4.at(k as int, j) as int;
        let fv = f.at(i, k as int) as int;
        let gv = g.at(k as int, j) as int;
        let q0 = lemma_congruent_elim(dot(f, g, i, j, k), combo(y1, d1, y2, d2, y3, d3, y4, d4));
        let q1 = lemma_congruent_elim(gv, combo(y1, v1, y2, v2, y3, v3, y4, v4));
        lemma_product_of_sum(y1 * v1, y2 * v2, y3 * v3, y4 * v4, 0x1_0000_0000_0000_0000 * q1, fv);
        assert(gv * fv == fv * gv) by (nonlinear_arith);
        assert((y1 * v1) * fv == y1 * (fv * v1)) by (nonlinear_arith);
        assert((y2 * v2) * fv == y2 * (fv * v2)) by (nonlinear_arith);
        assert((y3 * v3) * fv == y3 * (fv * v3)) by (nonlinear_arith);
        assert((y4 * v4) * fv == y4 * (fv * v4)) by (nonlinear_arith);
        assert((0x1_0000_0000_0000_0000 * q1) * fv == 0x1_0000_0000_0000_0000 * (fv * q1))
            by (nonlinear_arith);
        assert(y1 * (d1 + fv * v1) == y1 * d1 + y1 * (fv * v1)) by (nonlinear_arith);
        assert(y2 * (d2 + fv * v2) == y2 * d2 + y2 * (fv * v2)) by (nonlinear_arith);
        assert(y3 * (d3 + fv * v3) == y3 * d3 + y3 * (fv * v3)) by (nonlinear_arith);
        assert(y4 * (d4 + fv * v4) == y4 * d4 + y4 * (fv * v4)) by (nonlinear_arith);
        lemma_congruent_intro(
            dot(f, g, i, j, len),
            combo(
                y1,
                dot(f, b1, i, j, len),
                y2,
                dot(f, b2, i, j, len),
                y3,
                dot(f, b3, i, j, len),
                y4,
                dot(f, b4, i, j, len),
            ),
            q0 + fv * q1,
        );
    }
}

/// The algebra of the Winograd scheme at one position of a quadrant.
/// Given the eight quadrants of the operands, the eight sums built from
/// them and the seven products at that position, the four combinations
/// of products are the entries of the ordinary block product.
pub proof fn lemma_winograd_cell(
    a11: MatrixView,
    a12: MatrixView,
    a21: MatrixView,
    a22: MatrixView,
    b11: MatrixView,
    b12: MatrixView,
    b21: MatrixView,
    b22: MatrixView,
    s1: MatrixView,
    s2: MatrixView,
    s3: MatrixView,
    s4: MatrixView,
    t1: MatrixView,
    t2: MatrixView,
    t3: MatrixView,
    t4: MatrixView,
    v1: i64,
    v2: i64,
    v3: i64,
    v4: i64,
    v5: i64,
    v6: i64,
    v7: i64,
    r: int,
    c: int,
    h: nat,
)
    requires
        forall|x: int, y: int| #[trigger] s1.at(x, y) == wrap(a21.at(x, y) + a22.at(x, y)),
        forall|x: int, y: int| #[trigger] s2.at(x, y) == wrap(s1.at(x, y) - a11.at(x, y)),
        forall|x: int, y: int| #[trigger] s3.at(x, y) == wrap(a11.at(x, y) - a21.at(x, y)),
        forall|x: int, y: int| #[trigger] s4.at(x, y) == wrap(a12.at(x, y) - s2.at(x, y)),
        forall|x: int, y: int| #[trigger] t1.at(x, y) == wrap(b12.at(x, y) - b11.at(x, y)),
        forall|x: int, y: int| #[trigger] t2.at(x, y) == wrap(b22.at(x, y) - t1.at(x, y)),
        forall|x: int, y: int| #[trigger] t3.at(x, y) == wrap(b22.at(x, y) - b12.at(x, y)),
        forall|x: int, y: int| #[trigger] t4.at(x, y) == wrap(t2.at(x, y) - b21.at(x, y)),
        v1 == wrap(dot(a11, b11, r, c, h)),
        v2 == wrap(dot(a12, b21, r, c, h)),
        v3 == wrap(dot(s4, b22, r, c, h)),
        v4 == wrap(dot(a22, t4, r, c, h)),
        v5 == wrap(dot(s1, t1, r, c, h)),
        v6 == wrap(dot(s2, t2, r, c, h)),
        v7 == wrap(dot(s3, t3, r, c, h)),
    ensures
        wrap(v1 + v2) == wrap(dot(a11, b11, r, c, h) + dot(a12, b21, r, c, h)),
        wrap(wrap(wrap(v1 + v6) + v5) + v3) == wrap(
            dot(a11, b12, r, c, h) + dot(a12, b22, r, c, h),
        ),
        wrap(wrap(wrap(v1 + v6) + v7) - v4) == wrap(
            dot(a21, b11, r, c, h) + dot(a22, b21, r, c, h),
        ),
        wrap(wrap(wrap(v1 + v6) + v7) + v5) == wrap(
            dot(a21, b12, r, c, h) + dot(a22, b22, r, c, h),
        ),
{
    // The rows of the left sums and the columns of the right sums as
    // combinations of the quadrants.
    assert forall|k: int| 0 <= k < h implies congruent(
        #[trigger] s1.at(r, k) as int,
        combo(0, a11.at(r, k) as int, 0, a12.at(r, k) as int, 1, a21.at(r, k) as int, 1, a22.at(r, k) as int),
    ) by {
        let q1 = lemma_wrap_elim(a21.at(r, k) + a22.at(r, k));
        lemma_congruent_intro(
            s1.at(r, k) as int,
            combo(0, a11.at(r, k) as int, 0, a12.at(r, k) as int, 1, a21.at(r, k) as int, 1, a22.at(r, k) as int),
            q1,
        );
    }
    assert forall|k: int| 0 <= k < h implies congruent(
        #[trigger] s2.at(r, k) as int,
        combo(-1, a11.at(r, k) as int, 0, a12.at(r, k) as int, 1, a21.at(r, k) as int, 1, a22.at(r, k) as int),
    ) by {
        let q1 = lemma_wrap_elim(a21.at(r, k) + a22.at(r, k));
        let q2 = lemma_wrap_elim(s1.at(r, k) - a11.at(r, k));
        lemma_congruent_intro(
            s2.at(r, k) as int,
            combo(-1, a11.at(r, k) as int, 0, a12.at(r, k) as int, 1, a21.at(r, k) as int, 1, a22.at(r, k) as int),
            q1 + q2,
        );
    }
    assert forall|k: int| 0 <= k < h implies congruent(
        #[trigger] s3.at(r, k) as int,
        combo(1, a11.at(r, k) as int, 0, a12.at(r, k) as int, -1, a21.at(r, k) as int, 0, a22.at(r, k) as int),
    ) by {
        let q1 = lemma_wrap_elim(a11.at(r, k) - a21.at(r, k));
        lemma_congruent_intro(
            s3.at(r, k) as int,
            combo(1, a11.at(r, k) as int, 0, a12.at(r, k) as int, -1, a21.at(r, k) as int, 0, a22.at(r, k) as int),
            q1,
        );
    }
    assert forall|k: int| 0 <= k < h implies congruent(
        #[trigger] s4.at(r, k) as int,
        combo(1, a11.at(r, k) as int, 1, a12.at(r, k) as int, -1, a21.at(r, k) as int, -1, a22.at(r, k) as int),
    ) by {
        let q1 = lemma_wrap_elim(a21.at(r, k) + a22.at(r, k));
        let q2 = lemma_wrap_elim(s1.at(r, k) - a11.at(r, k));
        let q3 = lemma_wrap_elim(a12.at(r, k) - s2.at(r, k));
        lemma_congruent_intro(
            s4.at(r, k) as int,
            combo(1, a11.at(r, k) as int, 1, a12.at(r, k) as int, -1, a21.at(r, k) as int, -1, a22.at(r, k) as int),
            q3 - q1 - q2,
        );
    }
    assert forall|k: int| 0 <= k < h implies congruent(
        #[trigger] t1.at(k, c) as int,
        combo(-1, b11.at(k, c) as int, 1, b12.at(k, c) as int, 0, b21.at(k, c) as int, 0, b22.at(k, c) as int),
    ) by {
        let q1 = lemma_wrap_elim(b12.at(k, c) - b11.at(k, c));
        lemma_congruent_intro(
            t1.at(k, c) as int,
            combo(-1, b11.at(k, c) as int, 1, b12.at(k, c) as int, 0, b21.at(k, c) as int, 0, b22.at(k, c) as int),
            q1,
        );
    }
    assert forall|k: int| 0 <= k < h implies congruent(
        #[trigger] t2.at(k, c) as int,
        combo(1, b11.at(k, c) as int, -1, b12.at(k, c) as int, 0, b21.at(k, c) as int, 1, b22.at(k, c) as int),
    ) by {
        let q1 = lemma_wrap_elim(b12.at(k, c) - b11.at(k, c));
        let q2 = lemma_wrap_elim(b22.at(k, c) - t1.at(k, c));
        lemma_congruent_intro(
            t2.at(k, c) as int,
            combo(1, b11.at(k, c) as int, -1, b12.at(k, c) as int, 0, b21.at(k, c) as int, 1, b22.at(k, c) as int),
            q2 - q1,
        );
    }
    assert forall|k: int| 0 <= k < h implies congruent(
        #[trigger] t3.at(k, c) as int,
        combo(0, b11.at(k, c) as int, -1, b12.at(k, c) as int, 0, b21.at(k, c) as int, 1, b22.at(k, c) as int),
    ) by {
        let q1 = lemma_wrap_elim(b22.at(k, c) - b12.at(k, c));
        lemma_congruent_intro(
            t3.at(k, c) as int,
            combo(0, b11.at(k, c) as int, -1, b12.at(k, c) as int, 0, b21.at(k, c) as int, 1, b22.at(k, c) as int),
            q1,
        );
    }
    assert forall|k: int| 0 <= k < h implies congruent(
        #[trigger] t4.at(k, c) as int,
        combo(1, b11.at(k, c) as int, -1, b12.at(k, c) as int, -1, b21.at(k, c) as int, 1, b22.at(k, c) as int),
    ) by {
        let q1 = lemma_wrap_elim(b12.at(k, c) - b11.at(k, c));
        let q2 = lemma_wrap_elim(b22.at(k, c) - t1.at(k, c));
        let q3 = lemma_wrap_elim(t2.at(k, c) - b21.at(k, c));
        lemma_congruent_intro(
            t4.at(k, c) as int,
            combo(1, b11.at(k, c) as int, -1, b12.at(k, c) as int, -1, b21.at(k, c) as int, 1, b22.at(k, c) as int),
            q3 + q2 - q1,
        );
    }

    // The sixteen elementary dot products.
    let d11_11 = dot(a11, b11, r, c, h);
    let d11_12 = dot(a11, b12, r, c, h);
    let d11_22 = dot(a11, b22, r, c, h);
    let d12_21 = dot(a12, b21, r, c, h);
    let d12_22 = dot(a12, b22, r, c, h);
    let d21_11 = dot(a21, b11, r, c, h);
    let d21_12 = dot(a21, b12, r, c, h);
    let d21_22 = dot(a21, b22, r, c, h);
    let d22_11 = dot(a22, b11, r, c, h);
    let d22_12 = dot(a22, b12, r, c, h);
    let d22_21 = dot(a22, b21, r, c, h);
    let d22_22 = dot(a22, b22, r, c, h);
    let m = 0x1_0000_0000_0000_0000int;

    let e1 = lemma_wrap_elim(d11_11);
    let e2 = lemma_wrap_elim(d12_21);

    // Third product: (a11 + a12 - a21 - a22) b22.
    lemma_dot_left(s4, a11, a12, a21, a22, 1, 1, -1, -1, b22, r, c, h);
    let w3 = lemma_congruent_elim(
        dot(s4, b22, r, c, h),
        combo(1, d11_22, 1, d12_22, -1, d21_22, -1, d22_22),
    );
    let e3 = lemma_wrap_elim(dot(s4, b22, r, c, h));
    let k3 = e3 + w3;
    assert(v3 == d11_22 + d12_22 - d21_22 - d22_22 + m * k3);

    // Fourth product: a22 (b11 - b12 - b21 + b22).
    lemma_dot_right(a22, t4, b11, b12, b21, b22, 1, -1, -1, 1, r, c, h);
    let w4 = lemma_congruent_elim(
        dot(a22, t4, r, c, h),
        combo(1, d22_11, -1, d22_12, -1, d22_21, 1, d22_22),
    );
    let e4 = lemma_wrap_elim(dot(a22, t4, r, c, h));
    let k4 = e4 + w4;
    assert(v4 == d22_11 - d22_12 - d22_21 + d22_22 + m * k4);

    // Fifth product: (a21 + a22)(b12 - b11).
    lemma_dot_left(s1, a11, a12, a21, a22, 0, 0, 1, 1, t1, r, c, h);
    let w5 = lemma_congruent_elim(
        dot(s1, t1, r, c, h),
        combo(
            0,
            dot(a11, t1, r, c, h),
            0,
            dot(a12, t1, r, c, h),
            1,
            dot(a21, t1, r, c, h),
            1,
            dot(a22, t1, r, c, h),
        ),
    );
    lemma_dot_right(a21, t1, b11, b12, b21, b22, -1, 1, 0, 0, r, c, h);
    let w5a = lemma_congruent_elim(
        dot(a21, t1, r, c, h),
        combo(-1, d21_11, 1, d21_12, 0, dot(a21, b21, r, c, h), 0, d21_22),
    );
    lemma_dot_right(a22, t1, b11, b12, b21, b22, -1, 1, 0, 0, r, c, h);
    let w5b = lemma_congruent_elim(
        dot(a22, t1, r, c, h),
        combo(-1, d22_11, 1, d22_12, 0, d22_21, 0, d22_22),
    );
    let e5 = lemma_wrap_elim(dot(s1, t1, r, c, h));
    let k5 = e5 + w5 + w5a + w5b;
    assert(v5 == -d21_11 + d21_12 - d22_11 + d22_12 + m * k5);

    // Sixth product: (a21 + a22 - a11)(b11 - b12 + b22).
    lemma_dot_left(s2, a11, a12, a21, a22, -1, 0, 1, 1, t2, r, c, h);
    let w6 = lemma_congruent_elim(
        dot(s2, t2, r, c, h),
        combo(
            -1,
            dot(a11, t2, r, c, h),
            0,
            dot(a12, t2, r, c, h),
            1,
            dot(a21, t2, r, c, h),
            1,
            dot(a22, t2, r, c, h),
        ),
    );
    lemma_dot_right(a11, t2, b11, b12, b21, b22, 1, -1, 0, 1, r, c, h);
    let w6a = lemma_congruent_elim(
        dot(a11, t2, r, c, h),
        combo(1, d11_11, -1, d11_12, 0, dot(a11, b21, r, c, h), 1, d11_22),
    );
    lemma_dot_right(a21, t2, b11, b12, b21, b22, 1, -1, 0, 1, r, c, h);
    let w6b = lemma_congruent_elim(
        dot(a21, t2, r, c, h),
        combo(1, d21_11, -1, d21_12, 0, dot(a21, b21, r, c, h), 1, d21_22),
    );
    lemma_dot_right(a22, t2, b11, b12, b21, b22, 1, -1, 0, 1, r, c, h);
    let w6c = lemma_congruent_elim(
        dot(a22, t2, r, c, h),
        combo(1, d22_11, -1, d22_12, 0, d22_21, 1, d22_22),
    );
    let e6 = lemma_wrap_elim(dot(s2, t2, r, c, h));
    let k6 = e6 + w6 - w6a + w6b + w6c;
    assert(v6 == -d11_11 + d11_12 - d11_22 + d21_11 - d21_12 + d21_22 + d22_11 - d22_12 + d22_22
        + m * k6);

    // Seventh product: (a11 - a21)(b22 - b12).
    lemma_dot_left(s3, a11, a12, a21, a22, 1, 0, -1, 0, t3, r, c, h);
    let w7 = lemma_congruent_elim(
        dot(s3, t3, r, c, h),
        combo(
            1,
            dot(a11, t3, r, c, h),
            0,
            dot(a12, t3, r, c, h),
            -1,
            dot(a21, t3, r, c, h),
            0,
            dot(a22, t3, r, c, h),
        ),
    );
    lemma_dot_right(a11, t3, b11, b12, b21, b22, 0, -1, 0, 1, r, c, h);
    let w7a = lemma_congruent_elim(
        dot(a11, t3, r, c, h),
        combo(0, d11_11, -1, d11_12, 0, dot(a11, b21, r, c, h), 1, d11_22),
    );
    lemma_dot_right(a21, t3, b11, b12, b21, b22, 0, -1, 0, 1, r, c, h);
    let w7b = lemma_congruent_elim(
        dot(a21, t3, r, c, h),
        combo(0, d21_11, -1, d21_12, 0, dot(a21, b21, r, c, h), 1, d21_22),
    );
    let e7 = lemma_wrap_elim(dot(s3, t3, r, c, h));
    let k7 = e7 + w7 + w7a - w7b;
    assert(v7 == -d11_12 + d11_22 + d21_12 - d21_22 + m * k7);

    // The four combinations.
    lemma_congruent_intro(v1 + v2, d11_11 + d12_21, e1 + e2);
    lemma_wrap_by_difference(v1 + v2, d11_11 + d12_21);

    let c2 = lemma_wrap_elim(v1 + v6);
    let u2 = wrap(v1 + v6) as int;
    let c4 = lemma_wrap_elim(u2 + v5);
    let u4 = wrap(u2 + v5) as int;
    lemma_congruent_intro(u4 + v3, d11_12 + d12_22, e1 + k6 + c2 + k5 + c4 + k3);
    lemma_wrap_by_difference(u4 + v3, d11_12 + d12_22);

    let c3 = lemma_wrap_elim(u2 + v7);
    let u3 = wrap(u2 + v7) as int;
    lemma_congruent_intro(u3 - v4, d21_11 + d22_21, e1 + k6 + c2 + k7 + c3 - k4);
    lemma_wrap_by_difference(u3 - v4, d21_11 + d22_21);

    lemma_congruent_intro(u3 + v5, d21_12 + d22_22, e1 + k6 + c2 + k7 + c3 + k5);
    lemma_wrap_by_difference(u3 + v5, d21_12 + d22_22);
}

/// Is `q` the quadrant of `m` that starts `dr` rows down and `dc`
/// columns to the right, `h` rows and columns wide?
#[verifier::opaque]
pub open spec fn is_quadrant(q: MatrixView, m: MatrixView, dr: int, dc: int, h: int) -> bool {
    forall|r: int, c: int| 0 <= r < h && 0 <= c < h ==> #[trigger] q.at(r, c) == m.at(dr + r, dc + c)
}

/// Is `s` the entrywise sum of `x` and `sign` times `y`?
#[verifier::opaque]
pub open spec fn is_sum(s: MatrixView, x: MatrixView, y: MatrixView, sign: int) -> bool {
    forall|r: int, c: int| #[trigger] s.at(r, c) == wrap(x.at(r, c) + sign * y.at(r, c))
}

/// Is `p` the product of `x` and `y`, both of side `h`?
#[verifier::opaque]
pub open spec fn is_product(p: MatrixView, x: MatrixView, y: MatrixView, h: nat) -> bool {
    forall|r: int, c: int|
        0 <= r < h && 0 <= c < h ==> #[trigger] p.at(r, c) == wrap(dot(x, y, r, c, h))
}

/// Is `u` the quadrant of the product of `m` and `n`, both of side
/// `2h`, that starts `dr` rows down and `dc` columns to the right?
#[verifier::opaque]
pub open spec fn is_product_quadrant(
    u: MatrixView,
    m: MatrixView,
    n: MatrixView,
    dr: int,
    dc: int,
    h: nat,
) -> bool {
    forall|r: int, c: int|
        0 <= r < h && 0 <= c < h ==> #[trigger] u.at(r, c) == wrap(
            dot(m, n, dr + r, dc + c, h + h),
        )
}

/// The Winograd scheme is right: its four combinations of the seven
/// products are the four quadrants of the product of the operands.
pub proof fn lemma_winograd_block(
    m: MatrixView,
    n: MatrixView,
    a: (MatrixView, MatrixView, MatrixView, MatrixView),
    b: (MatrixView, MatrixView, MatrixView, MatrixView),
    s: (MatrixView, MatrixView, MatrixView, MatrixView),
    t: (MatrixView, MatrixView, MatrixView, MatrixView),
    p: (MatrixView, MatrixView, MatrixView, MatrixView, MatrixView, MatrixView, MatrixView),
    u: (MatrixView, MatrixView, MatrixView, MatrixView, MatrixView, MatrixView, MatrixView),
    h: nat,
)
    requires
        is_quadrant(a.0, m, 0, 0, h as int),
        is_quadrant(a.1, m, 0, h as int, h as int),
        is_quadrant(a.2, m, h as int, 0, h as int),
        is_quadrant(a.3, m, h as int, h as int, h as int),
        is_quadrant(b.0, n, 0, 0, h as int),
        is_quadrant(b.1, n, 0, h as int, h as int),
        is_quadrant(b.2, n, h as int, 0, h as int),
        is_quadrant(b.3, n, h as int, h as int, h as int),
        is_sum(s.0, a.2, a.3, 1),
        is_sum(s.1, s.0, a.0, -1),
        is_sum(s.2, a.0, a.2, -1),
        is_sum(s.3, a.1, s.1, -1),
        is_sum(t.0, b.1, b.0, -1),
        is_sum(t.1, b.3, t.0, -1),
        is_sum(t.2, b.3, b.1, -1),
        is_sum(t.3, t.1, b.2, -1),
        is_product(p.0, a.0, b.0, h),
        is_product(p.1, a.1, b.2, h),
        is_product(p.2, s.3, b.3, h),
        is_product(p.3, a.3, t.3, h),
        is_product(p.4, s.0, t.0, h),
        is_product(p.5, s.1, t.1, h),
        is_product(p.6, s.2, t.2, h),
        is_sum(u.0, p.0, p.1, 1),
        is_sum(u.1, p.0, p.5, 1),
        is_sum(u.2, u.1, p.6, 1),
        is_sum(u.3, u.1, p.4, 1),
        is_sum(u.4, u.3, p.2, 1),
        is_sum(u.5, u.2, p.3, -1),
        is_sum(u.6, u.2, p.4, 1),
    ensures
        is_product_quadrant(u.0, m, n, 0, 0, h),
        is_product_quadrant(u.4, m, n, 0, h as int, h),
        is_product_quadrant(u.5, m, n, h as int, 0, h),
        is_product_quadrant(u.6, m, n, h as int, h as int, h),
{
    reveal(is_product_quadrant);
    assert forall|r: int, c: int| 0 <= r < h && 0 <= c < h implies #[trigger] u.0.at(r, c) == wrap(
        dot(m, n, r, c, h + h),
    ) by {
        lemma_winograd_at(m, n, a, b, s, t, p, u, h, r, c);
    }
    assert forall|r: int, c: int| 0 <= r < h && 0 <= c < h implies #[trigger] u.4.at(r, c) == wrap(
        dot(m, n, r, h + c, h + h),
    ) by {
        lemma_winograd_at(m, n, a, b, s, t, p, u, h, r, c);
    }
    assert forall|r: int, c: int| 0 <= r < h && 0 <= c < h implies #[trigger] u.5.at(r, c) == wrap(
        dot(m, n, h + r, c, h + h),
    ) by {
        lemma_winograd_at(m, n, a, b, s, t, p, u, h, r, c);
    }
    assert forall|r: int, c: int| 0 <= r < h && 0 <= c < h implies #[trigger] u.6.at(r, c) == wrap(
        dot(m, n, h + r, h + c, h + h),
    ) by {
        lemma_winograd_at(m, n, a, b, s, t, p, u, h, r, c);
    }
}

/// The statement of `lemma_winograd_block` at one position.
#[verifier::rlimit(50)]
proof fn lemma_winograd_at(
    m: MatrixView,
    n: MatrixView,
    a: (MatrixView, MatrixView, MatrixView, MatrixView),
    b: (MatrixView, MatrixView, MatrixView, MatrixView),
    s: (MatrixView, MatrixView, MatrixView, MatrixView),
    t: (MatrixView, MatrixView, MatrixView, MatrixView),
    p: (MatrixView, MatrixView, MatrixView, MatrixView, MatrixView, MatrixView, MatrixView),
    u: (MatrixView, MatrixView, MatrixView, MatrixView, MatrixView, MatrixView, MatrixView),
    h: nat,
    r: int,
    c: int,
)
    requires
        0 <= r < h,
        0 <= c < h,
        is_quadrant(a.0, m, 0, 0, h as int),
        is_quadrant(a.1, m, 0, h as int, h as int),
        is_quadrant(a.2, m, h as int, 0, h as int),
        is_quadrant(a.3, m, h as int, h as int, h as int),
        is_quadrant(b.0, n, 0, 0, h as int),
        is_quadrant(b.1, n, 0, h as int, h as int),
        is_quadrant(b.2, n, h as int, 0, h as int),
        is_quadrant(b.3, n, h as int, h as int, h as int),
        is_sum(s.0, a.2, a.3, 1),
        is_sum(s.1, s.0, a.0, -1),
        is_sum(s.2, a.0, a.2, -1),
        is_sum(s.3, a.1, s.1, -1),
        is_sum(t.0, b.1, b.0, -1),
        is_sum(t.1, b.3, t.0, -1),
        is_sum(t.2, b.3, b.1, -1),
        is_sum(t.3, t.1, b.2, -1),
        is_product(p.0, a.0, b.0, h),
        is_product(p.1, a.1, b.2, h),
        is_product(p.2, s.3, b.3, h),
        is_product(p.3, a.3, t.3, h),
        is_product(p.4, s.0, t.0, h),
        is_product(p.5, s.1, t.1, h),
        is_product(p.6, s.2, t.2, h),
        is_sum(u.0, p.0, p.1, 1),
        is_sum(u.1, p.0, p.5, 1),
        is_sum(u.2, u.1, p.6, 1),
        is_sum(u.3, u.1, p.4, 1),
        is_sum(u.4, u.3, p.2, 1),
        is_sum(u.5, u.2, p.3, -1),
        is_sum(u.6, u.2, p.4, 1),
    ensures
        u.0.at(r, c) == wrap(dot(m, n, r, c, h + h)),
        u.4.at(r, c) == wrap(dot(m, n, r, h + c, h + h)),
        u.5.at(r, c) == wrap(dot(m, n, h + r, c, h + h)),
        u.6.at(r, c) == wrap(dot(m, n, h + r, h + c, h + h)),
{
    reveal(is_quadrant);
    reveal(is_sum);
    reveal(is_product);
    lemma_winograd_cell(
        a.0,
        a.1,
        a.2,
        a.3,
        b.0,
        b.1,
        b.2,
        b.3,
        s.0,
        s.1,
        s.2,
        s.3,
        t.0,
        t.1,
        t.2,
        t.3,
        p.0.at(r, c),
        p.1.at(r, c),
        p.2.at(r, c),
        p.3.at(r, c),
        p.4.at(r, c),
        p.5.at(r, c),
        p.6.at(r, c),
        r,
        c,
        h,
    );
    lemma_dot_split(m, n, r, c, a.0, b.0, a.1, b.2, r, c, h, h);
    lemma_dot_split(m, n, r, h + c, a.0, b.1, a.1, b.3, r, c, h, h);
    lemma_dot_split(m, n, h + r, c, a.2, b.0, a.3, b.2, r, c, h, h);
    lemma_dot_split(m, n, h + r, h + c, a.2, b.1, a.3, b.3, r, c, h, h);
}

} // verus!

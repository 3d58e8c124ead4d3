//! Block views: square power-of-two windows over a lazily grown store.

use vstd::prelude::*;
use vstd::arithmetic::power2::*;
use vstd::bits::lemma_usize_shl_is_mul;
use crate::scalar::{wrap, carry, ring_add, ring_mul, lemma_wrap_carry, lemma_wrap_shift, lemma_wrap_id, lemma_wrap_add};
use crate::product::{
    dot, is_quadrant, is_sum, is_product, is_product_quadrant, lemma_dot_zero_tail,
    lemma_dot_pointwise, lemma_winograd_block,
};

verus! {

/// Largest block exponent a view can carry. Sides are at most 2^30, so
/// a coordinate plus an offset stays below 2^31 and fits a `usize` on
/// any supported machine.
pub const MAX_EXPONENT: usize = 30;

/// Blocks of at least this exponent are multiplied recursively, smaller
/// ones directly. Both ways give the same product; the threshold only
/// trades recursion overhead against scalar multiplications.
pub const SW_THRESHOLD_EXPONENT: usize = 4;

/// Largest side length, 2^30.
pub const LIMIT: usize = 0x4000_0000;

/// Does the store hold a value at an absolute position?
pub open spec fn held(data: Seq<Vec<i64>>, r: int, c: int) -> bool {
    0 <= r < data.len() && 0 <= c < data[r]@.len()
}

/// What the store holds at an absolute position, reading `0` wherever
/// nothing has been stored yet.
pub open spec fn cell(data: Seq<Vec<i64>>, r: int, c: int) -> i64 {
    if held(data, r, c) {
        data[r]@[c]
    } else {
        0
    }
}

/// The value written by a fused update: the kept old value (or nothing)
/// plus a scalar multiple of the source.
spec fn fused(keep: bool, x: i64, scalar: i64, y: i64) -> i64 {
    if keep {
        wrap(x + scalar * y)
    } else {
        wrap(scalar * y)
    }
}

/// Side length `2^e` as a machine integer.
pub fn side_len(e: usize) -> (s: usize)
    requires
        e <= MAX_EXPONENT,
    ensures
        s == pow2(e as nat),
        1 <= s <= LIMIT,
{
    proof {
        lemma2_to64();
        if e < MAX_EXPONENT {
            lemma_pow2_strictly_increases(e as nat, MAX_EXPONENT as nat);
        }
        lemma_pow2_pos(e as nat);
        lemma_usize_shl_is_mul(1usize, e);
    }
    1usize << e
}

/// Is `after` the store `data` with `v` put at an absolute position?
/// Rows that were missing up to that row are there and empty, the row
/// itself is padded with zeros up to that column, and nothing else has
/// changed: the store grows only as far as the write demands.
pub open spec fn written(data: Seq<Vec<i64>>, after: Seq<Vec<i64>>, r: int, c: int, v: i64) -> bool {
    let old_len = if r < data.len() { data[r]@.len() as int } else { 0 };
    &&& after.len() == (if r < data.len() { data.len() as int } else { r + 1 })
    &&& forall|i: int|
        0 <= i < after.len() && i != r ==> #[trigger] after[i]@ == (if i < data.len() {
            data[i]@
        } else {
            Seq::<i64>::empty()
        })
    &&& after[r]@.len() == (if c < old_len { old_len } else { c + 1 })
    &&& forall|j: int|
        0 <= j < after[r]@.len() ==> #[trigger] after[r]@[j] == (if j == c {
            v
        } else {
            cell(data, r, j)
        })
}

/// A write makes the store hold the written position and what lies to
/// its left in the same row, and nothing else that it did not hold.
pub proof fn lemma_written_holds(
    data: Seq<Vec<i64>>,
    after: Seq<Vec<i64>>,
    r: int,
    c: int,
    v: i64,
    i: int,
    j: int,
)
    requires
        0 <= r,
        0 <= c,
        written(data, after, r, c, v),
        held(after, i, j),
    ensures
        held(data, i, j) || (i == r && j <= c),
{
    if i != r {
        assert(after[i]@ == (if i < data.len() {
            data[i]@
        } else {
            Seq::<i64>::empty()
        }));
    }
}

/// Writes `v` at an absolute position, growing the store with empty rows
/// and zero cells as far as needed. Every other position reads as before.
fn store_put(data: &mut Vec<Vec<i64>>, r: usize, c: usize, v: i64)
    ensures
        written(old(data)@, final(data)@, r as int, c as int, v),
        forall|i: int, j: int| #[trigger]
            cell(final(data)@, i, j) == (if i == r && j == c {
                v
            } else {
                cell(old(data)@, i, j)
            }),
{
    let ghost start = data@;
    while data.len() <= r
        invariant
            data@.len() >= start.len(),
            data@.len() > start.len() ==> start.len() <= r && data@.len() <= r + 1,
            forall|i: int| 0 <= i < start.len() ==> #[trigger] data@[i] == start[i],
            forall|i: int| start.len() <= i < data@.len() ==> (#[trigger] data@[i])@.len() == 0,
        decreases r + 1 - data.len(),
    {
        data.push(Vec::new());
    }
    let ghost grown = data@;
    let mut row: Vec<i64> = Vec::new();
    data.set_and_swap(r, &mut row);
    while row.len() <= c
        invariant
            r < grown.len(),
            data@.len() == grown.len(),
            forall|i: int| 0 <= i < grown.len() && i != r ==> data@[i] == grown[i],
            grown[r as int]@.len() <= row@.len(),
            row@.len() == grown[r as int]@.len() || row@.len() <= c + 1,
            forall|j: int| 0 <= j < grown[r as int]@.len() ==> row@[j] == grown[r as int]@[j],
            forall|j: int| grown[r as int]@.len() <= j < row@.len() ==> row@[j] == 0,
        decreases c + 1 - row.len(),
    {
        row.push(0);
    }
    row.set(c, v);
    data.set(r, row);
    proof {
        assert forall|i: int| 0 <= i < data@.len() && i != r implies #[trigger] data@[i]@ == (if i
            < start.len() {
            start[i]@
        } else {
            Seq::<i64>::empty()
        }) by {
            assert(data@[i] == grown[i]);
            if i >= start.len() {
                assert(grown[i]@ =~= Seq::<i64>::empty());
            }
        }
        assert forall|i: int, j: int| #[trigger]
            cell(data@, i, j) == (if i == r && j == c {
                v
            } else {
                cell(start, i, j)
            }) by {
            if i != r && 0 <= i < data@.len() {
                assert(data@[i]@ == (if i < start.len() {
                    start[i]@
                } else {
                    Seq::<i64>::empty()
                }));
            }
        }
    }
}

/// A square window of side `2^e` over a store of rows. The window is
/// named by its block coordinate: it starts at row `bi * 2^e` and
/// column `bj * 2^e`. Positions that the store does not hold read as `0`.
pub struct MatrixView {
    data: Vec<Vec<i64>>,
    block: (usize, usize),
    block_exponent: usize,
}

impl MatrixView {
    /// The rows of the backing store.
    pub closed spec fn store(&self) -> Seq<Vec<i64>> {
        self.data@
    }

    /// The block coordinate `(bi, bj)`.
    pub closed spec fn coordinate(&self) -> (int, int) {
        (self.block.0 as int, self.block.1 as int)
    }

    /// The remaining exponent `e`.
    pub closed spec fn exponent(&self) -> nat {
        self.block_exponent as nat
    }

    /// The side length `2^e`.
    pub open spec fn side(&self) -> int {
        pow2(self.exponent()) as int
    }

    /// The absolute position of the window's first cell.
    pub open spec fn origin(&self) -> (int, int) {
        (self.coordinate().0 * self.side(), self.coordinate().1 * self.side())
    }

    /// The window lies within the addressable range.
    pub open spec fn wf(&self) -> bool {
        &&& self.exponent() <= MAX_EXPONENT
        &&& 0 <= self.coordinate().0
        &&& 0 <= self.coordinate().1
        &&& (self.coordinate().0 + 1) * self.side() <= LIMIT
        &&& (self.coordinate().1 + 1) * self.side() <= LIMIT
    }

    /// The entry at a position local to the window; `0` outside it.
    pub closed spec fn at(&self, r: int, c: int) -> i64 {
        if 0 <= r < self.side() && 0 <= c < self.side() {
            cell(self.store(), self.origin().0 + r, self.origin().1 + c)
        } else {
            0
        }
    }

    /// The entry of the product of two windows at a local position.
    pub open spec fn product_at(&self, rhs: MatrixView, i: int, j: int) -> i64 {
        wrap(dot(*self, rhs, i, j, self.side() as nat))
    }

    /// Outside the window every entry is `0`.
    pub proof fn lemma_at_outside(&self, r: int, c: int)
        requires
            !(0 <= r < self.side() && 0 <= c < self.side()),
        ensures
            self.at(r, c) == 0,
    {
    }

    /// Does the store reach the local row `r` of the window?
    pub open spec fn reaches_row(&self, r: int) -> bool {
        0 <= r < self.side() && self.origin().0 + r < self.store().len()
    }

    /// Does some row of the window hold a value in the absolute column
    /// `col`?
    pub open spec fn holds_column(&self, col: int) -> bool {
        exists|row: int|
            self.origin().0 <= row < self.origin().0 + self.side() && #[trigger] held(
                self.store(),
                row,
                col,
            )
    }

    /// Does some row of the store reach the local column `c` of the
    /// window?
    pub open spec fn reaches_col(&self, c: int) -> bool {
        0 <= c < self.side() && self.holds_column(self.origin().1 + c)
    }

    /// Does this window or `other` reach the local row `r`?
    pub open spec fn row_in_reach(&self, other: MatrixView, r: int) -> bool {
        self.reaches_row(r) || other.reaches_row(r)
    }

    /// Does this window or `other` reach the local column `c`?
    pub open spec fn col_in_reach(&self, other: MatrixView, c: int) -> bool {
        self.reaches_col(c) || other.reaches_col(c)
    }

    /// Does the absolute position lie in a row of the window, no
    /// further down and no further right than this window or `other`
    /// reaches?
    pub open spec fn in_reach(&self, other: MatrixView, row: int, col: int) -> bool {
        exists|r: int, c: int|
            self.origin().0 <= row <= self.origin().0 + r && col <= self.origin().1 + c
                && #[trigger] self.row_in_reach(other, r) && #[trigger] self.col_in_reach(
                other,
                c,
            )
    }

    /// Growth on demand: the store holds what the store of `before`
    /// held and, beyond that, only positions within reach of `before`
    /// and `other`. Nothing is allocated in anticipation.
    pub open spec fn grown_within(&self, before: MatrixView, other: MatrixView) -> bool {
        forall|row: int, col: int| #[trigger]
            held(self.store(), row, col) ==> held(before.store(), row, col) || before.in_reach(
                other,
                row,
                col,
            )
    }

    /// Is the absolute position inside the window?
    pub open spec fn covers(&self, r: int, c: int) -> bool {
        &&& self.origin().0 <= r < self.origin().0 + self.side()
        &&& self.origin().1 <= c < self.origin().1 + self.side()
    }

    /// Same window as `before`, and outside of it the same store content.
    pub open spec fn same_outside(&self, before: MatrixView) -> bool {
        &&& self.exponent() == before.exponent()
        &&& self.coordinate() == before.coordinate()
        &&& forall|r: int, c: int|
            !before.covers(r, c) ==> #[trigger] cell(self.store(), r, c) == cell(
                before.store(),
                r,
                c,
            )
    }

    /// A root view over `data`: block `(0, 0)` of side `2^block_exponent`.
    pub fn new(data: Vec<Vec<i64>>, block_exponent: usize) -> (v: MatrixView)
        requires
            block_exponent <= MAX_EXPONENT,
        ensures
            v.wf(),
            v.store() == data@,
            v.coordinate() == (0int, 0int),
            v.exponent() == block_exponent,
            forall|r: int, c: int| #[trigger]
                v.at(r, c) == (if 0 <= r < v.side() && 0 <= c < v.side() {
                    cell(data@, r, c)
                } else {
                    0
                }),
    {
        let v = MatrixView { data, block: (0, 0), block_exponent };
        proof {
            lemma2_to64();
            if block_exponent < MAX_EXPONENT {
                lemma_pow2_strictly_increases(block_exponent as nat, MAX_EXPONENT as nat);
            }
            assert(v.side() <= LIMIT);
            let b0 = v.coordinate().0;
            let b1 = v.coordinate().1;
            let si = v.side();
            assert((b0 + 1) * si == si && (b1 + 1) * si == si) by (nonlinear_arith)
                requires
                    b0 == 0,
                    b1 == 0,
            ;
        }
        v
    }

    /// The rows of the backing store as they are, without padding.
    pub fn data(&self) -> (rows: &Vec<Vec<i64>>)
        ensures
            rows@ == self.store(),
    {
        &self.data
    }

    /// Origin and side of the window as machine integers.
    fn frame(&self) -> (f: (usize, usize, usize))
        requires
            self.wf(),
        ensures
            f.0 == self.origin().0,
            f.1 == self.origin().1,
            f.2 == self.side(),
            f.0 + f.2 <= LIMIT,
            f.1 + f.2 <= LIMIT,
            1 <= f.2,
    {
        let s = side_len(self.block_exponent);
        proof {
            let b0 = self.block.0 as int;
            let b1 = self.block.1 as int;
            let si = s as int;
            assert((b0 + 1) * si == b0 * si + si) by (nonlinear_arith);
            assert((b1 + 1) * si == b1 * si + si) by (nonlinear_arith);
            assert(0 <= b0 * si) by (nonlinear_arith)
                requires
                    0 <= b0,
                    0 <= si,
            ;
            assert(0 <= b1 * si) by (nonlinear_arith)
                requires
                    0 <= b1,
                    0 <= si,
            ;
        }
        (self.block.0 * s, self.block.1 * s, s)
    }

    /// Number of leading rows of the window that the store reaches.
    fn rows(&self) -> (n: usize)
        requires
            self.wf(),
        ensures
            n <= self.side(),
            n == 0 || self.origin().0 + n <= self.store().len(),
            n == 0 || self.reaches_row(n - 1),
            forall|r: int, c: int| r >= n ==> #[trigger] self.at(r, c) == 0,
    {
        let f = self.frame();
        let len = self.data.len();
        if len <= f.0 {
            0
        } else if len - f.0 >= f.2 {
            f.2
        } else {
            len - f.0
        }
    }

    /// Number of leading columns of the window that some row reaches.
    fn cols(&self) -> (n: usize)
        requires
            self.wf(),
        ensures
            n <= self.side(),
            n == 0 || self.reaches_col(n - 1),
            forall|r: int, c: int| c >= n ==> #[trigger] self.at(r, c) == 0,
    {
        let f = self.frame();
        let h = self.rows();
        let mut n: usize = 0;
        let mut r: usize = 0;
        while r < h
            invariant
                self.wf(),
                n == 0 || self.reaches_col(n - 1),
                f.0 == self.origin().0,
                f.1 == self.origin().1,
                f.2 == self.side(),
                f.0 + f.2 <= LIMIT,
                h <= f.2,
                r <= h,
                n <= f.2,
                f.0 + h <= self.data@.len() || h == 0,
                forall|rr: int, c: int| rr >= h ==> #[trigger] self.at(rr, c) == 0,
                forall|rr: int, c: int| 0 <= rr < r && c >= n ==> #[trigger] self.at(rr, c) == 0,
            decreases h - r,
        {
            let len = self.data[f.0 + r].len();
            let reach = if len <= f.1 {
                0
            } else if len - f.1 >= f.2 {
                f.2
            } else {
                len - f.1
            };
            if reach > n {
                n = reach;
                proof {
                    assert(held(self.store(), f.0 + r, f.1 + reach - 1));
                }
            }
            r += 1;
        }
        n
    }

    /// Reads the entry at a position local to the window. Positions
    /// outside the window or beyond the store read as `0`.
    pub fn index(&self, index: (usize, usize)) -> (v: i64)
        requires
            self.wf(),
        ensures
            v == self.at(index.0 as int, index.1 as int),
    {
        let f = self.frame();
        if index.0 >= f.2 || index.1 >= f.2 {
            return 0;
        }
        let row = f.0 + index.0;
        let col = f.1 + index.1;
        if row >= self.data.len() {
            return 0;
        }
        if col >= self.data[row].len() {
            return 0;
        }
        self.data[row][col]
    }

    /// Writes the entry at a position local to the window, growing the
    /// store with zeros as far as needed. A position outside the window
    /// is left alone.
    pub fn index_mut(&mut self, index: (usize, usize), value: i64)
        requires
            old(self).wf(),
        ensures
            final(self).wf(),
            final(self).same_outside(*old(self)),
            forall|r: int, c: int| #[trigger]
                final(self).at(r, c) == (if r == index.0 && c == index.1 && r < old(self).side()
                    && c < old(self).side() {
                    value
                } else {
                    old(self).at(r, c)
                }),
            index.0 < old(self).side() && index.1 < old(self).side() ==> written(
                old(self).store(),
                final(self).store(),
                old(self).origin().0 + index.0,
                old(self).origin().1 + index.1,
                value,
            ),
            !(index.0 < old(self).side() && index.1 < old(self).side()) ==> final(self).store()
                == old(self).store(),
    {
        let f = self.frame();
        if index.0 >= f.2 || index.1 >= f.2 {
            return ;
        }
        store_put(&mut self.data, f.0 + index.0, f.1 + index.1, value);
    }

    /// The fused update behind `set`, `addition`, negation and block
    /// extraction: every entry of the window becomes the kept old entry
    /// (or nothing) plus `scalar` times the source entry found `dr` rows
    /// and `dc` columns further on.
    fn fuse(&mut self, keep: bool, other: &MatrixView, scalar: i64, dr: usize, dc: usize)
        requires
            old(self).wf(),
            other.wf(),
            dr <= LIMIT,
            dc <= LIMIT,
        ensures
            final(self).wf(),
            final(self).same_outside(*old(self)),
            forall|r: int, c: int|
                0 <= r < old(self).side() && 0 <= c < old(self).side()
                    ==> #[trigger] final(self).at(r, c)
                        == fused(keep, old(self).at(r, c), scalar, other.at(r + dr, c + dc)),
            final(self).grown_within(*old(self), *other),
    {
        let ghost before = *self;
        let f = self.frame();
        let hs = self.rows();
        let ho = other.rows();
        let ws = self.cols();
        let wo = other.cols();
        let hm = if hs < ho { ho } else { hs };
        let wm = if ws < wo { wo } else { ws };
        let h = if hm < f.2 { hm } else { f.2 };
        let w = if wm < f.2 { wm } else { f.2 };
        proof {
            lemma_wrap_id(0);
        }
        let mut r: usize = 0;
        while r < h
            invariant
                before.wf(),
                other.wf(),
                self.wf(),
                self.same_outside(before),
                f.0 == before.origin().0,
                f.1 == before.origin().1,
                f.2 == before.side(),
                f.2 <= LIMIT,
                h <= f.2,
                w <= f.2,
                h <= hm,
                w <= wm,
                hm == 0 || before.row_in_reach(*other, hm - 1),
                wm == 0 || before.col_in_reach(*other, wm - 1),
                r <= h,
                dr <= LIMIT,
                dc <= LIMIT,
                forall|rr: int, cc: int| #[trigger]
                    held(self.store(), rr, cc) ==> held(before.store(), rr, cc) || (f.0 <= rr
                        < f.0 + r && cc < f.1 + w && 0 < w),
                forall|rr: int, cc: int|
                    #[trigger] self.at(rr, cc) == (if 0 <= rr < r && 0 <= cc < w {
                        fused(keep, before.at(rr, cc), scalar, other.at(rr + dr, cc + dc))
                    } else {
                        before.at(rr, cc)
                    }),
            decreases h - r,
        {
            let mut c: usize = 0;
            while c < w
                invariant
                    before.wf(),
                    other.wf(),
                    self.wf(),
                    self.same_outside(before),
                    f.0 == before.origin().0,
                    f.1 == before.origin().1,
                    f.2 == before.side(),
                    f.2 <= LIMIT,
                    h <= f.2,
                    w <= f.2,
                    r < h,
                    c <= w,
                    dr <= LIMIT,
                    dc <= LIMIT,
                    forall|rr: int, cc: int| #[trigger]
                        held(self.store(), rr, cc) ==> held(before.store(), rr, cc) || (f.0 <= rr
                            < f.0 + r && cc < f.1 + w && 0 < w) || (rr == f.0 + r && cc < f.1 + c
                            && 0 < c),
                    forall|rr: int, cc: int|
                        #[trigger] self.at(rr, cc) == (if (0 <= rr < r && 0 <= cc < w) || (rr == r
                            && 0 <= cc < c) {
                            fused(keep, before.at(rr, cc), scalar, other.at(rr + dr, cc + dc))
                        } else {
                            before.at(rr, cc)
                        }),
                decreases w - c,
            {
                let y = other.index((r + dr, c + dc));
                let scaled = ring_mul(scalar, y);
                let v = if keep {
                    let x = self.index((r, c));
                    proof {
                        lemma_wrap_carry(scalar * y);
                        lemma_wrap_shift(x + scalar * y, carry(scalar * y));
                    }
                    ring_add(x, scaled)
                } else {
                    scaled
                };
                let ghost mid = *self;
                self.index_mut((r, c), v);
                proof {
                    assert forall|rr: int, cc: int| !before.covers(rr, cc) implies #[trigger] cell(
                        self.store(),
                        rr,
                        cc,
                    ) == cell(before.store(), rr, cc) by {
                        assert(cell(mid.store(), rr, cc) == cell(before.store(), rr, cc));
                    }
                    assert forall|rr: int, cc: int| #[trigger]
                        held(self.store(), rr, cc) implies held(before.store(), rr, cc) || (f.0
                        <= rr < f.0 + r && cc < f.1 + w && 0 < w) || (rr == f.0 + r && cc < f.1 + c
                        + 1) by {
                        lemma_written_holds(
                            mid.store(),
                            self.store(),
                            f.0 + r,
                            f.1 + c,
                            v,
                            rr,
                            cc,
                        );
                    }
                }
                c += 1;
            }
            r += 1;
        }
        proof {
            assert forall|rr: int, cc: int|
                0 <= rr < before.side() && 0 <= cc < before.side() implies #[trigger] self.at(
                rr,
                cc,
            ) == fused(keep, before.at(rr, cc), scalar, other.at(rr + dr, cc + dc)) by {
                if !(rr < h && cc < w) {
                    assert(before.at(rr, cc) == 0);
                    assert(other.at(rr + dr, cc + dc) == 0);
                    assert(scalar * 0 == 0);
                }
            }
            assert forall|rr: int, cc: int| #[trigger]
                held(self.store(), rr, cc) implies held(before.store(), rr, cc) || before.in_reach(
                *other,
                rr,
                cc,
            ) by {
                if !held(before.store(), rr, cc) {
                    assert(before.row_in_reach(*other, hm - 1));
                    assert(before.col_in_reach(*other, wm - 1));
                }
            }
        }
    }

    /// Writes the content of `other`'s window into this window, growing
    /// the store where `other` reaches further and zero-filling whatever
    /// of this window `other` does not cover.
    pub fn set(&mut self, other: &MatrixView)
        requires
            old(self).wf(),
            other.wf(),
            old(self).exponent() == other.exponent(),
        ensures
            final(self).wf(),
            final(self).same_outside(*old(self)),
            final(self).grown_within(*old(self), *other),
            forall|r: int, c: int| #[trigger] final(self).at(r, c) == other.at(r, c),
    {
        self.fuse(false, other, 1, 0, 0);
        proof {
            assert forall|r: int, c: int| #[trigger] self.at(r, c) == other.at(r, c) by {
                lemma_wrap_id(other.at(r, c));
            }
        }
    }

    /// Signed accumulation: every entry of `out` gains `scalar` times
    /// the matching entry of `rhs`. With `scalar` 1 this adds, with -1
    /// it subtracts.
    pub fn addition(out: &mut MatrixView, rhs: &MatrixView, scalar: i64)
        requires
            old(out).wf(),
            rhs.wf(),
            old(out).exponent() == rhs.exponent(),
        ensures
            final(out).wf(),
            final(out).same_outside(*old(out)),
            final(out).grown_within(*old(out), *rhs),
            forall|r: int, c: int| #[trigger]
                final(out).at(r, c) == wrap(old(out).at(r, c) + scalar * rhs.at(r, c)),
    {
        out.fuse(true, rhs, scalar, 0, 0);
        proof {
            lemma_wrap_id(0);
            assert forall|r: int, c: int| #[trigger]
                out.at(r, c) == wrap(old(out).at(r, c) + scalar * rhs.at(r, c)) by {
                if !(0 <= r < rhs.side() && 0 <= c < rhs.side()) {
                    assert(scalar * 0 == 0);
                }
            }
        }
    }

    /// An independent copy of this window as a root view, holding
    /// `scalar` times each entry.
    pub fn scaled(&self, scalar: i64) -> (out: MatrixView)
        requires
            self.wf(),
        ensures
            out.wf(),
            out.exponent() == self.exponent(),
            out.coordinate() == (0int, 0int),
            forall|r: int, c: int| #[trigger] out.at(r, c) == wrap(scalar * self.at(r, c)),
    {
        let mut out = MatrixView::new(Vec::new(), self.block_exponent);
        out.fuse(false, self, scalar, 0, 0);
        proof {
            lemma_wrap_id(0);
            assert forall|r: int, c: int| #[trigger]
                out.at(r, c) == wrap(scalar * self.at(r, c)) by {
                if !(0 <= r < self.side() && 0 <= c < self.side()) {
                    assert(scalar * 0 == 0);
                }
            }
        }
        out
    }

    /// The sum of two windows as a new root view.
    pub fn add(&self, rhs: &MatrixView) -> (out: MatrixView)
        requires
            self.wf(),
            rhs.wf(),
            self.exponent() == rhs.exponent(),
        ensures
            out.wf(),
            out.exponent() == self.exponent(),
            out.coordinate() == (0int, 0int),
            forall|r: int, c: int| #[trigger]
                out.at(r, c) == wrap(self.at(r, c) + rhs.at(r, c)),
    {
        let mut out = self.scaled(1);
        proof {
            assert forall|r: int, c: int| #[trigger] out.at(r, c) == self.at(r, c) by {
                lemma_wrap_id(self.at(r, c));
            }
        }
        MatrixView::addition(&mut out, rhs, 1);
        out
    }

    /// Adds `rhs` into this window.
    pub fn add_assign(&mut self, rhs: &MatrixView)
        requires
            old(self).wf(),
            rhs.wf(),
            old(self).exponent() == rhs.exponent(),
        ensures
            final(self).wf(),
            final(self).same_outside(*old(self)),
            final(self).grown_within(*old(self), *rhs),
            forall|r: int, c: int| #[trigger]
                final(self).at(r, c) == wrap(old(self).at(r, c) + rhs.at(r, c)),
    {
        MatrixView::addition(self, rhs, 1);
    }

    /// The difference of two windows as a new root view.
    pub fn sub(&self, rhs: &MatrixView) -> (out: MatrixView)
        requires
            self.wf(),
            rhs.wf(),
            self.exponent() == rhs.exponent(),
        ensures
            out.wf(),
            out.exponent() == self.exponent(),
            out.coordinate() == (0int, 0int),
            forall|r: int, c: int| #[trigger]
                out.at(r, c) == wrap(self.at(r, c) - rhs.at(r, c)),
    {
        let mut out = self.scaled(1);
        proof {
            assert forall|r: int, c: int| #[trigger] out.at(r, c) == self.at(r, c) by {
                lemma_wrap_id(self.at(r, c));
            }
        }
        MatrixView::addition(&mut out, rhs, -1);
        out
    }

    /// Subtracts `rhs` from this window.
    pub fn sub_assign(&mut self, rhs: &MatrixView)
        requires
            old(self).wf(),
            rhs.wf(),
            old(self).exponent() == rhs.exponent(),
        ensures
            final(self).wf(),
            final(self).same_outside(*old(self)),
            final(self).grown_within(*old(self), *rhs),
            forall|r: int, c: int| #[trigger]
                final(self).at(r, c) == wrap(old(self).at(r, c) - rhs.at(r, c)),
    {
        MatrixView::addition(self, rhs, -1);
    }

    /// The negated window as a new root view; the source is untouched.
    pub fn neg(&self) -> (out: MatrixView)
        requires
            self.wf(),
        ensures
            out.wf(),
            out.exponent() == self.exponent(),
            out.coordinate() == (0int, 0int),
            forall|r: int, c: int| #[trigger] out.at(r, c) == wrap(-self.at(r, c)),
    {
        self.scaled(-1)
    }

    /// The quadrant `(i, j)` of this window as a root view of its own,
    /// one exponent smaller. At exponent 0 there is nothing to split and
    /// the result is a copy of the window.
    pub fn block(&self, i: usize, j: usize) -> (b: MatrixView)
        requires
            self.wf(),
            i <= 1,
            j <= 1,
        ensures
            b.wf(),
            b.coordinate() == (0int, 0int),
            self.exponent() == 0 ==> b.exponent() == 0 && forall|r: int, c: int| #[trigger]
                b.at(r, c) == self.at(r, c),
            self.exponent() > 0 ==> b.exponent() == self.exponent() - 1 && 2 * b.side()
                == self.side() && forall|r: int, c: int|
                0 <= r < b.side() && 0 <= c < b.side() ==> #[trigger] b.at(r, c) == self.at(
                    i * b.side() + r,
                    j * b.side() + c,
                ),
    {
        if self.block_exponent == 0 {
            let b = self.scaled(1);
            proof {
                assert forall|r: int, c: int| #[trigger] b.at(r, c) == self.at(r, c) by {
                    lemma_wrap_id(self.at(r, c));
                }
            }
            b
        } else {
            let half = side_len(self.block_exponent - 1);
            let mut b = MatrixView::new(Vec::new(), self.block_exponent - 1);
            proof {
                lemma_pow2_unfold(self.exponent());
            }
            b.fuse(false, self, 1, i * half, j * half);
            proof {
                assert forall|r: int, c: int|
                    0 <= r < b.side() && 0 <= c < b.side() implies #[trigger] b.at(r, c)
                    == self.at(i * b.side() + r, j * b.side() + c) by {
                    lemma_wrap_id(self.at(i * b.side() + r, j * b.side() + c));
                }
            }
            b
        }
    }

    /// Do the two windows hold the same entries? Positions that only one
    /// of the stores reaches count as `0` in the other, so the physical
    /// extents of the stores do not matter. Views of different exponents
    /// are never equal.
    pub fn eq(&self, rhs: &MatrixView) -> (same: bool)
        requires
            self.wf(),
            rhs.wf(),
        ensures
            same == (self.exponent() == rhs.exponent() && forall|r: int, c: int|
                self.at(r, c) == rhs.at(r, c)),
    {
        if self.block_exponent != rhs.block_exponent {
            return false;
        }
        let hs = self.rows();
        let ho = rhs.rows();
        let ws = self.cols();
        let wo = rhs.cols();
        let h = if hs < ho { ho } else { hs };
        let w = if ws < wo { wo } else { ws };
        let mut r: usize = 0;
        while r < h
            invariant
                self.wf(),
                rhs.wf(),
                r <= h,
                forall|rr: int, cc: int|
                    0 <= rr < r && 0 <= cc < w ==> self.at(rr, cc) == rhs.at(rr, cc),
            decreases h - r,
        {
            let mut c: usize = 0;
            while c < w
                invariant
                    self.wf(),
                    rhs.wf(),
                    r < h,
                    c <= w,
                    forall|rr: int, cc: int|
                        0 <= rr < r && 0 <= cc < w ==> self.at(rr, cc) == rhs.at(rr, cc),
                    forall|cc: int| 0 <= cc < c ==> self.at(r as int, cc) == rhs.at(r as int, cc),
                decreases w - c,
            {
                if self.index((r, c)) != rhs.index((r, c)) {
                    return false;
                }
                c += 1;
            }
            r += 1;
        }
        proof {
            assert forall|rr: int, cc: int| self.at(rr, cc) == rhs.at(rr, cc) by {
                if 0 <= rr < h && 0 <= cc < w {
                } else {
                    assert(self.at(rr, cc) == 0);
                    assert(rhs.at(rr, cc) == 0);
                }
            }
        }
        true
    }

    /// Direct multiplication in place: the window `m` becomes the
    /// product of its old content with `n`, one dot product per entry.
    /// Only the part of the inner dimension that both stores reach is
    /// walked; the rest is padding and contributes nothing.
    pub fn multiplication_schoolbook_inplace(m: &mut MatrixView, n: &MatrixView)
        requires
            old(m).wf(),
            n.wf(),
            old(m).exponent() == n.exponent(),
        ensures
            final(m).wf(),
            final(m).same_outside(*old(m)),
            final(m).grown_within(*old(m), *n),
            forall|i: int, j: int|
                0 <= i < old(m).side() && 0 <= j < old(m).side() ==> #[trigger] final(m).at(i, j)
                    == old(m).product_at(*n, i, j),
    {
        let ghost before = *m;
        let ghost side = before.side() as nat;
        let h = m.rows();
        let wm = m.cols();
        let hn = n.rows();
        let wn = n.cols();
        let kk = if wm < hn { wm } else { hn };
        let w = if wm < wn { wn } else { wm };
        let f = m.frame();
        proof {
            lemma_wrap_id(0);
        }
        let mut i: usize = 0;
        while i < h
            invariant
                before.wf(),
                n.wf(),
                m.wf(),
                m.same_outside(before),
                f.0 == before.origin().0,
                f.1 == before.origin().1,
                h == 0 || before.row_in_reach(*n, h - 1),
                w == 0 || before.col_in_reach(*n, w - 1),
                forall|rr: int, cc: int| #[trigger]
                    held(m.store(), rr, cc) ==> held(before.store(), rr, cc) || (f.0 <= rr < f.0
                        + i && cc < f.1 + w && 0 < w),
                before.exponent() == n.exponent(),
                side == before.side(),
                i <= h,
                h <= side,
                w <= side,
                wn <= w,
                kk <= side,
                forall|r: int, c: int| c >= wn ==> #[trigger] n.at(r, c) == 0,
                forall|r: int, c: int| r >= hn ==> #[trigger] n.at(r, c) == 0,
                forall|r: int, c: int| c >= wm ==> #[trigger] before.at(r, c) == 0,
                kk == wm || kk == hn,
                forall|r: int, c: int|
                    #[trigger] m.at(r, c) == (if 0 <= r < i && 0 <= c < w {
                        before.product_at(*n, r, c)
                    } else {
                        before.at(r, c)
                    }),
            decreases h - i,
        {
            let mut line: Vec<i64> = Vec::new();
            let mut j: usize = 0;
            while j < wn
                invariant
                    before.wf(),
                    n.wf(),
                    m.wf(),
                    before.exponent() == n.exponent(),
                    side == before.side(),
                    i < h,
                    h <= side,
                    j <= wn,
                    wn <= side,
                    kk <= side,
                    line@.len() == j,
                    forall|r: int, c: int| r >= hn ==> #[trigger] n.at(r, c) == 0,
                    forall|r: int, c: int| c >= wm ==> #[trigger] before.at(r, c) == 0,
                    kk == wm || kk == hn,
                    forall|c: int| #[trigger] m.at(i as int, c) == before.at(i as int, c),
                    forall|c: int|
                        0 <= c < j ==> #[trigger] line@[c] == before.product_at(*n, i as int, c),
                decreases wn - j,
            {
                let mut sum: i64 = 0;
                let mut k: usize = 0;
                while k < kk
                    invariant
                        n.wf(),
                        m.wf(),
                        k <= kk,
                        forall|c: int| #[trigger] m.at(i as int, c) == before.at(i as int, c),
                        sum == wrap(dot(before, *n, i as int, j as int, k as nat)),
                    decreases kk - k,
                {
                    let x = m.index((i, k));
                    let y = n.index((k, j));
                    proof {
                        lemma_wrap_add(dot(before, *n, i as int, j as int, k as nat), x * y);
                        assert(before.at(i as int, k as int) == x);
                        assert(n.at(k as int, j as int) == y);
                    }
                    sum = ring_add(sum, ring_mul(x, y));
                    k += 1;
                }
                proof {
                    assert forall|t: int| kk <= t < side implies #[trigger] before.at(i as int, t)
                        == 0 || #[trigger] n.at(t, j as int) == 0 by {
                        if kk == wm {
                            assert(before.at(i as int, t) == 0);
                        } else {
                            assert(n.at(t, j as int) == 0);
                        }
                    }
                    lemma_dot_zero_tail(before, *n, i as int, j as int, kk as nat, side);
                }
                line.push(sum);
                j += 1;
            }
            let mut c: usize = 0;
            while c < w
                invariant
                    before.wf(),
                    n.wf(),
                    m.wf(),
                    m.same_outside(before),
                    f.0 == before.origin().0,
                    f.1 == before.origin().1,
                    forall|rr: int, cc: int| #[trigger]
                        held(m.store(), rr, cc) ==> held(before.store(), rr, cc) || (f.0 <= rr
                            < f.0 + i && cc < f.1 + w && 0 < w) || (rr == f.0 + i && cc < f.1 + c
                            && 0 < c),
                    before.exponent() == n.exponent(),
                    side == before.side(),
                    i < h,
                    h <= side,
                    c <= w,
                    w <= side,
                    wn <= w,
                    line@.len() == wn,
                    forall|r: int, cc: int| cc >= wn ==> #[trigger] n.at(r, cc) == 0,
                    forall|cc: int|
                        0 <= cc < wn ==> #[trigger] line@[cc] == before.product_at(
                            *n,
                            i as int,
                            cc,
                        ),
                    forall|r: int, cc: int|
                        #[trigger] m.at(r, cc) == (if (0 <= r < i && 0 <= cc < w) || (r == i && 0
                            <= cc < c) {
                            before.product_at(*n, r, cc)
                        } else {
                            before.at(r, cc)
                        }),
                decreases w - c,
            {
                let v = if c < wn { line[c] } else { 0 };
                proof {
                    if c >= wn {
                        assert forall|t: int| 0 <= t < side implies #[trigger] before.at(
                            i as int,
                            t,
                        ) == 0 || #[trigger] n.at(t, c as int) == 0 by {
                            assert(n.at(t, c as int) == 0);
                        }
                        lemma_dot_zero_tail(before, *n, i as int, c as int, 0, side);
                    }
                }
                let ghost mid = *m;
                m.index_mut((i, c), v);
                proof {
                    assert forall|rr: int, cc: int| !before.covers(rr, cc) implies #[trigger] cell(
                        m.store(),
                        rr,
                        cc,
                    ) == cell(before.store(), rr, cc) by {
                        assert(cell(mid.store(), rr, cc) == cell(before.store(), rr, cc));
                    }
                    assert forall|rr: int, cc: int| #[trigger]
                        held(m.store(), rr, cc) implies held(before.store(), rr, cc) || (f.0 <= rr
                        < f.0 + i && cc < f.1 + w && 0 < w) || (rr == f.0 + i && cc < f.1 + c + 1)
                    by {
                        lemma_written_holds(mid.store(), m.store(), f.0 + i, f.1 + c, v, rr, cc);
                    }
                }
                c += 1;
            }
            i += 1;
        }
        proof {
            assert forall|r: int, c: int|
                0 <= r < before.side() && 0 <= c < before.side() implies #[trigger] m.at(r, c)
                == before.product_at(*n, r, c) by {
                if !(r < h && c < w) {
                    assert forall|t: int| 0 <= t < side implies #[trigger] before.at(r, t) == 0
                        || #[trigger] n.at(t, c) == 0 by {
                        if r >= h {
                            assert(before.at(r, t) == 0);
                        } else {
                            assert(n.at(t, c) == 0);
                        }
                    }
                    lemma_dot_zero_tail(before, *n, r, c, 0, side);
                }
            }
            assert forall|rr: int, cc: int| #[trigger]
                held(m.store(), rr, cc) implies held(before.store(), rr, cc) || before.in_reach(
                *n,
                rr,
                cc,
            ) by {
                if !held(before.store(), rr, cc) {
                    assert(before.row_in_reach(*n, h - 1));
                    assert(before.col_in_reach(*n, w - 1));
                }
            }
        }
    }

    /// A copy of this window as a root view of side `2^block_exponent`.
    /// Entries beyond the new side are cut off; a larger side only adds
    /// padding.
    pub fn with_exponent(&self, block_exponent: usize) -> (out: MatrixView)
        requires
            self.wf(),
            block_exponent <= MAX_EXPONENT,
        ensures
            out.wf(),
            out.exponent() == block_exponent,
            out.coordinate() == (0int, 0int),
            forall|r: int, c: int|
                0 <= r < out.side() && 0 <= c < out.side() ==> #[trigger] out.at(r, c) == self.at(
                    r,
                    c,
                ),
    {
        let mut out = MatrixView::new(Vec::new(), block_exponent);
        out.fuse(false, self, 1, 0, 0);
        proof {
            assert forall|r: int, c: int|
                0 <= r < out.side() && 0 <= c < out.side() implies #[trigger] out.at(r, c)
                == self.at(r, c) by {
                lemma_wrap_id(self.at(r, c));
            }
        }
        out
    }

    /// Writes `src` into quadrant `(i, j)` of this window and leaves the
    /// other three quadrants as they are.
    fn place(&mut self, i: usize, j: usize, src: &MatrixView)
        requires
            old(self).wf(),
            src.wf(),
            i <= 1,
            j <= 1,
            src.exponent() + 1 == old(self).exponent(),
        ensures
            final(self).wf(),
            final(self).same_outside(*old(self)),
            forall|r: int, c: int| #[trigger]
                final(self).at(r, c) == (if i * src.side() <= r < (i + 1) * src.side() && j
                    * src.side() <= c < (j + 1) * src.side() {
                    src.at(r - i * src.side(), c - j * src.side())
                } else {
                    old(self).at(r, c)
                }),
    {
        let ghost before = *self;
        let ghost h = src.side();
        let ghost s = before.side();
        let b = self.block;
        proof {
            lemma_pow2_unfold(before.exponent());
            lemma_pow2_pos(src.exponent());
            let b0 = b.0 as int;
            let b1 = b.1 as int;
            let ii = i as int;
            let jj = j as int;
            assert(s == 2 * h);
            assert((b0 + 1) * s >= b0 + 1 && (b1 + 1) * s >= b1 + 1) by (nonlinear_arith)
                requires
                    s >= 1,
                    b0 >= 0,
                    b1 >= 0,
            ;
            assert((2 * b0 + ii) * h == b0 * s + ii * h && (2 * b1 + jj) * h == b1 * s + jj * h)
                by (nonlinear_arith)
                requires
                    s == 2 * h,
            ;
            assert((2 * b0 + ii + 1) * h <= (b0 + 1) * s && (2 * b1 + jj + 1) * h <= (b1 + 1) * s)
                by (nonlinear_arith)
                requires
                    s == 2 * h,
                    ii <= 1,
                    jj <= 1,
                    h >= 1,
            ;
            assert(ii * h == (if ii == 0 { 0 } else { h }) && jj * h == (if jj == 0 { 0 } else { h })
                && (ii + 1) * h == ii * h + h && (jj + 1) * h == jj * h + h) by (nonlinear_arith)
                requires
                    0 <= ii <= 1,
                    0 <= jj <= 1,
            ;
            assert((b0 + 1) * s == b0 * s + s && (b1 + 1) * s == b1 * s + s) by (nonlinear_arith);
        }
        self.block = (2 * b.0 + i, 2 * b.1 + j);
        self.block_exponent = self.block_exponent - 1;
        let ghost inner = *self;
        self.set(src);
        let ghost filled = *self;
        self.block = b;
        self.block_exponent = self.block_exponent + 1;
        proof {
            assert(self.store() == filled.store());
            assert(inner.store() == before.store());
            assert(self.side() == s);
            assert(filled.side() == h);
            assert forall|r: int, c: int| !before.covers(r, c) implies #[trigger] cell(
                self.store(),
                r,
                c,
            ) == cell(before.store(), r, c) by {
                assert(!inner.covers(r, c));
            }
            assert forall|r: int, c: int| #[trigger]
                self.at(r, c) == (if i * h <= r < (i + 1) * h && j * h <= c < (j + 1) * h {
                    src.at(r - i * h, c - j * h)
                } else {
                    before.at(r, c)
                }) by {
                if 0 <= r < s && 0 <= c < s {
                    let ar = before.origin().0 + r;
                    let ac = before.origin().1 + c;
                    if i * h <= r < (i + 1) * h && j * h <= c < (j + 1) * h {
                        assert(filled.at(r - i * h, c - j * h) == src.at(r - i * h, c - j * h));
                        assert(filled.origin().0 + (r - i * h) == ar);
                        assert(filled.origin().1 + (c - j * h) == ac);
                    } else {
                        assert(!inner.covers(ar, ac));
                        assert(cell(filled.store(), ar, ac) == cell(inner.store(), ar, ac));
                    }
                }
            }
        }
    }

    /// An independent copy of this window as a root view.
    fn copy(&self) -> (out: MatrixView)
        requires
            self.wf(),
        ensures
            out.wf(),
            out.exponent() == self.exponent(),
            out.coordinate() == (0int, 0int),
            forall|r: int, c: int| #[trigger] out.at(r, c) == self.at(r, c),
    {
        let out = self.scaled(1);
        proof {
            assert forall|r: int, c: int| #[trigger] out.at(r, c) == self.at(r, c) by {
                lemma_wrap_id(self.at(r, c));
            }
        }
        out
    }

    /// The product of two windows by the direct method, as a new root
    /// view.
    fn multiplication_schoolbook(m: &MatrixView, n: &MatrixView) -> (out: MatrixView)
        requires
            m.wf(),
            n.wf(),
            m.exponent() == n.exponent(),
        ensures
            out.wf(),
            out.exponent() == m.exponent(),
            out.coordinate() == (0int, 0int),
            forall|i: int, j: int|
                0 <= i < m.side() && 0 <= j < m.side() ==> #[trigger] out.at(i, j)
                    == m.product_at(*n, i, j),
    {
        let mut out = m.copy();
        let ghost start = out;
        MatrixView::multiplication_schoolbook_inplace(&mut out, n);
        proof {
            assert forall|i: int, j: int|
                0 <= i < m.side() && 0 <= j < m.side() implies #[trigger] out.at(i, j)
                == m.product_at(*n, i, j) by {
                lemma_dot_pointwise(start, *n, i, j, *m, *n, i, j, m.side() as nat);
            }
        }
        out
    }

    /// A quadrant of a window that can be split.
    fn quadrant(&self, i: usize, j: usize) -> (b: MatrixView)
        requires
            self.wf(),
            self.exponent() >= 1,
            i <= 1,
            j <= 1,
        ensures
            b.wf(),
            b.exponent() + 1 == self.exponent(),
            is_quadrant(b, *self, i * b.side(), j * b.side(), b.side()),
    {
        let b = self.block(i, j);
        proof {
            reveal(is_quadrant);
        }
        b
    }

    /// The sum of two windows, for the recursive scheme.
    fn plus(&self, rhs: &MatrixView) -> (out: MatrixView)
        requires
            self.wf(),
            rhs.wf(),
            self.exponent() == rhs.exponent(),
        ensures
            out.wf(),
            out.exponent() == self.exponent(),
            is_sum(out, *self, *rhs, 1),
    {
        let out = self.add(rhs);
        proof {
            reveal(is_sum);
        }
        out
    }

    /// The difference of two windows, for the recursive scheme.
    fn minus(&self, rhs: &MatrixView) -> (out: MatrixView)
        requires
            self.wf(),
            rhs.wf(),
            self.exponent() == rhs.exponent(),
        ensures
            out.wf(),
            out.exponent() == self.exponent(),
            is_sum(out, *self, *rhs, -1),
    {
        let out = self.sub(rhs);
        proof {
            reveal(is_sum);
        }
        out
    }

    /// The product of two windows, for the recursive scheme.
    fn times(&self, rhs: &MatrixView) -> (out: MatrixView)
        requires
            self.wf(),
            rhs.wf(),
            self.exponent() == rhs.exponent(),
        ensures
            out.wf(),
            out.exponent() == self.exponent(),
            is_product(out, *self, *rhs, self.side() as nat),
        decreases self.exponent(), 3nat,
    {
        let out = self.mul(rhs);
        proof {
            reveal(is_product);
        }
        out
    }

    /// The four quadrants of the product of two windows, computed by
    /// the Winograd form of Strassen's scheme: eight sums of operand
    /// quadrants, seven products of half the size, seven sums of
    /// products. Every intermediate result has a store of its own.
    fn winograd_quadrants(m: &MatrixView, n: &MatrixView) -> (q: (
        MatrixView,
        MatrixView,
        MatrixView,
        MatrixView,
    ))
        requires
            m.wf(),
            n.wf(),
            m.exponent() == n.exponent(),
            m.exponent() >= 1,
        ensures
            q.0.wf() && q.1.wf() && q.2.wf() && q.3.wf(),
            q.0.exponent() + 1 == m.exponent(),
            q.1.exponent() + 1 == m.exponent(),
            q.2.exponent() + 1 == m.exponent(),
            q.3.exponent() + 1 == m.exponent(),
            is_product_quadrant(q.0, *m, *n, 0, 0, q.0.side() as nat),
            is_product_quadrant(q.1, *m, *n, 0, q.0.side(), q.0.side() as nat),
            is_product_quadrant(q.2, *m, *n, q.0.side(), 0, q.0.side() as nat),
            is_product_quadrant(q.3, *m, *n, q.0.side(), q.0.side(), q.0.side() as nat),
        decreases m.exponent(), 0nat,
    {
        let a11 = m.quadrant(0, 0);
        let a12 = m.quadrant(0, 1);
        let a21 = m.quadrant(1, 0);
        let a22 = m.quadrant(1, 1);
        let b11 = n.quadrant(0, 0);
        let b12 = n.quadrant(0, 1);
        let b21 = n.quadrant(1, 0);
        let b22 = n.quadrant(1, 1);

        let s1 = a21.plus(&a22);
        let s2 = s1.minus(&a11);
        let s3 = a11.minus(&a21);
        let s4 = a12.minus(&s2);
        let t1 = b12.minus(&b11);
        let t2 = b22.minus(&t1);
        let t3 = b22.minus(&b12);
        let t4 = t2.minus(&b21);

        let v1 = a11.times(&b11);
        let v2 = a12.times(&b21);
        let v3 = s4.times(&b22);
        let v4 = a22.times(&t4);
        let v5 = s1.times(&t1);
        let v6 = s2.times(&t2);
        let v7 = s3.times(&t3);

        let u1 = v1.plus(&v2);
        let u2 = v1.plus(&v6);
        let u3 = u2.plus(&v7);
        let u4 = u2.plus(&v5);
        let u5 = u4.plus(&v3);
        let u6 = u3.minus(&v4);
        let u7 = u3.plus(&v5);

        proof {
            lemma_winograd_block(
                *m,
                *n,
                (a11, a12, a21, a22),
                (b11, b12, b21, b22),
                (s1, s2, s3, s4),
                (t1, t2, t3, t4),
                (v1, v2, v3, v4, v5, v6, v7),
                (u1, u2, u3, u4, u5, u6, u7),
                a11.side() as nat,
            );
        }
        (u1, u5, u6, u7)
    }

    /// The product of two windows by the recursive scheme, as a new root
    /// view. The four quadrants of the result are computed without
    /// sharing storage and then written into the result's store, each
    /// through a window on its own quadrant. A block of exponent 0
    /// cannot be split and is multiplied directly.
    pub fn multiplication_strassen_winograd(m: &MatrixView, n: &MatrixView) -> (out: MatrixView)
        requires
            m.wf(),
            n.wf(),
            m.exponent() == n.exponent(),
        ensures
            out.wf(),
            out.exponent() == m.exponent(),
            out.coordinate() == (0int, 0int),
            forall|i: int, j: int|
                0 <= i < m.side() && 0 <= j < m.side() ==> #[trigger] out.at(i, j)
                    == m.product_at(*n, i, j),
        decreases m.exponent(), 1nat,
    {
        if m.block_exponent == 0 {
            return MatrixView::multiplication_schoolbook(m, n);
        }
        let q = MatrixView::winograd_quadrants(m, n);
        let mut out = MatrixView::new(Vec::new(), m.block_exponent);
        proof {
            lemma_pow2_unfold(m.exponent());
            reveal(is_product_quadrant);
        }
        out.place(0, 0, &q.0);
        out.place(0, 1, &q.1);
        out.place(1, 0, &q.2);
        out.place(1, 1, &q.3);
        out
    }

    /// The product of two windows as a new root view: recursive from the
    /// threshold exponent on, direct below it.
    pub fn mul(&self, rhs: &MatrixView) -> (out: MatrixView)
        requires
            self.wf(),
            rhs.wf(),
            self.exponent() == rhs.exponent(),
        ensures
            out.wf(),
            out.exponent() == self.exponent(),
            out.coordinate() == (0int, 0int),
            forall|i: int, j: int|
                0 <= i < self.side() && 0 <= j < self.side() ==> #[trigger] out.at(i, j)
                    == self.product_at(*rhs, i, j),
        decreases self.exponent(), 2nat,
    {
        if self.block_exponent >= SW_THRESHOLD_EXPONENT {
            MatrixView::multiplication_strassen_winograd(self, rhs)
        } else {
            MatrixView::multiplication_schoolbook(self, rhs)
        }
    }

    /// Replaces this window by its product with `rhs`.
    pub fn mul_assign(&mut self, rhs: &MatrixView)
        requires
            old(self).wf(),
            rhs.wf(),
            old(self).exponent() == rhs.exponent(),
        ensures
            final(self).wf(),
            final(self).same_outside(*old(self)),
            forall|i: int, j: int|
                0 <= i < old(self).side() && 0 <= j < old(self).side() ==> #[trigger] final(
                    self
                ).at(i, j) == old(self).product_at(*rhs, i, j),
    {
        if self.block_exponent >= SW_THRESHOLD_EXPONENT {
            let product = MatrixView::multiplication_strassen_winograd(self, rhs);
            self.set(&product);
        } else {
            MatrixView::multiplication_schoolbook_inplace(self, rhs);
        }
    }
}

} // verus!

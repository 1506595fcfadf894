//! At most one side joins its borders. A chain of cells from the top row
//! to the bottom row parts the cells beside it into those on its left and
//! those on its right: a cell lies on the right when the chain steps an
//! odd number of times, left of the cell, between the cell's row and the
//! row below. Cells that touch each other lie on the same side, the
//! leftmost column lies on the left and the rightmost on the right, so no
//! chain beside the first one leads from the leftmost column to the
//! rightmost.

use vstd::prelude::*;
use crate::topology::hex_step;

verus! {

/// The cells of `pt`, given by column and row, lie on a board of `w` columns
/// and `h` rows, each touches the next, the first lies in the top row and
/// the last in the bottom row.
pub open spec fn is_chain(pt: Seq<(int, int)>, w: int, h: int) -> bool {
    &&& pt.len() >= 1
    &&& forall|j: int|
        0 <= j < pt.len() ==> 0 <= (#[trigger] pt[j]).0 < w && 0 <= pt[j].1 < h
    &&& forall|j: int|
        0 <= j < pt.len() - 1 ==> hex_step(pt[j + 1].0 - (#[trigger] pt[j]).0, pt[j + 1].1 - pt[j].1)
    &&& pt[0].1 == 0
    &&& pt[pt.len() - 1].1 == h - 1
}

/// No cell of `pt` lies in column `x` of row `y`.
pub open spec fn beside(pt: Seq<(int, int)>, x: int, y: int) -> bool {
    forall|j: int| 0 <= j < pt.len() ==> #[trigger] pt[j] != (x, y)
}

/// The step from `a` to `b` passes between row `y` and the row below it,
/// and its cell in row `y` lies left of column `x`.
pub open spec fn low_step(a: (int, int), b: (int, int), y: int, x: int) -> bool {
    (a.1 == y && b.1 == y + 1 && a.0 < x) || (b.1 == y && a.1 == y + 1 && b.0 < x)
}

/// The step from `a` to `b` passes between row `y` and the row above it,
/// and its cell in row `y` lies left of column `x`.
pub open spec fn up_step(a: (int, int), b: (int, int), y: int, x: int) -> bool {
    (a.1 == y && b.1 == y - 1 && a.0 < x) || (b.1 == y && a.1 == y - 1 && b.0 < x)
}

/// Whether an odd number of the first `i` steps of `pt` are low steps for
/// row `y` and column `x`.
pub open spec fn low_cross(pt: Seq<(int, int)>, y: int, x: int, i: int) -> bool
    decreases i,
{
    if i <= 0 {
        false
    } else {
        low_cross(pt, y, x, i - 1) != low_step(pt[i - 1], pt[i], y, x)
    }
}

/// Whether an odd number of the first `i` steps of `pt` are up steps for
/// row `y` and column `x`.
pub open spec fn up_cross(pt: Seq<(int, int)>, y: int, x: int, i: int) -> bool
    decreases i,
{
    if i <= 0 {
        false
    } else {
        up_cross(pt, y, x, i - 1) != up_step(pt[i - 1], pt[i], y, x)
    }
}

/// Whether the chain leaves row `y` downwards, left of column `x`, an odd
/// number of times; its end in the bottom row counts as leaving.
pub open spec fn low_total(pt: Seq<(int, int)>, h: int, y: int, x: int) -> bool {
    low_cross(pt, y, x, pt.len() - 1) != (y == h - 1 && pt[pt.len() - 1].0 < x)
}

/// Whether the chain leaves row `y` upwards, left of column `x`, an odd
/// number of times; its start in the top row counts as leaving.
pub open spec fn up_total(pt: Seq<(int, int)>, y: int, x: int) -> bool {
    up_cross(pt, y, x, pt.len() - 1) != (y == 0 && pt[0].0 < x)
}

/// The cell lies in row `y`, left of column `x`.
pub open spec fn in_left(c: (int, int), y: int, x: int) -> bool {
    c.1 == y && c.0 < x
}

/// A chain that does not pass a cell leaves the cell's row, left of the
/// cell, as often upwards as downwards, up to an even number.
proof fn lemma_through_row(pt: Seq<(int, int)>, w: int, h: int, x: int, y: int, i: int)
    requires
        is_chain(pt, w, h),
        beside(pt, x, y),
        0 <= i < pt.len(),
    ensures
        (up_cross(pt, y, x, i) != low_cross(pt, y, x, i)) == (in_left(pt[i], y, x) != in_left(
            pt[0],
            y,
            x,
        )),
    decreases i,
{
    if i > 0 {
        lemma_through_row(pt, w, h, x, y, i - 1);
        let a = pt[i - 1];
        let b = pt[i];
        assert(hex_step(pt[i - 1 + 1].0 - pt[i - 1].0, pt[i - 1 + 1].1 - pt[i - 1].1));
        assert(a != (x, y) && b != (x, y));
    }
}

/// A chain that does not pass a cell leaves the cell's row downwards,
/// left of the cell, as often as it leaves it upwards, up to an even
/// number.
proof fn lemma_up_is_low(pt: Seq<(int, int)>, w: int, h: int, x: int, y: int)
    requires
        is_chain(pt, w, h),
        beside(pt, x, y),
    ensures
        up_total(pt, y, x) == low_total(pt, h, y, x),
{
    lemma_through_row(pt, w, h, x, y, pt.len() - 1);
}

/// The count for a column and for the next are the same, where the chain
/// does not pass the cell in the first.
proof fn lemma_same_row_steps(pt: Seq<(int, int)>, w: int, h: int, x: int, y: int, i: int)
    requires
        is_chain(pt, w, h),
        beside(pt, x, y),
        0 <= i < pt.len(),
    ensures
        low_cross(pt, y, x, i) == low_cross(pt, y, x + 1, i),
    decreases i,
{
    if i > 0 {
        lemma_same_row_steps(pt, w, h, x, y, i - 1);
        let a = pt[i - 1];
        let b = pt[i];
        assert(a != (x, y) && b != (x, y));
    }
}

/// Two cells side by side in a row lie on the same side of a chain that
/// does not pass the left one.
proof fn lemma_same_row(pt: Seq<(int, int)>, w: int, h: int, x: int, y: int)
    requires
        is_chain(pt, w, h),
        beside(pt, x, y),
    ensures
        low_total(pt, h, y, x) == low_total(pt, h, y, x + 1),
{
    lemma_same_row_steps(pt, w, h, x, y, pt.len() - 1);
    assert(pt[pt.len() - 1] != (x, y));
}

/// The steps between two rows, counted from the cell above and from a
/// cell below that touches it, are the same, where the chain passes
/// neither cell.
proof fn lemma_next_row_steps(
    pt: Seq<(int, int)>,
    w: int,
    h: int,
    x: int,
    y: int,
    xb: int,
    i: int,
)
    requires
        is_chain(pt, w, h),
        beside(pt, x, y),
        beside(pt, xb, y + 1),
        xb == x || xb == x - 1,
        0 <= i < pt.len(),
    ensures
        low_cross(pt, y, x, i) == up_cross(pt, y + 1, xb, i),
    decreases i,
{
    if i > 0 {
        lemma_next_row_steps(pt, w, h, x, y, xb, i - 1);
        let a = pt[i - 1];
        let b = pt[i];
        assert(hex_step(pt[i - 1 + 1].0 - pt[i - 1].0, pt[i - 1 + 1].1 - pt[i - 1].1));
        assert(a != (x, y) && b != (x, y));
        assert(a != (xb, y + 1) && b != (xb, y + 1));
    }
}

/// A cell and the cell below it, or below it to the left, lie on the same
/// side of a chain that passes neither.
proof fn lemma_next_row(pt: Seq<(int, int)>, w: int, h: int, x: int, y: int, xb: int)
    requires
        is_chain(pt, w, h),
        beside(pt, x, y),
        beside(pt, xb, y + 1),
        xb == x || xb == x - 1,
        0 <= y,
        y + 1 < h,
    ensures
        low_total(pt, h, y, x) == low_total(pt, h, y + 1, xb),
{
    lemma_next_row_steps(pt, w, h, x, y, xb, pt.len() - 1);
    lemma_up_is_low(pt, w, h, xb, y + 1);
}

/// Two cells that touch each other lie on the same side of a chain that
/// passes neither.
pub proof fn lemma_same_side(
    pt: Seq<(int, int)>,
    w: int,
    h: int,
    x1: int,
    y1: int,
    x2: int,
    y2: int,
)
    requires
        is_chain(pt, w, h),
        beside(pt, x1, y1),
        beside(pt, x2, y2),
        0 <= y1 < h,
        0 <= y2 < h,
        hex_step(x2 - x1, y2 - y1),
    ensures
        low_total(pt, h, y1, x1) == low_total(pt, h, y2, x2),
{
    if y2 == y1 {
        if x2 == x1 + 1 {
            lemma_same_row(pt, w, h, x1, y1);
        } else {
            lemma_same_row(pt, w, h, x2, y2);
        }
    } else if y2 == y1 + 1 {
        lemma_next_row(pt, w, h, x1, y1, x2);
    } else {
        lemma_next_row(pt, w, h, x2, y2, x1);
    }
}

/// Left of the leftmost column the chain takes no step.
proof fn lemma_left_steps(pt: Seq<(int, int)>, w: int, h: int, y: int, i: int)
    requires
        is_chain(pt, w, h),
        0 <= i < pt.len(),
    ensures
        !low_cross(pt, y, 0, i),
    decreases i,
{
    if i > 0 {
        lemma_left_steps(pt, w, h, y, i - 1);
        let _ = pt[i - 1];
        let _ = pt[i];
    }
}

/// The leftmost column lies on the left of the chain.
pub proof fn lemma_left_side(pt: Seq<(int, int)>, w: int, h: int, y: int)
    requires
        is_chain(pt, w, h),
    ensures
        !low_total(pt, h, y, 0),
{
    lemma_left_steps(pt, w, h, y, pt.len() - 1);
    let _ = pt[pt.len() - 1];
}

/// The chain has gone below row `y` after an odd number of steps between
/// that row and the next.
proof fn lemma_right_steps(pt: Seq<(int, int)>, w: int, h: int, y: int, i: int)
    requires
        is_chain(pt, w, h),
        0 <= y,
        0 <= i < pt.len(),
    ensures
        low_cross(pt, y, w, i) == (pt[i].1 > y),
    decreases i,
{
    if i > 0 {
        lemma_right_steps(pt, w, h, y, i - 1);
        let a = pt[i - 1];
        let b = pt[i];
        assert(hex_step(pt[i - 1 + 1].0 - pt[i - 1].0, pt[i - 1 + 1].1 - pt[i - 1].1));
    } else {
        let _ = pt[0];
    }
}

/// What lies right of the rightmost column lies on the right of the chain.
pub proof fn lemma_right_side(pt: Seq<(int, int)>, w: int, h: int, y: int)
    requires
        is_chain(pt, w, h),
        0 <= y < h,
    ensures
        low_total(pt, h, y, w),
{
    lemma_right_steps(pt, w, h, y, pt.len() - 1);
    let _ = pt[pt.len() - 1];
}

/// No chain of cells, each touching the next, leads from the leftmost
/// column to the rightmost beside a chain from the top row to the bottom
/// row.
pub proof fn lemma_chains_meet(pt: Seq<(int, int)>, qt: Seq<(int, int)>, w: int, h: int)
    requires
        is_chain(pt, w, h),
        qt.len() >= 1,
        forall|j: int|
            0 <= j < qt.len() ==> 0 <= (#[trigger] qt[j]).0 < w && 0 <= qt[j].1 < h && beside(
                pt,
                qt[j].0,
                qt[j].1,
            ),
        forall|j: int|
            0 <= j < qt.len() - 1 ==> hex_step(
                qt[j + 1].0 - (#[trigger] qt[j]).0,
                qt[j + 1].1 - qt[j].1,
            ),
        qt[0].0 == 0,
    ensures
        qt[qt.len() - 1].0 != w - 1,
{
    lemma_stays_left(pt, qt, w, h, qt.len() - 1);
    let last = qt[qt.len() - 1];
    if last.0 == w - 1 {
        lemma_same_row(pt, w, h, last.0, last.1);
        lemma_right_side(pt, w, h, last.1);
    }
}

/// Every cell of a chain that starts in the leftmost column, beside the
/// chain `pt`, lies on the left of `pt`.
proof fn lemma_stays_left(pt: Seq<(int, int)>, qt: Seq<(int, int)>, w: int, h: int, i: int)
    requires
        is_chain(pt, w, h),
        qt.len() >= 1,
        forall|j: int|
            0 <= j < qt.len() ==> 0 <= (#[trigger] qt[j]).0 < w && 0 <= qt[j].1 < h && beside(
                pt,
                qt[j].0,
                qt[j].1,
            ),
        forall|j: int|
            0 <= j < qt.len() - 1 ==> hex_step(
                qt[j + 1].0 - (#[trigger] qt[j]).0,
                qt[j + 1].1 - qt[j].1,
            ),
        qt[0].0 == 0,
        0 <= i < qt.len(),
    ensures
        !low_total(pt, h, qt[i].1, qt[i].0),
    decreases i,
{
    if i == 0 {
        lemma_left_side(pt, w, h, qt[0].1);
    } else {
        lemma_stays_left(pt, qt, w, h, i - 1);
        let a = qt[i - 1];
        let b = qt[i];
        assert(hex_step(qt[i - 1 + 1].0 - qt[i - 1].0, qt[i - 1 + 1].1 - qt[i - 1].1));
        lemma_same_side(pt, w, h, a.0, a.1, b.0, b.1);
    }
}

} // verus!

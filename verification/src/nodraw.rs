//! A filled board has one winner. That at most one side joins its borders
//! is shown by the side of a chain. That one side does is shown by labels:
//! each cell, and each cell of a frame laid round the board, gets one of
//! three labels: a black stone that is linked to the top, a white stone
//! that is linked to the left, or neither. Where neither side has joined
//! its borders, no three cells that touch each other carry all three
//! labels; yet row by row, down from the frame's top to its bottom, the
//! labels along the frame force such a triple.

use vstd::prelude::*;
use crate::connect::is_walk;
use crate::connect::lemma_linked_end;
use crate::connect::lemma_linked_self;
use crate::connect::lemma_linked_step;
use crate::connect::lemma_linked_sym;
use crate::groups::stones;
use crate::hex::CellState;
use crate::hex::HexBoard;
use crate::hex::HexPlayerColor;
use crate::exclusive::beside;
use crate::exclusive::is_chain;
use crate::exclusive::lemma_chains_meet;
use crate::topology::cell_index;
use crate::topology::col_of;
use crate::topology::lemma_coords_index;
use crate::topology::row_of;
use crate::topology::hex_step;
use crate::topology::lemma_index_coords;

verus! {

/// The labels `a` and `b` are the first and the second, in either order.
pub open spec fn split(a: int, b: int) -> bool {
    (a == 1 && b == 2) || (a == 2 && b == 1)
}

/// The labels `a`, `b` and `c` are the three labels, in some order.
pub open spec fn all_three(a: int, b: int, c: int) -> bool {
    (a == 1 || b == 1 || c == 1) && (a == 2 || b == 2 || c == 2) && (a == 3 || b == 3 || c == 3)
}

/// Whether the number of neighbours with split labels, among the first `n`
/// pairs of neighbours in row `y` of the frame, is odd. The row starts at
/// column -1.
pub open spec fn row_parity(l: spec_fn(int, int) -> int, y: int, n: int) -> bool
    decreases n,
{
    if n <= 0 {
        false
    } else {
        row_parity(l, y, n - 1) != split(l(n - 2, y), l(n - 1, y))
    }
}

/// The labelling has the frame of a board on which neither side has joined
/// its borders: the first label along the top, the second down the left,
/// the third along the bottom and down the right. And no three cells that
/// touch each other carry all three labels.
pub open spec fn framed(l: spec_fn(int, int) -> int, w: int, h: int) -> bool {
    &&& forall|x: int, y: int| #[trigger] l(x, y) == 1 || l(x, y) == 2 || l(x, y) == 3
    &&& forall|x: int| -1 <= x <= w ==> #[trigger] l(x, -1) == 1
    &&& forall|y: int| 0 <= y <= h ==> #[trigger] l(-1, y) == 2
    &&& forall|y: int| 0 <= y <= h ==> #[trigger] l(w, y) == 3
    &&& forall|x: int| 0 <= x <= w ==> #[trigger] l(x, h) == 3
    &&& forall|x: int, y: int|
        -1 <= x < w && -1 <= y < h ==> !all_three(#[trigger] l(x, y), l(x, y + 1), l(x + 1, y))
            && !all_three(l(x, y + 1), l(x + 1, y), l(x + 1, y + 1))
}

/// Between two rows of the frame, the split pairs of the upper row and of
/// the lower row, taken together, are as many, up to an even number, as
/// the two ends of the strip between the rows have split pairs.
proof fn lemma_strip(l: spec_fn(int, int) -> int, w: int, h: int, y: int, n: int)
    requires
        framed(l, w, h),
        -1 <= y < h,
        0 <= n <= w + 1,
    ensures
        (row_parity(l, y, n) != row_parity(l, y + 1, n)) == (split(l(-1, y), l(-1, y + 1)) != split(
            l(n - 1, y),
            l(n - 1, y + 1),
        )),
    decreases n,
{
    if n > 0 {
        lemma_strip(l, w, h, y, n - 1);
        let x = n - 2;
        let a = l(x, y);
        let b = l(x, y + 1);
        let c = l(x + 1, y);
        let d = l(x + 1, y + 1);
        assert(!all_three(a, b, c) && !all_three(b, c, d));
        assert(row_parity(l, y, n) == (row_parity(l, y, n - 1) != split(a, c)));
        assert(row_parity(l, y + 1, n) == (row_parity(l, y + 1, n - 1) != split(b, d)));
    }
}

/// A row whose cells all carry one label, but for the first, has no split
/// pair.
proof fn lemma_plain_row(l: spec_fn(int, int) -> int, y: int, n: int, first: int, rest: int)
    requires
        0 <= n,
        l(-1, y) == first,
        forall|x: int| 0 <= x < n ==> #[trigger] l(x, y) == rest,
        !split(first, rest),
        !split(rest, rest),
    ensures
        !row_parity(l, y, n),
    decreases n,
{
    if n > 0 {
        lemma_plain_row(l, y, n - 1, first, rest);
        assert(l(n - 1, y) == rest);
        if n > 1 {
            assert(l(n - 2, y) == rest);
        }
    }
}

/// Every row of the board, and the bottom of the frame, has an odd number
/// of split pairs.
proof fn lemma_rows_odd(l: spec_fn(int, int) -> int, w: int, h: int, y: int)
    requires
        framed(l, w, h),
        0 <= w,
        1 <= h,
        0 <= y <= h,
    ensures
        row_parity(l, y, w + 1),
    decreases y,
{
    lemma_strip(l, w, h, y - 1, w + 1);
    if y == 0 {
        lemma_plain_row(l, -1, w + 1, 1, 1);
        assert(l(-1, -1) == 1);
        assert(l(-1, 0) == 2);
        assert(l(w, -1) == 1);
        assert(l(w, 0) == 3);
    } else {
        lemma_rows_odd(l, w, h, y - 1);
        assert(l(-1, y - 1) == 2);
        assert(l(-1, y) == 2);
        assert(l(w, y - 1) == 3);
        assert(l(w, y) == 3);
    }
}

/// No labelling has the frame of a board on which neither side has joined
/// its borders.
pub proof fn lemma_no_framed(l: spec_fn(int, int) -> int, w: int, h: int)
    requires
        0 <= w,
        1 <= h,
    ensures
        !framed(l, w, h),
{
    if framed(l, w, h) {
        lemma_rows_odd(l, w, h, h);
        assert(l(-1, h) == 2);
        lemma_plain_row(l, h, w + 1, 2, 3);
    }
}

impl HexBoard {
    /// The cell in column `x` of row `y` of the frame is dark: it lies on the
    /// top or the bottom of the frame, or holds a black stone. The left and
    /// the right of the frame are light, as is a white stone.
    pub open spec fn dark(&self, s: Seq<CellState>, x: int, y: int) -> bool {
        if y == -1 {
            true
        } else if x == -1 {
            false
        } else if y == self.rows() {
            true
        } else if x == self.cols() {
            false
        } else {
            s[cell_index(self.cols() as int, x, y)].owner() == Some(HexPlayerColor::Black)
        }
    }

    /// The label of the cell in column `x` of row `y` of the frame: 1 on
    /// the top of the frame and for a black stone that is linked to the top
    /// row, 2 on the left of the frame and for a white stone that is linked
    /// to the leftmost column, 3 for any other.
    pub open spec fn label(&self, s: Seq<CellState>, x: int, y: int) -> int {
        let c = cell_index(self.cols() as int, x, y);
        if y == -1 {
            1
        } else if x == -1 {
            2
        } else if y == self.rows() || x == self.cols() {
            3
        } else if s[c].owner() == Some(HexPlayerColor::Black) && self.joins(
            s,
            HexPlayerColor::Black,
            c,
            false,
        ) {
            1
        } else if s[c].owner() == Some(HexPlayerColor::White) && self.joins(
            s,
            HexPlayerColor::White,
            c,
            false,
        ) {
            2
        } else {
            3
        }
    }

    /// The cell in column `x` of row `y` lies in the frame or on the board.
    pub open spec fn in_frame(&self, x: int, y: int) -> bool {
        -1 <= x <= self.cols() && -1 <= y <= self.rows()
    }

    /// A stone on the second border of its side, whose group reaches the
    /// first, joins the two.
    proof fn lemma_joined(&self, s: Seq<CellState>, player: HexPlayerColor, c: int)
        requires
            stones(s, player).contains(c),
            self.joins(s, player, c, false),
            self.on_high_border(player, c),
        ensures
            self.crosses(s, player),
    {
        let w = self.cols() as int;
        let h = self.rows() as int;
        let t = stones(s, player);
        let b = choose|b: int|
            0 <= b < self.cells() && self.on_border(player, b, false) && #[trigger] self.linked(
                c,
                b,
                t,
            );
        if b != c {
            lemma_linked_end(w, h, c, b, t);
        }
        lemma_linked_sym(w, h, c, b, t);
        assert(self.linked(b, c, t));
    }

    /// A stone next to a stone of its side reaches the first border of the
    /// side if that one does.
    proof fn lemma_joins_next(
        &self,
        s: Seq<CellState>,
        player: HexPlayerColor,
        x1: int,
        y1: int,
        x2: int,
        y2: int,
    )
        requires
            self.wf(),
            s.len() == self.cells(),
            0 <= x1 < self.cols(),
            0 <= y1 < self.rows(),
            0 <= x2 < self.cols(),
            0 <= y2 < self.rows(),
            hex_step(x2 - x1, y2 - y1),
            stones(s, player).contains(cell_index(self.cols() as int, x1, y1)),
            stones(s, player).contains(cell_index(self.cols() as int, x2, y2)),
            self.joins(s, player, cell_index(self.cols() as int, x1, y1), false),
        ensures
            self.joins(s, player, cell_index(self.cols() as int, x2, y2), false),
    {
        let w = self.cols() as int;
        let h = self.rows() as int;
        let a = cell_index(w, x1, y1);
        let b = cell_index(w, x2, y2);
        let t = stones(s, player);
        lemma_index_coords(w, h, x1, y1);
        lemma_index_coords(w, h, x2, y2);
        assert(self.adjacent(a, b));
        lemma_linked_self(w, h, a, t);
        lemma_linked_step(w, h, a, a, b, t);
        self.lemma_same_group(s, player, a, b, false);
    }

    /// Where Black has not joined its borders, a dark cell next to a cell
    /// with the first label carries the first label.
    proof fn lemma_dark_spreads(&self, s: Seq<CellState>, x1: int, y1: int, x2: int, y2: int)
        requires
            self.wf(),
            s.len() == self.cells(),
            1 <= self.rows(),
            self.in_frame(x1, y1),
            self.in_frame(x2, y2),
            hex_step(x2 - x1, y2 - y1),
            self.label(s, x1, y1) == 1,
            self.dark(s, x2, y2),
            !self.crosses(s, HexPlayerColor::Black),
        ensures
            self.label(s, x2, y2) == 1,
    {
        let w = self.cols() as int;
        let h = self.rows() as int;
        let black = HexPlayerColor::Black;
        let t = stones(s, black);
        if y2 == -1 {
        } else if y2 == h {
            // the cell above the bottom of the frame would join the borders
            if 0 <= x1 < w && 0 <= y1 < h {
                let a = cell_index(w, x1, y1);
                lemma_index_coords(w, h, x1, y1);
                self.lemma_joined(s, black, a);
            }
        } else {
            let b = cell_index(w, x2, y2);
            lemma_index_coords(w, h, x2, y2);
            if y1 == -1 {
                lemma_linked_self(w, h, b, t);
                assert(self.linked(b, b, t));
                assert(self.on_border(black, b, false));
            } else {
                self.lemma_joins_next(s, black, x1, y1, x2, y2);
            }
        }
    }

    /// Where White has not joined its borders, a light cell next to a cell
    /// with the second label carries the second label.
    proof fn lemma_light_spreads(&self, s: Seq<CellState>, x1: int, y1: int, x2: int, y2: int)
        requires
            self.wf(),
            s.len() == self.cells(),
            1 <= self.cols(),
            1 <= self.rows(),
            forall|c: int| 0 <= c < s.len() ==> s[c] != CellState::Empty,
            self.in_frame(x1, y1),
            self.in_frame(x2, y2),
            hex_step(x2 - x1, y2 - y1),
            self.label(s, x1, y1) == 2,
            !self.dark(s, x2, y2),
            !self.crosses(s, HexPlayerColor::White),
        ensures
            self.label(s, x2, y2) == 2,
    {
        let w = self.cols() as int;
        let h = self.rows() as int;
        let white = HexPlayerColor::White;
        let t = stones(s, white);
        if x2 == -1 {
        } else if x2 == w {
            // the cell left of the right of the frame would join the borders
            if 0 <= x1 < w && 0 <= y1 < h {
                let a = cell_index(w, x1, y1);
                lemma_index_coords(w, h, x1, y1);
                self.lemma_joined(s, white, a);
            }
        } else {
            let b = cell_index(w, x2, y2);
            lemma_index_coords(w, h, x2, y2);
            let _ = s[b];
            if x1 == -1 {
                lemma_linked_self(w, h, b, t);
                assert(self.linked(b, b, t));
                assert(self.on_border(white, b, false));
            } else {
                let a = cell_index(w, x1, y1);
                lemma_index_coords(w, h, x1, y1);
                let _ = s[a];
                self.lemma_joins_next(s, white, x1, y1, x2, y2);
            }
        }
    }

    /// Where neither side has joined its borders, of two cells that touch
    /// each other, the second takes the first's label when its shade fits
    /// the label.
    proof fn lemma_spreads(&self, s: Seq<CellState>, x1: int, y1: int, x2: int, y2: int)
        requires
            self.wf(),
            s.len() == self.cells(),
            1 <= self.cols(),
            1 <= self.rows(),
            forall|c: int| 0 <= c < s.len() ==> s[c] != CellState::Empty,
            self.in_frame(x1, y1),
            self.in_frame(x2, y2),
            hex_step(x2 - x1, y2 - y1),
            !self.crosses(s, HexPlayerColor::Black),
            !self.crosses(s, HexPlayerColor::White),
        ensures
            self.label(s, x1, y1) == 1 && self.dark(s, x2, y2) ==> self.label(s, x2, y2) == 1,
            self.label(s, x1, y1) == 2 && !self.dark(s, x2, y2) ==> self.label(s, x2, y2) == 2,
    {
        if self.label(s, x1, y1) == 1 && self.dark(s, x2, y2) {
            self.lemma_dark_spreads(s, x1, y1, x2, y2);
        }
        if self.label(s, x1, y1) == 2 && !self.dark(s, x2, y2) {
            self.lemma_light_spreads(s, x1, y1, x2, y2);
        }
    }

    /// Where neither side has joined its borders, three cells that touch
    /// each other do not carry all three labels.
    proof fn lemma_triangle(
        &self,
        s: Seq<CellState>,
        x1: int,
        y1: int,
        x2: int,
        y2: int,
        x3: int,
        y3: int,
    )
        requires
            self.wf(),
            s.len() == self.cells(),
            1 <= self.cols(),
            1 <= self.rows(),
            forall|c: int| 0 <= c < s.len() ==> s[c] != CellState::Empty,
            self.in_frame(x1, y1),
            self.in_frame(x2, y2),
            self.in_frame(x3, y3),
            hex_step(x2 - x1, y2 - y1),
            hex_step(x3 - x2, y3 - y2),
            hex_step(x3 - x1, y3 - y1),
            !self.crosses(s, HexPlayerColor::Black),
            !self.crosses(s, HexPlayerColor::White),
        ensures
            !all_three(self.label(s, x1, y1), self.label(s, x2, y2), self.label(s, x3, y3)),
    {
        self.lemma_spreads(s, x1, y1, x2, y2);
        self.lemma_spreads(s, x2, y2, x1, y1);
        self.lemma_spreads(s, x2, y2, x3, y3);
        self.lemma_spreads(s, x3, y3, x2, y2);
        self.lemma_spreads(s, x1, y1, x3, y3);
        self.lemma_spreads(s, x3, y3, x1, y1);
    }

    /// A board without an empty cell has a winner: a walk over black stones
    /// joins the top row to the bottom row, or a walk over white stones
    /// joins the leftmost column to the rightmost.
    pub proof fn lemma_filled_board_is_won(&self, s: Seq<CellState>)
        requires
            self.wf(),
            s.len() == self.cells(),
            1 <= self.cols(),
            1 <= self.rows(),
            forall|c: int| 0 <= c < s.len() ==> s[c] != CellState::Empty,
        ensures
            self.crosses(s, HexPlayerColor::Black) || self.crosses(s, HexPlayerColor::White),
    {
        let w = self.cols() as int;
        let h = self.rows() as int;
        if !self.crosses(s, HexPlayerColor::Black) && !self.crosses(s, HexPlayerColor::White) {
            let l = |x: int, y: int| self.label(s, x, y);
            assert forall|x: int, y: int| -1 <= x < w && -1 <= y < h implies !all_three(
                #[trigger] l(x, y),
                l(x, y + 1),
                l(x + 1, y),
            ) && !all_three(l(x, y + 1), l(x + 1, y), l(x + 1, y + 1)) by {
                self.lemma_triangle(s, x, y, x, y + 1, x + 1, y);
                self.lemma_triangle(s, x + 1, y, x, y + 1, x + 1, y + 1);
            }
            assert(framed(l, w, h));
            lemma_no_framed(l, w, h);
        }
    }

    /// The columns and rows of the cells of a walk.
    pub open spec fn coords(&self, p: Seq<int>) -> Seq<(int, int)> {
        Seq::new(p.len(), |j: int| (col_of(self.cols() as int, p[j]), row_of(self.cols() as int, p[j])))
    }

    /// Black and White have not both joined their borders.
    pub proof fn lemma_not_both_cross(&self, s: Seq<CellState>)
        requires
            self.wf(),
            s.len() == self.cells(),
        ensures
            !(self.crosses(s, HexPlayerColor::Black) && self.crosses(s, HexPlayerColor::White)),
    {
        let w = self.cols() as int;
        let h = self.rows() as int;
        let black = stones(s, HexPlayerColor::Black);
        let white = stones(s, HexPlayerColor::White);
        if self.crosses(s, HexPlayerColor::Black) && self.crosses(s, HexPlayerColor::White) {
            let (a, b) = choose|a: int, b: int|
                black.contains(a) && black.contains(b) && self.on_low_border(
                    HexPlayerColor::Black,
                    a,
                ) && self.on_high_border(HexPlayerColor::Black, b) && #[trigger] self.linked(
                    a,
                    b,
                    black,
                );
            let (c, d) = choose|c: int, d: int|
                white.contains(c) && white.contains(d) && self.on_low_border(
                    HexPlayerColor::White,
                    c,
                ) && self.on_high_border(HexPlayerColor::White, d) && #[trigger] self.linked(
                    c,
                    d,
                    white,
                );
            let p = choose|p: Seq<int>| is_walk(w, h, p, a, b, black);
            let q = choose|q: Seq<int>| is_walk(w, h, q, c, d, white);
            let pt = self.coords(p);
            let qt = self.coords(q);
            assert forall|j: int| 0 <= j < p.len() implies black.contains(#[trigger] p[j]) by {
                if j > 0 {
                    assert(black.contains(p[j]));
                }
            }
            assert forall|j: int| 0 <= j < q.len() implies white.contains(#[trigger] q[j]) by {
                if j > 0 {
                    assert(white.contains(q[j]));
                }
            }
            assert forall|j: int| 0 <= j < pt.len() implies 0 <= (#[trigger] pt[j]).0 < w && 0
                <= pt[j].1 < h by {
                assert(black.contains(p[j]));
                lemma_coords_index(w, h, p[j]);
            }
            assert forall|j: int| 0 <= j < pt.len() - 1 implies hex_step(
                pt[j + 1].0 - (#[trigger] pt[j]).0,
                pt[j + 1].1 - pt[j].1,
            ) by {
                assert(crate::topology::adjacent(w, h, p[j], p[j + 1]));
            }
            assert(is_chain(pt, w, h));
            assert forall|j: int| 0 <= j < qt.len() implies 0 <= (#[trigger] qt[j]).0 < w && 0
                <= qt[j].1 < h && beside(pt, qt[j].0, qt[j].1) by {
                assert(white.contains(q[j]));
                lemma_coords_index(w, h, q[j]);
                assert forall|k: int| 0 <= k < pt.len() implies #[trigger] pt[k] != (
                    qt[j].0,
                    qt[j].1,
                ) by {
                    assert(black.contains(p[k]));
                    lemma_coords_index(w, h, p[k]);
                    if pt[k] == (qt[j].0, qt[j].1) {
                        assert(p[k] == q[j]);
                    }
                }
            }
            assert forall|j: int| 0 <= j < qt.len() - 1 implies hex_step(
                qt[j + 1].0 - (#[trigger] qt[j]).0,
                qt[j + 1].1 - qt[j].1,
            ) by {
                assert(crate::topology::adjacent(w, h, q[j], q[j + 1]));
            }
            lemma_chains_meet(pt, qt, w, h);
        }
    }

    /// A board without an empty cell has one winner: either a walk over
    /// black stones joins the top row to the bottom row, or a walk over
    /// white stones joins the leftmost column to the rightmost, and not
    /// both.
    pub proof fn lemma_one_winner(&self, s: Seq<CellState>)
        requires
            self.wf(),
            s.len() == self.cells(),
            1 <= self.cols(),
            1 <= self.rows(),
            forall|c: int| 0 <= c < s.len() ==> s[c] != CellState::Empty,
        ensures
            self.crosses(s, HexPlayerColor::Black) != self.crosses(s, HexPlayerColor::White),
    {
        self.lemma_filled_board_is_won(s);
        self.lemma_not_both_cross(s);
    }

    /// The winner that the winner check finds has joined its borders, and
    /// the other side has not.
    pub proof fn lemma_winner_crosses(&self, s: Seq<CellState>)
        requires
            self.wf(),
            s.len() == self.cells(),
            1 <= self.cols(),
            1 <= self.rows(),
            self.check_ready(s),
        ensures
            self.crosses(s, self.winner_of(s)),
            !self.crosses(s, self.winner_of(s).opponent()),
    {
        self.lemma_winner_iff_crosses(s);
        self.lemma_one_winner(s);
    }
}

} // verus!

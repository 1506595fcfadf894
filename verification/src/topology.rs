//! The geometry of a Hex board: cells in row-major order and the six-way
//! adjacency of a rhombic grid of hexagons.

use vstd::prelude::*;
use vstd::arithmetic::div_mod::lemma_fundamental_div_mod;
use vstd::arithmetic::div_mod::lemma_fundamental_div_mod_converse;
use vstd::arithmetic::div_mod::lemma_mod_pos_bound;
use vstd::arithmetic::div_mod::lemma_div_pos_is_pos;

verus! {

/// Row-major index of the cell in column `x` of row `y`.
pub open spec fn cell_index(width: int, x: int, y: int) -> int {
    y * width + x
}

/// Column of a cell.
pub open spec fn col_of(width: int, cell: int) -> int {
    cell % width
}

/// Row of a cell.
pub open spec fn row_of(width: int, cell: int) -> int {
    cell / width
}

/// `cell` is one of the `width * height` cells of the board.
pub open spec fn on_board(width: int, height: int, cell: int) -> bool {
    0 <= cell < width * height
}

/// The six coordinate offsets that lead from a hexagon to its neighbours:
/// left, up, right, down, down-left and up-right.
pub open spec fn hex_step(dx: int, dy: int) -> bool {
    ||| (dx == -1 && dy == 0)
    ||| (dx == 0 && dy == -1)
    ||| (dx == 1 && dy == 0)
    ||| (dx == 0 && dy == 1)
    ||| (dx == -1 && dy == 1)
    ||| (dx == 1 && dy == -1)
}

/// Two cells of the board share an edge.
pub open spec fn adjacent(width: int, height: int, a: int, b: int) -> bool {
    &&& on_board(width, height, a)
    &&& on_board(width, height, b)
    &&& hex_step(col_of(width, b) - col_of(width, a), row_of(width, b) - row_of(width, a))
}

/// The neighbours of cell `a` in the order in which the board lists them:
/// left, up, right, down, down-left, up-right, each only if it lies on the
/// board.
pub open spec fn neighbor_cells(width: int, height: int, a: int) -> Seq<int> {
    let x = col_of(width, a);
    let y = row_of(width, a);
    let s0 = Seq::<int>::empty();
    let s1 = if x > 0 { s0.push(a - 1) } else { s0 };
    let s2 = if y > 0 { s1.push(a - width) } else { s1 };
    let s3 = if x < width - 1 { s2.push(a + 1) } else { s2 };
    let s4 = if y < height - 1 { s3.push(a + width) } else { s3 };
    let s5 = if x > 0 && y < height - 1 { s4.push(a + width - 1) } else { s4 };
    let s6 = if y > 0 && x < width - 1 { s5.push(a - width + 1) } else { s5 };
    s6
}

/// `cell` lies in the top row.
pub open spec fn in_first_row(width: int, cell: int) -> bool {
    row_of(width, cell) == 0
}

/// `cell` lies in the bottom row.
pub open spec fn in_last_row(width: int, height: int, cell: int) -> bool {
    row_of(width, cell) == height - 1
}

/// `cell` lies in the leftmost column.
pub open spec fn in_first_col(width: int, cell: int) -> bool {
    col_of(width, cell) == 0
}

/// `cell` lies in the rightmost column.
pub open spec fn in_last_col(width: int, cell: int) -> bool {
    col_of(width, cell) == width - 1
}

/// A board with a cell has at least one column and one row.
pub proof fn lemma_board_dims(width: int, height: int, cell: int)
    requires
        0 <= width,
        0 <= height,
        on_board(width, height, cell),
    ensures
        0 < width,
        0 < height,
{
    assert(width * height > 0 ==> width != 0 && height != 0) by (nonlinear_arith);
}

/// The index of an in-range coordinate pair is a cell of the board, and the
/// pair is recovered from it.
pub proof fn lemma_index_coords(width: int, height: int, x: int, y: int)
    requires
        0 <= x < width,
        0 <= y < height,
    ensures
        on_board(width, height, cell_index(width, x, y)),
        col_of(width, cell_index(width, x, y)) == x,
        row_of(width, cell_index(width, x, y)) == y,
{
    let i = cell_index(width, x, y);
    assert(0 <= y * width && y * width + width <= width * height) by (nonlinear_arith)
        requires
            0 <= y < height,
            0 < width,
    ;
    lemma_fundamental_div_mod_converse(i, width, y, x);
}

/// Every cell of the board has in-range coordinates, and is the index of
/// those coordinates.
pub proof fn lemma_coords_index(width: int, height: int, cell: int)
    requires
        0 <= width,
        0 <= height,
        on_board(width, height, cell),
    ensures
        0 <= col_of(width, cell) < width,
        0 <= row_of(width, cell) < height,
        cell_index(width, col_of(width, cell), row_of(width, cell)) == cell,
{
    lemma_board_dims(width, height, cell);
    lemma_fundamental_div_mod(cell, width);
    lemma_mod_pos_bound(cell, width);
    lemma_div_pos_is_pos(cell, width);
    let q = cell / width;
    let r = cell % width;
    assert(width * q == q * width) by (nonlinear_arith);
    assert(q < height) by (nonlinear_arith)
        requires
            q * width + r < width * height,
            0 <= r,
            0 < width,
            0 <= q,
    ;
}

/// The cells of the top row are the first `width` indices, those of the
/// bottom row the last `width`.
pub proof fn lemma_border_rows(width: int, height: int, cell: int)
    requires
        0 <= width,
        0 <= height,
        on_board(width, height, cell),
    ensures
        in_first_row(width, cell) <==> cell < width,
        in_last_row(width, height, cell) <==> cell >= width * height - width,
{
    lemma_coords_index(width, height, cell);
    let q = row_of(width, cell);
    let r = col_of(width, cell);
    assert(q >= 1 ==> q * width >= width) by (nonlinear_arith)
        requires
            0 < width,
    ;
    assert(q == 0 ==> q * width == 0) by (nonlinear_arith);
    assert(q == height - 1 ==> q * width == width * height - width) by (nonlinear_arith);
    assert(q <= height - 2 ==> q * width + width <= width * height - width) by (nonlinear_arith)
        requires
            0 < width,
    ;
}

/// Index bijection: two in-range coordinate pairs with the same index are
/// the same pair.
pub proof fn lemma_index_injective(width: int, height: int, x1: int, y1: int, x2: int, y2: int)
    requires
        0 <= x1 < width,
        0 <= y1 < height,
        0 <= x2 < width,
        0 <= y2 < height,
        cell_index(width, x1, y1) == cell_index(width, x2, y2),
    ensures
        x1 == x2,
        y1 == y2,
{
    lemma_index_coords(width, height, x1, y1);
    lemma_index_coords(width, height, x2, y2);
}

/// Adjacency is symmetric.
pub proof fn lemma_adjacent_symmetric(width: int, height: int, a: int, b: int)
    ensures
        adjacent(width, height, a, b) == adjacent(width, height, b, a),
{
}

/// The cell reached from `a` by the offset `(dx, dy)`, where that lies on
/// the board, is `a + dy * width + dx`, and has the shifted coordinates.
proof fn lemma_shift(width: int, height: int, a: int, dx: int, dy: int)
    requires
        0 <= width,
        0 <= height,
        on_board(width, height, a),
        0 <= col_of(width, a) + dx < width,
        0 <= row_of(width, a) + dy < height,
    ensures
        on_board(width, height, a + dy * width + dx),
        col_of(width, a + dy * width + dx) == col_of(width, a) + dx,
        row_of(width, a + dy * width + dx) == row_of(width, a) + dy,
{
    lemma_coords_index(width, height, a);
    let x = col_of(width, a);
    let y = row_of(width, a);
    lemma_index_coords(width, height, x + dx, y + dy);
    assert((y + dy) * width + (x + dx) == y * width + x + dy * width + dx) by (nonlinear_arith);
}

/// The neighbour list of a cell holds exactly the cells adjacent to it, each
/// once, and at most six of them.
pub proof fn lemma_neighbor_cells(width: int, height: int, a: int)
    requires
        0 <= width,
        0 <= height,
        on_board(width, height, a),
    ensures
        neighbor_cells(width, height, a).len() <= 6,
        neighbor_cells(width, height, a).no_duplicates(),
        forall|b: int| neighbor_cells(width, height, a).contains(b) <==> adjacent(width, height, a, b),
{
    lemma_coords_index(width, height, a);
    let x = col_of(width, a);
    let y = row_of(width, a);
    let s0 = Seq::<int>::empty();
    let s1 = if x > 0 { s0.push(a - 1) } else { s0 };
    let s2 = if y > 0 { s1.push(a - width) } else { s1 };
    let s3 = if x < width - 1 { s2.push(a + 1) } else { s2 };
    let s4 = if y < height - 1 { s3.push(a + width) } else { s3 };
    let s5 = if x > 0 && y < height - 1 { s4.push(a + width - 1) } else { s4 };
    let s6 = if y > 0 && x < width - 1 { s5.push(a - width + 1) } else { s5 };
    let s = neighbor_cells(width, height, a);
    assert(s == s6);
    assert(1 * width == width && (-1) * width == -width && 0 * width == 0) by (nonlinear_arith);
    if x > 0 {
        lemma_shift(width, height, a, -1, 0);
    }
    if y > 0 {
        lemma_shift(width, height, a, 0, -1);
    }
    if x < width - 1 {
        lemma_shift(width, height, a, 1, 0);
    }
    if y < height - 1 {
        lemma_shift(width, height, a, 0, 1);
    }
    if x > 0 && y < height - 1 {
        lemma_shift(width, height, a, -1, 1);
    }
    if y > 0 && x < width - 1 {
        lemma_shift(width, height, a, 1, -1);
    }
    assert forall|b: int| s.contains(b) implies adjacent(width, height, a, b) by {
        let i = choose|i: int| 0 <= i < s.len() && s[i] == b;
        assert(b == a - 1 || b == a - width || b == a + 1 || b == a + width || b == a + width - 1
            || b == a - width + 1);
    }
    assert forall|b: int| adjacent(width, height, a, b) implies s.contains(b) by {
        lemma_coords_index(width, height, b);
        let dx = col_of(width, b) - x;
        let dy = row_of(width, b) - y;
        lemma_shift(width, height, a, dx, dy);
        lemma_coords_index(width, height, a + dy * width + dx);
        assert(b == a + dy * width + dx);
        lemma_chain_contains(s0, s1, s2, s3, s4, s5, s6, b);
    }
    assert(s.no_duplicates()) by {
        assert forall|i: int, j: int| 0 <= i < s.len() && 0 <= j < s.len() && i != j implies s[i]
            != s[j] by {
            assert(adjacent(width, height, a, s[i])) by {
                assert(s.contains(s[i]));
            }
            assert(adjacent(width, height, a, s[j])) by {
                assert(s.contains(s[j]));
            }
        }
    }
}

/// Membership in a sequence grown by up to six pushes.
proof fn lemma_chain_contains(
    s0: Seq<int>,
    s1: Seq<int>,
    s2: Seq<int>,
    s3: Seq<int>,
    s4: Seq<int>,
    s5: Seq<int>,
    s6: Seq<int>,
    b: int,
)
    requires
        s1 == s0 || (s1 == s0.push(s1.last()) && s1.len() > 0),
        s2 == s1 || (s2 == s1.push(s2.last()) && s2.len() > 0),
        s3 == s2 || (s3 == s2.push(s3.last()) && s3.len() > 0),
        s4 == s3 || (s4 == s3.push(s4.last()) && s4.len() > 0),
        s5 == s4 || (s5 == s4.push(s5.last()) && s5.len() > 0),
        s6 == s5 || (s6 == s5.push(s6.last()) && s6.len() > 0),
    ensures
        s1.contains(b) <==> s0.contains(b) || (s1 != s0 && s1.last() == b),
        s2.contains(b) <==> s1.contains(b) || (s2 != s1 && s2.last() == b),
        s3.contains(b) <==> s2.contains(b) || (s3 != s2 && s3.last() == b),
        s4.contains(b) <==> s3.contains(b) || (s4 != s3 && s4.last() == b),
        s5.contains(b) <==> s4.contains(b) || (s5 != s4 && s5.last() == b),
        s6.contains(b) <==> s5.contains(b) || (s6 != s5 && s6.last() == b),
{
    lemma_push_contains(s0, s1, b);
    lemma_push_contains(s1, s2, b);
    lemma_push_contains(s2, s3, b);
    lemma_push_contains(s3, s4, b);
    lemma_push_contains(s4, s5, b);
    lemma_push_contains(s5, s6, b);
}

proof fn lemma_push_contains(s: Seq<int>, t: Seq<int>, b: int)
    requires
        t == s || (t == s.push(t.last()) && t.len() > 0),
    ensures
        t.contains(b) <==> s.contains(b) || (t != s && t.last() == b),
{
    if t != s {
        let v = t.last();
        assert(t.len() == s.len() + 1);
        if s.contains(b) {
            let i = choose|i: int| 0 <= i < s.len() && s[i] == b;
            assert(t[i] == b);
        }
        if v == b {
            assert(t[t.len() - 1] == b);
        }
    }
}

} // verus!

//! The Hex board: its cells, its neighbour table, the incremental tagging of
//! connected groups as stones are placed, and the winner of a filled board.

use vstd::prelude::*;
use crate::topology::adjacent;
use crate::topology::cell_index;
use crate::topology::col_of;
use crate::topology::row_of;
use crate::topology::in_first_col;
use crate::topology::in_first_row;
use crate::topology::in_last_col;
use crate::topology::in_last_row;
use crate::topology::lemma_border_rows;
use crate::topology::lemma_coords_index;
use crate::topology::lemma_index_coords;
use crate::topology::lemma_neighbor_cells;
use crate::topology::neighbor_cells;
use crate::topology::on_board;
use crate::connect::linked;
use crate::connect::reachable;
use crate::connect::lemma_linked_self;
use crate::connect::lemma_reachable_in_closed;
use crate::connect::lemma_reachable_source;
use crate::connect::lemma_reachable_step;
use vstd::seq_lib::to_multiset_contains;
use vstd::seq_lib::to_multiset_update;

verus! {

/// The two sides of a game of Hex. Black joins the top row to the bottom
/// row, White the leftmost column to the rightmost.
#[derive(PartialEq, Eq, Clone, Copy, Debug, Structural)]
pub enum HexPlayerColor {
    Black,
    White,
}

/// What a cell holds. A stone carries, besides its colour, what is known of
/// the borders that its connected group reaches.
#[derive(PartialEq, Eq, Clone, Copy, Debug, Structural)]
pub enum CellState {
    Empty,
    White,
    WhiteWest,
    WhiteEast,
    WhiteWin,
    Black,
    BlackNorth,
    BlackSouth,
    BlackWin,
}

impl HexPlayerColor {
    /// The other side.
    pub open spec fn opponent(self) -> HexPlayerColor {
        match self {
            HexPlayerColor::Black => HexPlayerColor::White,
            HexPlayerColor::White => HexPlayerColor::Black,
        }
    }
}

/// The side that moves after `player`.
pub fn switch_player(player: HexPlayerColor) -> (other: HexPlayerColor)
    ensures
        other == player.opponent(),
{
    if player == HexPlayerColor::Black {
        HexPlayerColor::White
    } else {
        HexPlayerColor::Black
    }
}

impl CellState {
    /// The side whose stone lies on the cell.
    pub open spec fn owner(self) -> Option<HexPlayerColor> {
        match self {
            CellState::Empty => None,
            CellState::White | CellState::WhiteWest | CellState::WhiteEast | CellState::WhiteWin => Some(
                HexPlayerColor::White,
            ),
            CellState::Black | CellState::BlackNorth | CellState::BlackSouth | CellState::BlackWin => Some(
                HexPlayerColor::Black,
            ),
        }
    }

    /// The side whose stone lies on the cell.
    pub fn color(self) -> (side: Option<HexPlayerColor>)
        ensures
            side == self.owner(),
    {
        match self {
            CellState::Empty => None,
            CellState::White | CellState::WhiteWest | CellState::WhiteEast | CellState::WhiteWin => Some(
                HexPlayerColor::White,
            ),
            CellState::Black | CellState::BlackNorth | CellState::BlackSouth | CellState::BlackWin => Some(
                HexPlayerColor::Black,
            ),
        }
    }

    /// A stone of `player` whose group is not known to reach a border.
    pub open spec fn plain_tag(player: HexPlayerColor) -> CellState {
        match player {
            HexPlayerColor::Black => CellState::Black,
            HexPlayerColor::White => CellState::White,
        }
    }

    /// A stone of `player` whose group reaches the player's first border:
    /// the top row for Black, the leftmost column for White.
    pub open spec fn low_tag(player: HexPlayerColor) -> CellState {
        match player {
            HexPlayerColor::Black => CellState::BlackNorth,
            HexPlayerColor::White => CellState::WhiteWest,
        }
    }

    /// A stone of `player` whose group reaches the player's second border:
    /// the bottom row for Black, the rightmost column for White.
    pub open spec fn high_tag(player: HexPlayerColor) -> CellState {
        match player {
            HexPlayerColor::Black => CellState::BlackSouth,
            HexPlayerColor::White => CellState::WhiteEast,
        }
    }

    /// The stone that joined both borders of `player`.
    pub open spec fn win_tag(player: HexPlayerColor) -> CellState {
        match player {
            HexPlayerColor::Black => CellState::BlackWin,
            HexPlayerColor::White => CellState::WhiteWin,
        }
    }

    /// The byte that stands for the cell state in a serialized board.
    pub open spec fn code(self) -> u8 {
        match self {
            CellState::Empty => 0,
            CellState::White => 1,
            CellState::WhiteWest => 2,
            CellState::WhiteEast => 3,
            CellState::WhiteWin => 4,
            CellState::Black => 5,
            CellState::BlackNorth => 6,
            CellState::BlackSouth => 7,
            CellState::BlackWin => 8,
        }
    }

    /// The cell state that the byte `b` stands for; `Empty` for a byte that
    /// stands for none.
    pub open spec fn of_code(b: u8) -> CellState {
        if b == 1 {
            CellState::White
        } else if b == 2 {
            CellState::WhiteWest
        } else if b == 3 {
            CellState::WhiteEast
        } else if b == 4 {
            CellState::WhiteWin
        } else if b == 5 {
            CellState::Black
        } else if b == 6 {
            CellState::BlackNorth
        } else if b == 7 {
            CellState::BlackSouth
        } else if b == 8 {
            CellState::BlackWin
        } else {
            CellState::Empty
        }
    }

    /// The byte that stands for the cell state in a serialized board.
    pub fn to_u8(self) -> (b: u8)
        ensures
            b == self.code(),
    {
        match self {
            CellState::Empty => 0,
            CellState::White => 1,
            CellState::WhiteWest => 2,
            CellState::WhiteEast => 3,
            CellState::WhiteWin => 4,
            CellState::Black => 5,
            CellState::BlackNorth => 6,
            CellState::BlackSouth => 7,
            CellState::BlackWin => 8,
        }
    }

    /// The cell state that a byte of a serialized board stands for, if any.
    pub fn from_u8(b: u8) -> (cell: Option<CellState>)
        ensures
            b <= 8 <==> cell.is_some(),
            cell.is_some() ==> cell.unwrap().code() == b,
            cell.is_some() ==> cell.unwrap() == CellState::of_code(b),
    {
        match b {
            0 => Some(CellState::Empty),
            1 => Some(CellState::White),
            2 => Some(CellState::WhiteWest),
            3 => Some(CellState::WhiteEast),
            4 => Some(CellState::WhiteWin),
            5 => Some(CellState::Black),
            6 => Some(CellState::BlackNorth),
            7 => Some(CellState::BlackSouth),
            8 => Some(CellState::BlackWin),
            _ => None,
        }
    }
}

/// The cells of `s` that hold `tag`.
pub open spec fn cells_with(s: Seq<CellState>, tag: CellState) -> Set<int> {
    Set::new(|c: int| 0 <= c < s.len() && s[c] == tag)
}

/// The neighbours of one cell: the first `size` entries of `neighbors`.
#[derive(Clone, Copy)]
struct Neighbor {
    size: usize,
    neighbors: [usize; 6],
}

impl Neighbor {
    /// The neighbours that the entry lists, in its order.
    spec fn cells(self) -> Seq<int> {
        Seq::new(self.size as nat, |i: int| self.neighbors@[i] as int)
    }

    /// An entry without neighbours.
    fn empty() -> (cell: Neighbor)
        ensures
            cell.size == 0,
            cell.cells() == Seq::<int>::empty(),
    {
        let cell = Neighbor { size: 0, neighbors: [0;6] };
        assert(cell.cells() =~= Seq::<int>::empty());
        cell
    }

    /// Adds `cell` to the end of the entry.
    fn push(&mut self, cell: usize)
        requires
            old(self).size < 6,
        ensures
            final(self).size == old(self).size + 1,
            final(self).cells() == old(self).cells().push(cell as int),
    {
        self.neighbors[self.size] = cell;
        self.size += 1;
        assert(self.cells() =~= old(self).cells().push(cell as int));
    }
}

/// The topology of a board of `width` columns and `height` rows: for each of
/// its `size` cells, the cells that share an edge with it.
pub struct HexBoard {
    width: usize,
    height: usize,
    size: usize,
    neighbor_list: Vec<Neighbor>,
}

impl HexBoard {
    /// The neighbours that the table lists for cell `a`, in the table's order.
    pub closed spec fn neighbors(&self, a: int) -> Seq<int> {
        self.neighbor_list@[a].cells()
    }

    /// The number of entries of the table.
    pub closed spec fn table_len(&self) -> nat {
        self.neighbor_list@.len()
    }

    /// The number of columns.
    pub closed spec fn cols(&self) -> nat {
        self.width as nat
    }

    /// The number of rows.
    pub closed spec fn rows(&self) -> nat {
        self.height as nat
    }

    /// The number of cells.
    pub closed spec fn cells(&self) -> nat {
        self.size as nat
    }

    /// The board is consistent: it has `width * height` cells, and its table
    /// lists for each cell the in-bounds cells among left, up, right, down,
    /// down-left and up-right.
    pub open spec fn wf(&self) -> bool {
        &&& self.cells() == self.cols() * self.rows()
        &&& self.table_len() == self.cells()
        &&& forall|a: int|
            0 <= a < self.cells() ==> #[trigger] self.neighbors(a) == neighbor_cells(
                self.cols() as int,
                self.rows() as int,
                a,
            )
    }

    /// Cells `a` and `b` of this board share an edge.
    pub open spec fn adjacent(&self, a: int, b: int) -> bool {
        adjacent(self.cols() as int, self.rows() as int, a, b)
    }

    /// The number of columns.
    pub fn width(&self) -> (width: usize)
        ensures
            width == self.cols(),
    {
        self.width
    }

    /// The number of rows.
    pub fn height(&self) -> (height: usize)
        ensures
            height == self.rows(),
    {
        self.height
    }

    /// The number of cells.
    pub fn size(&self) -> (size: usize)
        ensures
            size == self.cells(),
    {
        self.size
    }

    /// Builds the topology of a board of `width` columns and `height` rows.
    /// The number of cells has to fit an index.
    pub fn new(width: usize, height: usize) -> (board: HexBoard)
        requires
            width * height <= usize::MAX,
        ensures
            board.wf(),
            board.cols() == width,
            board.rows() == height,
    {
        let size = width * height;
        let mut neighbor_list: Vec<Neighbor> = Vec::with_capacity(size);
        let ghost w = width as int;
        let ghost h = height as int;
        let mut y: usize = 0;
        while y < height
            invariant
                y <= height,
                w == width,
                h == height,
                size == w * h,
                neighbor_list@.len() == y * w,
                forall|a: int|
                    0 <= a < neighbor_list@.len() ==> (#[trigger] neighbor_list@[a]).cells()
                        == neighbor_cells(w, h, a),
            decreases height - y,
        {
            let mut x: usize = 0;
            while x < width
                invariant
                    y < height,
                    x <= width,
                    w == width,
                    h == height,
                    size == w * h,
                    neighbor_list@.len() == y * w + x,
                    forall|a: int|
                        0 <= a < neighbor_list@.len() ==> (#[trigger] neighbor_list@[a]).cells()
                            == neighbor_cells(w, h, a),
                decreases width - x,
            {
                let index: usize = neighbor_list.len();
                proof {
                    lemma_index_coords(w, h, x as int, y as int);
                    if y > 0 {
                        lemma_index_coords(w, h, x as int, y - 1);
                    }
                    if y < h - 1 {
                        lemma_index_coords(w, h, x as int, y + 1);
                    }
                    assert((y - 1) * w + x == y * w + x - w) by (nonlinear_arith);
                    assert((y + 1) * w + x == y * w + x + w) by (nonlinear_arith);
                }
                let mut cell = Neighbor::empty();
                if x > 0 {
                    cell.push(index - 1);
                }
                if y > 0 {
                    cell.push(index - width);
                }
                if x < width - 1 {
                    cell.push(index + 1);
                }
                if y < height - 1 {
                    cell.push(index + width);
                }
                if x > 0 && y < height - 1 {
                    cell.push(index + width - 1);
                }
                if y > 0 && x < width - 1 {
                    cell.push(index - width + 1);
                }
                assert(cell.cells() == neighbor_cells(w, h, index as int));
                neighbor_list.push(cell);
                x += 1;
            }
            assert((y + 1) * w == y * w + w) by (nonlinear_arith);
            y += 1;
        }
        assert(h * w == w * h) by (nonlinear_arith);
        let board = HexBoard { width, height, size, neighbor_list };
        assert forall|a: int| 0 <= a < board.cells() implies #[trigger] board.neighbors(a)
            == neighbor_cells(board.cols() as int, board.rows() as int, a) by {
            assert(board.neighbor_list@[a].cells() == neighbor_cells(w, h, a));
        }
        board
    }

    /// Row-major index of the cell in column `x` of row `y`.
    pub fn get_index(&self, x: usize, y: usize) -> (index: usize)
        requires
            self.wf(),
            x < self.cols(),
            y < self.rows(),
        ensures
            index == cell_index(self.cols() as int, x as int, y as int),
            index < self.cells(),
            col_of(self.cols() as int, index as int) == x,
            row_of(self.cols() as int, index as int) == y,
    {
        proof {
            lemma_index_coords(self.width as int, self.height as int, x as int, y as int);
            assert(0 <= y * self.width <= y * self.width + x) by (nonlinear_arith);
        }
        y * self.width + x
    }

    /// The neighbours of cell `pos`, in the table's order.
    pub fn neighbors_of(&self, pos: usize) -> (cells: Vec<usize>)
        requires
            self.wf(),
            pos < self.cells(),
        ensures
            cells@.len() == self.neighbors(pos as int).len(),
            forall|i: int| 0 <= i < cells@.len() ==> cells@[i] == self.neighbors(pos as int)[i],
    {
        let entry = &self.neighbor_list[pos];
        let mut cells: Vec<usize> = Vec::new();
        let mut i: usize = 0;
        proof {
            lemma_neighbor_cells(self.width as int, self.height as int, pos as int);
            assert(self.neighbors(pos as int).len() == entry.size);
        }
        while i < entry.size
            invariant
                i <= entry.size <= 6,
                entry.cells() == self.neighbors(pos as int),
                cells@.len() == i,
                forall|k: int| 0 <= k < i ==> cells@[k] == self.neighbors(pos as int)[k],
            decreases entry.size - i,
        {
            assert(entry.cells()[i as int] == entry.neighbors@[i as int]);
            cells.push(entry.neighbors[i]);
            i += 1;
        }
        cells
    }

    /// Neighbour symmetry: the table lists `b` for `a` exactly when it lists
    /// `a` for `b`.
    pub proof fn lemma_neighbor_symmetry(&self, a: int, b: int)
        requires
            self.wf(),
            0 <= a < self.cells(),
            0 <= b < self.cells(),
        ensures
            self.neighbors(a).contains(b) <==> self.neighbors(b).contains(a),
    {
        lemma_neighbor_cells(self.cols() as int, self.rows() as int, a);
        lemma_neighbor_cells(self.cols() as int, self.rows() as int, b);
        assert(self.neighbors(a).contains(b) <==> self.adjacent(a, b));
        assert(self.neighbors(b).contains(a) <==> self.adjacent(b, a));
    }

    /// The table lists for each cell exactly the adjacent cells, each once:
    /// six of them for a cell in the interior, fewer on the rim.
    pub proof fn lemma_neighbors(&self, a: int)
        requires
            self.wf(),
            0 <= a < self.cells(),
        ensures
            self.neighbors(a).len() <= 6,
            self.neighbors(a).no_duplicates(),
            forall|b: int| self.neighbors(a).contains(b) <==> self.adjacent(a, b),
            0 < col_of(self.cols() as int, a) < self.cols() - 1 && 0 < row_of(self.cols() as int, a)
                < self.rows() - 1 ==> self.neighbors(a).len() == 6,
    {
        lemma_neighbor_cells(self.cols() as int, self.rows() as int, a);
    }

    /// Some walk on this board leads from `from` to `to` through `through`.
    pub open spec fn linked(&self, from: int, to: int, through: Set<int>) -> bool {
        linked(self.cols() as int, self.rows() as int, from, to, through)
    }

    /// `to` is linked to a cell of `sources` through `through`.
    pub open spec fn reachable(&self, sources: Set<int>, to: int, through: Set<int>) -> bool {
        reachable(self.cols() as int, self.rows() as int, sources, to, through)
    }

    /// Some cell that is reachable from `sources` through the cells of `s`
    /// that hold `plain` has a neighbour that holds `goal`.
    pub open spec fn meets(
        &self,
        s: Seq<CellState>,
        sources: Set<int>,
        plain: CellState,
        goal: CellState,
    ) -> bool {
        exists|c: int, n: int|
            self.reachable(sources, c, cells_with(s, plain)) && #[trigger] self.adjacent(c, n)
                && s[n] == goal
    }

    /// Cell `c` is a source, or the search has turned it from `plain` into
    /// `tag`.
    spec fn visited(
        s0: Seq<CellState>,
        s: Seq<CellState>,
        sources: Set<int>,
        plain: CellState,
        tag: CellState,
        c: int,
    ) -> bool {
        sources.contains(c) || (0 <= c < s0.len() && s0[c] == plain && s[c] == tag)
    }

    /// What holds while the search runs. `s0` is the state it started from,
    /// `s` the current one; `done` holds the cells whose neighbours have all
    /// been looked at, `cur` the cell that is being looked at.
    spec fn search_inv(
        &self,
        s0: Seq<CellState>,
        s: Seq<CellState>,
        stack: Seq<usize>,
        done: Set<int>,
        cur: Option<int>,
        sources: Set<int>,
        plain: CellState,
        tag: CellState,
        goal: Option<CellState>,
    ) -> bool {
        let through = cells_with(s0, plain);
        &&& self.wf()
        &&& s.len() == s0.len()
        &&& s0.len() == self.cells()
        &&& plain != tag
        &&& goal != Some(plain)
        &&& goal != Some(tag)
        &&& forall|f: int| sources.contains(f) ==> 0 <= f < self.cells() && s0[f] != plain
        &&& forall|c: int|
            0 <= c < s0.len() ==> #[trigger] s[c] == s0[c] || (s0[c] == plain && s[c] == tag
                && self.reachable(sources, c, through))
        &&& forall|i: int|
            0 <= i < stack.len() ==> (#[trigger] stack[i]) < self.cells() && self.reachable(
                sources,
                stack[i] as int,
                through,
            ) && Self::visited(s0, s, sources, plain, tag, stack[i] as int)
        &&& cur.is_some() ==> 0 <= cur.unwrap() < self.cells() && self.reachable(
            sources,
            cur.unwrap(),
            through,
        ) && Self::visited(s0, s, sources, plain, tag, cur.unwrap())
        &&& forall|c: int|
            done.contains(c) ==> 0 <= c < s0.len() && Self::visited(s0, s, sources, plain, tag, c)
        &&& forall|c: int, n: int|
            done.contains(c) && #[trigger] self.adjacent(c, n) ==> s[n] != plain && goal != Some(
                s0[n],
            )
        &&& forall|c: int| #[trigger]
            Self::visited(s0, s, sources, plain, tag, c) ==> done.contains(c) || cur == Some(c)
                || exists|i: int| 0 <= i < stack.len() && stack[i] == c
    }

    /// Taking the top of the stack as the cell to look at keeps the
    /// invariant.
    proof fn lemma_search_pop(
        &self,
        s0: Seq<CellState>,
        s: Seq<CellState>,
        stack: Seq<usize>,
        done: Set<int>,
        sources: Set<int>,
        plain: CellState,
        tag: CellState,
        goal: Option<CellState>,
    )
        requires
            self.search_inv(s0, s, stack, done, None, sources, plain, tag, goal),
            stack.len() > 0,
        ensures
            self.search_inv(
                s0,
                s,
                stack.drop_last(),
                done,
                Some(stack.last() as int),
                sources,
                plain,
                tag,
                goal,
            ),
    {
        let rest = stack.drop_last();
        let cur = Some(stack.last() as int);
        assert(stack[stack.len() - 1] < self.cells());
        assert forall|c: int| #[trigger]
            Self::visited(s0, s, sources, plain, tag, c) implies done.contains(c) || cur == Some(c)
            || exists|i: int| 0 <= i < rest.len() && rest[i] == c by {
            if !done.contains(c) {
                let i = choose|i: int| 0 <= i < stack.len() && stack[i] == c;
                if i < rest.len() {
                    assert(rest[i] == c);
                }
            }
        }
        assert forall|i: int| 0 <= i < rest.len() implies (#[trigger] rest[i]) < self.cells()
            && self.reachable(sources, rest[i] as int, cells_with(s0, plain)) && Self::visited(
            s0,
            s,
            sources,
            plain,
            tag,
            rest[i] as int,
        ) by {
            assert(rest[i] == stack[i]);
        }
    }

    /// Turning a `plain` neighbour of the current cell into `tag` and
    /// pushing it keeps the invariant.
    proof fn lemma_search_push(
        &self,
        s0: Seq<CellState>,
        s: Seq<CellState>,
        stack: Seq<usize>,
        done: Set<int>,
        cur: int,
        n: usize,
        sources: Set<int>,
        plain: CellState,
        tag: CellState,
        goal: Option<CellState>,
    )
        requires
            self.search_inv(s0, s, stack, done, Some(cur), sources, plain, tag, goal),
            self.adjacent(cur, n as int),
            s[n as int] == plain,
        ensures
            self.search_inv(
                s0,
                s.update(n as int, tag),
                stack.push(n),
                done,
                Some(cur),
                sources,
                plain,
                tag,
                goal,
            ),
            s.update(n as int, tag).to_multiset().count(plain) < s.to_multiset().count(plain),
    {
        let w = self.cols() as int;
        let h = self.rows() as int;
        let through = cells_with(s0, plain);
        let s2 = s.update(n as int, tag);
        let stack2 = stack.push(n);
        assert(s.to_multiset().count(plain) > s2.to_multiset().count(plain)) by {
            broadcast use vstd::multiset::group_multiset_axioms;

            to_multiset_update(s, n as int, tag);
            assert(s.contains(plain));
            to_multiset_contains(s, plain);
        }
        assert(s[n as int] == s0[n as int]);
        assert(through.contains(n as int));
        lemma_reachable_step(w, h, sources, cur, n as int, through);
        assert forall|c: int|
            0 <= c < s0.len() implies #[trigger] s2[c] == s0[c] || (s0[c] == plain && s2[c] == tag
            && self.reachable(sources, c, through)) by {
            if c != n {
                assert(s2[c] == s[c]);
            }
        }
        assert forall|i: int| 0 <= i < stack2.len() implies (#[trigger] stack2[i]) < self.cells()
            && self.reachable(sources, stack2[i] as int, through) && Self::visited(
            s0,
            s2,
            sources,
            plain,
            tag,
            stack2[i] as int,
        ) by {
            if i < stack.len() {
                assert(stack2[i] == stack[i]);
                assert(Self::visited(s0, s, sources, plain, tag, stack[i] as int));
            }
        }
        assert forall|c: int| done.contains(c) implies 0 <= c < s0.len() && Self::visited(
            s0,
            s2,
            sources,
            plain,
            tag,
            c,
        ) by {
            assert(Self::visited(s0, s, sources, plain, tag, c));
        }
        assert forall|c: int, m: int| done.contains(c) && #[trigger] self.adjacent(c, m) implies s2[m]
            != plain && goal != Some(s0[m]) by {
            assert(s[m] != plain);
        }
        assert forall|c: int| #[trigger]
            Self::visited(s0, s2, sources, plain, tag, c) implies done.contains(c) || Some(cur)
            == Some(c) || exists|i: int| 0 <= i < stack2.len() && stack2[i] == c by {
            if c == n {
                assert(stack2[stack2.len() - 1] == c);
            } else {
                assert(Self::visited(s0, s, sources, plain, tag, c));
                if !done.contains(c) && cur != c {
                    let i = choose|i: int| 0 <= i < stack.len() && stack[i] == c;
                    assert(stack2[i] == c);
                }
            }
        }
    }

    /// Once every neighbour of the current cell has been looked at, the
    /// cell is done.
    proof fn lemma_search_done(
        &self,
        s0: Seq<CellState>,
        s: Seq<CellState>,
        stack: Seq<usize>,
        done: Set<int>,
        cur: int,
        sources: Set<int>,
        plain: CellState,
        tag: CellState,
        goal: Option<CellState>,
    )
        requires
            self.search_inv(s0, s, stack, done, Some(cur), sources, plain, tag, goal),
            forall|k: int|
                0 <= k < self.neighbors(cur).len() ==> s[#[trigger] self.neighbors(cur)[k]] != plain
                    && goal != Some(s0[self.neighbors(cur)[k]]),
        ensures
            self.search_inv(s0, s, stack, done.insert(cur), None, sources, plain, tag, goal),
    {
        let done2 = done.insert(cur);
        lemma_neighbor_cells(self.cols() as int, self.rows() as int, cur);
        assert forall|c: int, n: int| done2.contains(c) && #[trigger] self.adjacent(c, n) implies s[n]
            != plain && goal != Some(s0[n]) by {
            if c == cur {
                assert(self.neighbors(cur).contains(n));
                let k = choose|k: int|
                    0 <= k < self.neighbors(cur).len() && self.neighbors(cur)[k] == n;
                assert(s[self.neighbors(cur)[k]] != plain);
            }
        }
        assert forall|c: int| #[trigger]
            Self::visited(s0, s, sources, plain, tag, c) implies done2.contains(c) || None::<int>
            == Some(c) || exists|i: int| 0 <= i < stack.len() && stack[i] == c by {
            if !done.contains(c) && cur != c {
                let i = choose|i: int| 0 <= i < stack.len() && stack[i] == c;
                assert(stack[i] == c);
            }
        }
    }

    /// When the stack is empty, every reachable cell is done.
    proof fn lemma_search_end(
        &self,
        s0: Seq<CellState>,
        s: Seq<CellState>,
        done: Set<int>,
        sources: Set<int>,
        plain: CellState,
        tag: CellState,
        goal: Option<CellState>,
    )
        requires
            self.search_inv(s0, s, Seq::<usize>::empty(), done, None, sources, plain, tag, goal),
        ensures
            !(goal.is_some() && self.meets(s0, sources, plain, goal.unwrap())),
            forall|c: int|
                0 <= c < s0.len() && s0[c] == plain && self.reachable(
                    sources,
                    c,
                    cells_with(s0, plain),
                ) ==> #[trigger] s[c] == tag,
    {
        let w = self.cols() as int;
        let h = self.rows() as int;
        let through = cells_with(s0, plain);
        let stack = Seq::<usize>::empty();
        assert forall|f: int| sources.contains(f) implies done.contains(f) by {
            assert(Self::visited(s0, s, sources, plain, tag, f));
        }
        assert forall|a: int, b: int|
            done.contains(a) && #[trigger] adjacent(w, h, a, b) && through.contains(
                b,
            ) implies done.contains(b) by {
            assert(self.adjacent(a, b));
            assert(s[b] != plain);
            assert(s0[b] == plain);
            assert(Self::visited(s0, s, sources, plain, tag, b));
        }
        assert forall|c: int| self.reachable(sources, c, through) implies done.contains(c) by {
            lemma_reachable_in_closed(w, h, sources, c, through, done);
        }
        if goal.is_some() && self.meets(s0, sources, plain, goal.unwrap()) {
            let (c, n) = choose|c: int, n: int|
                self.reachable(sources, c, cells_with(s0, plain)) && #[trigger] self.adjacent(c, n)
                    && s0[n] == goal.unwrap();
            assert(done.contains(c));
        }
        assert forall|c: int|
            0 <= c < s0.len() && s0[c] == plain && self.reachable(
                sources,
                c,
                through,
            ) implies #[trigger] s[c] == tag by {
            assert(done.contains(c));
            assert(Self::visited(s0, s, sources, plain, tag, c));
        }
    }

    /// Depth-first search with an explicit stack. Starting from the cells
    /// on `stack`, turns into `tag` every cell that holds `plain` and is
    /// reachable through such cells. With a `goal`, stops and reports
    /// `true` as soon as a cell next to the searched region holds it.
    fn flood(
        &self,
        state: &mut Vec<CellState>,
        stack: Vec<usize>,
        plain: CellState,
        tag: CellState,
        goal: Option<CellState>,
        Ghost(sources): Ghost<Set<int>>,
    ) -> (hit: bool)
        requires
            self.wf(),
            old(state)@.len() == self.cells(),
            plain != tag,
            goal != Some(plain),
            goal != Some(tag),
            forall|i: int| 0 <= i < stack@.len() ==> sources.contains(#[trigger] stack@[i] as int),
            forall|f: int|
                sources.contains(f) ==> 0 <= f < self.cells() && old(state)@[f] != plain && exists|
                    i: int,
                | 0 <= i < stack@.len() && stack@[i] == f,
        ensures
            final(state)@.len() == old(state)@.len(),
            hit <==> goal.is_some() && self.meets(old(state)@, sources, plain, goal.unwrap()),
            forall|c: int|
                0 <= c < old(state)@.len() ==> #[trigger] final(state)@[c] == old(state)@[c] || (
                old(state)@[c] == plain && final(state)@[c] == tag && self.reachable(
                    sources,
                    c,
                    cells_with(old(state)@, plain),
                )),
            !hit ==> forall|c: int|
                0 <= c < old(state)@.len() && old(state)@[c] == plain && self.reachable(
                    sources,
                    c,
                    cells_with(old(state)@, plain),
                ) ==> #[trigger] final(state)@[c] == tag,
    {
        let ghost s0 = state@;
        let ghost mut done: Set<int> = Set::empty();
        let mut stack = stack;
        proof {
            assert forall|i: int| 0 <= i < stack@.len() implies self.reachable(
                sources,
                #[trigger] stack@[i] as int,
                cells_with(s0, plain),
            ) by {
                lemma_reachable_source(
                    self.cols() as int,
                    self.rows() as int,
                    sources,
                    stack@[i] as int,
                    cells_with(s0, plain),
                );
            }
            assert(self.search_inv(s0, state@, stack@, done, None, sources, plain, tag, goal));
        }
        while stack.len() > 0
            invariant
                s0 == old(state)@,
                self.search_inv(s0, state@, stack@, done, None, sources, plain, tag, goal),
            decreases state@.to_multiset().count(plain), stack@.len(),
        {
            let ghost before = stack@;
            let ghost plain_before = state@.to_multiset().count(plain);
            proof {
                self.lemma_search_pop(s0, state@, stack@, done, sources, plain, tag, goal);
            }
            let cur = stack.pop().unwrap();
            let entry = &self.neighbor_list[cur];
            assert(self.neighbors(cur as int) == entry.cells());
            proof {
                lemma_neighbor_cells(self.cols() as int, self.rows() as int, cur as int);
                assert forall|k: int| 0 <= k < entry.size implies 0 <= #[trigger] self.neighbors(
                    cur as int,
                )[k] < self.cells() by {
                    let n = self.neighbors(cur as int)[k];
                    assert(entry.cells().len() == entry.size);
                    assert(self.neighbors(cur as int).contains(n));
                    assert(self.adjacent(cur as int, n));
                    assert(on_board(self.cols() as int, self.rows() as int, n));
                }
            }
            let mut i: usize = 0;
            while i < entry.size
                invariant
                    s0 == old(state)@,
                    self.search_inv(
                        s0,
                        state@,
                        stack@,
                        done,
                        Some(cur as int),
                        sources,
                        plain,
                        tag,
                        goal,
                    ),
                    i <= entry.size <= 6,
                    entry.cells() == self.neighbors(cur as int),
                    entry.cells().len() == entry.size,
                    forall|b: int|
                        self.neighbors(cur as int).contains(b) <==> self.adjacent(cur as int, b),
                    forall|k: int|
                        0 <= k < entry.size ==> 0 <= #[trigger] self.neighbors(cur as int)[k]
                            < self.cells(),
                    forall|k: int|
                        0 <= k < i ==> state@[#[trigger] self.neighbors(cur as int)[k]] != plain
                            && goal != Some(s0[self.neighbors(cur as int)[k]]),
                    state@.to_multiset().count(plain) < plain_before || (
                    state@.to_multiset().count(plain) == plain_before && stack@.len() + 1
                        == before.len()),
                decreases entry.size - i,
            {
                let n = entry.neighbors[i];
                proof {
                    assert(entry.cells()[i as int] == n);
                    assert(self.neighbors(cur as int).contains(n as int));
                    assert(self.adjacent(cur as int, n as int));
                }
                let cell = state[n];
                if cell == plain {
                    proof {
                        self.lemma_search_push(
                            s0,
                            state@,
                            stack@,
                            done,
                            cur as int,
                            n,
                            sources,
                            plain,
                            tag,
                            goal,
                        );
                    }
                    state[n] = tag;
                    stack.push(n);
                } else {
                    match goal {
                        Some(g) => {
                            if cell == g {
                                proof {
                                    assert(s0[n as int] == g);
                                }
                                return true;
                            }
                        },
                        None => {},
                    }
                }
                proof {
                    assert(state@[n as int] != plain);
                    assert(goal != Some(s0[n as int]));
                    assert forall|k: int| 0 <= k < i + 1 implies state@[#[trigger] self.neighbors(
                        cur as int,
                    )[k]] != plain && goal != Some(s0[self.neighbors(cur as int)[k]]) by {
                        if k == i {
                            assert(self.neighbors(cur as int)[k] == n);
                        }
                    }
                }
                i += 1;
            }
            proof {
                self.lemma_search_done(
                    s0,
                    state@,
                    stack@,
                    done,
                    cur as int,
                    sources,
                    plain,
                    tag,
                    goal,
                );
                done = done.insert(cur as int);
            }
        }
        proof {
            assert(stack@ =~= Seq::<usize>::empty());
            self.lemma_search_end(s0, state@, done, sources, plain, tag, goal);
        }
        false
    }

    /// `pos` lies on the first border of `player`: the top row for Black,
    /// the leftmost column for White.
    pub open spec fn on_low_border(&self, player: HexPlayerColor, pos: int) -> bool {
        match player {
            HexPlayerColor::Black => in_first_row(self.cols() as int, pos),
            HexPlayerColor::White => in_first_col(self.cols() as int, pos),
        }
    }

    /// `pos` lies on the second border of `player`: the bottom row for
    /// Black, the rightmost column for White.
    pub open spec fn on_high_border(&self, player: HexPlayerColor, pos: int) -> bool {
        match player {
            HexPlayerColor::Black => in_last_row(self.cols() as int, self.rows() as int, pos),
            HexPlayerColor::White => in_last_col(self.cols() as int, pos),
        }
    }

    /// A neighbour of `pos` holds `tag`.
    pub open spec fn touches(&self, s: Seq<CellState>, pos: int, tag: CellState) -> bool {
        exists|n: int| #[trigger] self.adjacent(pos, n) && s[n] == tag
    }

    /// A stone of `player` on `pos` would be known to reach the player's
    /// first border: it lies on it, or next to a stone tagged with it.
    pub open spec fn reaches_low(&self, s: Seq<CellState>, player: HexPlayerColor, pos: int) -> bool {
        self.on_low_border(player, pos) || self.touches(s, pos, CellState::low_tag(player))
    }

    /// A stone of `player` on `pos` would be known to reach the player's
    /// second border.
    pub open spec fn reaches_high(&self, s: Seq<CellState>, player: HexPlayerColor, pos: int) -> bool {
        self.on_high_border(player, pos) || self.touches(s, pos, CellState::high_tag(player))
    }

    /// The tag that a stone of `player` gets when it is placed on `pos`.
    pub open spec fn move_tag(&self, s: Seq<CellState>, player: HexPlayerColor, pos: int) -> CellState {
        let low = self.reaches_low(s, player, pos);
        let high = self.reaches_high(s, player, pos);
        if low && high {
            CellState::win_tag(player)
        } else if low {
            CellState::low_tag(player)
        } else if high {
            CellState::high_tag(player)
        } else {
            CellState::plain_tag(player)
        }
    }

    /// The state after `player` has placed a stone on `pos`. The stone gets
    /// its tag. Where that is a border tag, it spreads to every untagged
    /// stone of the player that a walk over such stones links to `pos`.
    pub open spec fn after_move(&self, s: Seq<CellState>, player: HexPlayerColor, pos: int) -> Seq<
        CellState,
    > {
        let tag = self.move_tag(s, player, pos);
        let plain = CellState::plain_tag(player);
        if tag == CellState::low_tag(player) || tag == CellState::high_tag(player) {
            Seq::new(
                s.len(),
                |c: int|
                    if c == pos || (s[c] == plain && self.linked(pos, c, cells_with(s, plain))) {
                        tag
                    } else {
                        s[c]
                    },
            )
        } else {
            s.update(pos, tag)
        }
    }

    /// The first and the last row in terms of indices.
    proof fn lemma_rows(&self)
        requires
            self.wf(),
        ensures
            forall|c: int|
                0 <= c < self.cells() ==> (#[trigger] in_first_row(self.cols() as int, c) <==> c
                    < self.cols()),
            forall|c: int|
                0 <= c < self.cells() ==> (#[trigger] in_last_row(
                    self.cols() as int,
                    self.rows() as int,
                    c,
                ) <==> c >= self.cells() - self.cols()),
            self.cells() > 0 ==> 0 < self.cols() <= self.cells(),
    {
        let w = self.cols() as int;
        let h = self.rows() as int;
        assert forall|c: int| 0 <= c < self.cells() implies (#[trigger] in_first_row(w, c) <==> c
            < w) by {
            lemma_border_rows(w, h, c);
        }
        assert forall|c: int| 0 <= c < self.cells() implies (#[trigger] in_last_row(w, h, c) <==> c
            >= self.cells() - w) by {
            lemma_border_rows(w, h, c);
        }
        if self.cells() > 0 {
            lemma_coords_index(w, h, 0);
            assert(w <= w * h) by (nonlinear_arith)
                requires
                    0 < w,
                    0 < h,
            ;
        }
    }

    /// Looks for `low` and `high` among the neighbours of `pos`.
    fn scan(&self, state: &Vec<CellState>, pos: usize, low: CellState, high: CellState) -> (found: (
        bool,
        bool,
    ))
        requires
            self.wf(),
            state@.len() == self.cells(),
            pos < self.cells(),
        ensures
            found.0 <==> self.touches(state@, pos as int, low),
            found.1 <==> self.touches(state@, pos as int, high),
    {
        let entry = &self.neighbor_list[pos];
        let mut found_low = false;
        let mut found_high = false;
        let mut i: usize = 0;
        proof {
            lemma_neighbor_cells(self.cols() as int, self.rows() as int, pos as int);
            assert(self.neighbors(pos as int) == entry.cells());
            assert(entry.cells().len() == entry.size);
            assert forall|k: int| 0 <= k < entry.size implies 0 <= #[trigger] self.neighbors(
                pos as int,
            )[k] < self.cells() by {
                let n = self.neighbors(pos as int)[k];
                assert(self.neighbors(pos as int).contains(n));
                assert(self.adjacent(pos as int, n));
                assert(on_board(self.cols() as int, self.rows() as int, n));
            }
        }
        while i < entry.size
            invariant
                self.wf(),
                state@.len() == self.cells(),
                i <= entry.size <= 6,
                entry.cells() == self.neighbors(pos as int),
                entry.cells().len() == entry.size,
                forall|k: int|
                    0 <= k < entry.size ==> 0 <= #[trigger] self.neighbors(pos as int)[k]
                        < self.cells(),
                found_low <==> exists|k: int|
                    0 <= k < i && state@[#[trigger] self.neighbors(pos as int)[k]] == low,
                found_high <==> exists|k: int|
                    0 <= k < i && state@[#[trigger] self.neighbors(pos as int)[k]] == high,
            decreases entry.size - i,
        {
            assert(entry.cells()[i as int] == entry.neighbors@[i as int]);
            let cell = state[entry.neighbors[i]];
            if cell == low {
                found_low = true;
            }
            if cell == high {
                found_high = true;
            }
            i += 1;
        }
        proof {
            let nb = self.neighbors(pos as int);
            if self.touches(state@, pos as int, low) {
                let n = choose|n: int| #[trigger] self.adjacent(pos as int, n) && state@[n] == low;
                assert(nb.contains(n));
                let k = choose|k: int| 0 <= k < nb.len() && nb[k] == n;
                assert(state@[nb[k]] == low);
            }
            if found_low {
                let k = choose|k: int| 0 <= k < i && state@[#[trigger] nb[k]] == low;
                assert(nb.contains(nb[k]));
                assert(self.adjacent(pos as int, nb[k]));
            }
            if self.touches(state@, pos as int, high) {
                let n = choose|n: int| #[trigger] self.adjacent(pos as int, n) && state@[n] == high;
                assert(nb.contains(n));
                let k = choose|k: int| 0 <= k < nb.len() && nb[k] == n;
                assert(state@[nb[k]] == high);
            }
            if found_high {
                let k = choose|k: int| 0 <= k < i && state@[#[trigger] nb[k]] == high;
                assert(nb.contains(nb[k]));
                assert(self.adjacent(pos as int, nb[k]));
            }
        }
        (found_low, found_high)
    }

    /// Places a stone of `player` on the empty cell `pos`, tags the stone's
    /// group with the border that it is now known to reach, and reports
    /// whether the stone joins both borders of `player`.
    pub fn update_move(&self, state: &mut Vec<CellState>, player: HexPlayerColor, pos: usize) -> (win:
        bool)
        requires
            self.wf(),
            old(state)@.len() == self.cells(),
            pos < self.cells(),
            old(state)@[pos as int] == CellState::Empty,
        ensures
            final(state)@ == self.after_move(old(state)@, player, pos as int),
            win <==> self.move_tag(old(state)@, player, pos as int) == CellState::win_tag(player),
            final(state)@.len() == old(state)@.len(),
            final(state)@[pos as int].owner() == Some(player),
            forall|c: int|
                0 <= c < old(state)@.len() && c != pos ==> (#[trigger] final(state)@[c]).owner()
                    == old(state)@[c].owner(),
            forall|c: int|
                0 <= c < old(state)@.len() && (old(state)@[c] == CellState::BlackWin
                    || old(state)@[c] == CellState::WhiteWin) ==> #[trigger] final(state)@[c]
                    == old(state)@[c],
            self.well_tagged(old(state)@) ==> (win <==> self.crosses(final(state)@, player)),
            self.well_tagged(old(state)@) && !win ==> self.well_tagged(final(state)@),
    {
        let ghost s0 = state@;
        proof {
            if self.well_tagged(s0) {
                self.lemma_win_iff_crosses(s0, player, pos as int);
                if self.move_tag(s0, player, pos as int) != CellState::win_tag(player) {
                    self.lemma_move_keeps_well_tagged(s0, player, pos as int);
                }
            }
        }
        let (plain, low_tag, high_tag, win_tag) = match player {
            HexPlayerColor::Black => (
                CellState::Black,
                CellState::BlackNorth,
                CellState::BlackSouth,
                CellState::BlackWin,
            ),
            HexPlayerColor::White => (
                CellState::White,
                CellState::WhiteWest,
                CellState::WhiteEast,
                CellState::WhiteWin,
            ),
        };
        proof {
            self.lemma_rows();
        }
        let (on_low, on_high) = match player {
            HexPlayerColor::Black => (pos < self.width, pos >= self.size - self.width),
            HexPlayerColor::White => (
                pos % self.width == 0,
                pos % self.width == self.width - 1,
            ),
        };
        let (next_low, next_high) = self.scan(state, pos, low_tag, high_tag);
        let low = on_low || next_low;
        let high = on_high || next_high;
        assert(low == self.reaches_low(s0, player, pos as int));
        assert(high == self.reaches_high(s0, player, pos as int));
        if low && high {
            state[pos] = win_tag;
            return true;
        }
        if low || high {
            let tag = if low {
                low_tag
            } else {
                high_tag
            };
            state[pos] = tag;
            let ghost s1 = state@;
            let ghost sources = set![pos as int];
            let mut stack: Vec<usize> = Vec::new();
            stack.push(pos);
            proof {
                assert(stack@[0] == pos);
                assert(cells_with(s1, plain) =~= cells_with(s0, plain));
            }
            self.flood(state, stack, plain, tag, None, Ghost(sources));
            proof {
                let through = cells_with(s0, plain);
                let w = self.cols() as int;
                let h = self.rows() as int;
                assert forall|c: int| self.reachable(sources, c, through) <==> self.linked(
                    pos as int,
                    c,
                    through,
                ) by {
                    if self.linked(pos as int, c, through) {
                        assert(sources.contains(pos as int));
                    }
                }
                lemma_linked_self(w, h, pos as int, through);
                assert(state@ =~= self.after_move(s0, player, pos as int));
            }
        } else {
            state[pos] = plain;
        }
        false
    }

    /// What the winner check makes of cell `c` before it searches: a black
    /// stone without a tag in the bottom row is anchored to the south, a
    /// north tag on an inner row is dropped, and a black stone without a
    /// tag in the top row is tagged north.
    pub open spec fn anchor(&self, s: Seq<CellState>, c: int) -> CellState {
        let first = in_first_row(self.cols() as int, c);
        let last = in_last_row(self.cols() as int, self.rows() as int, c);
        if last && s[c] == CellState::Black {
            CellState::BlackSouth
        } else if !first && !last && s[c] == CellState::BlackNorth {
            CellState::Black
        } else if first && s[c] == CellState::Black {
            CellState::BlackNorth
        } else {
            s[c]
        }
    }

    /// The state with every cell anchored.
    pub open spec fn anchored(&self, s: Seq<CellState>) -> Seq<CellState> {
        Seq::new(s.len(), |c: int| self.anchor(s, c))
    }

    /// The cells from which the winner check searches: those of the top row
    /// that are tagged north.
    pub open spec fn origins(&self, a: Seq<CellState>) -> Set<int> {
        Set::new(
            |c: int|
                0 <= c < a.len() && in_first_row(self.cols() as int, c) && a[c]
                    == CellState::BlackNorth,
        )
    }

    /// In the anchored state, a walk over black stones without a tag leads
    /// from a north-tagged stone of the top row to a neighbour of a
    /// south-tagged stone.
    pub open spec fn black_crosses(&self, s: Seq<CellState>) -> bool {
        let a = self.anchored(s);
        self.meets(a, self.origins(a), CellState::Black, CellState::BlackSouth)
    }

    /// A cell of `s` holds a black stone.
    pub open spec fn has_black(s: Seq<CellState>) -> bool {
        exists|c: int| 0 <= c < s.len() && (#[trigger] s[c]).owner() == Some(HexPlayerColor::Black)
    }

    /// The winner of a filled board: Black where Black crosses, else White.
    /// On a board of one row, where the top row is the bottom row, Black
    /// crosses with any black stone.
    pub open spec fn winner_of(&self, s: Seq<CellState>) -> HexPlayerColor {
        if self.black_crosses(s) || (self.rows() == 1 && Self::has_black(s)) {
            HexPlayerColor::Black
        } else {
            HexPlayerColor::White
        }
    }

    /// The winner of a board without an empty cell. Anchors the black
    /// stones of the bottom and the top row, then searches from the top
    /// row over black stones without a tag, tagging them north, until it
    /// meets a south-tagged stone. Where it meets none, White has won, as
    /// a filled board has exactly one winner. On a board of one row the
    /// bottom row is the top row, and the search has no stone to start
    /// from: there Black has won where any cell holds a black stone.
    pub fn check_winner(&self, state: &mut Vec<CellState>) -> (winner: HexPlayerColor)
        requires
            self.wf(),
            old(state)@.len() == self.cells(),
            forall|c: int| 0 <= c < old(state)@.len() ==> old(state)@[c] != CellState::Empty,
        ensures
            winner == self.winner_of(old(state)@),
            self.cols() >= 1 && self.rows() >= 1 && self.check_ready(old(state)@) ==> self.crosses(
                old(state)@,
                winner,
            ) && !self.crosses(old(state)@, winner.opponent()),
            final(state)@.len() == old(state)@.len(),
            forall|c: int|
                0 <= c < old(state)@.len() ==> (#[trigger] final(state)@[c]).owner()
                    == old(state)@[c].owner(),
            forall|c: int|
                0 <= c < old(state)@.len() ==> #[trigger] final(state)@[c] == self.anchor(
                    old(state)@,
                    c,
                ) || (self.anchor(old(state)@, c) == CellState::Black && final(state)@[c]
                    == CellState::BlackNorth),
            winner == HexPlayerColor::White ==> forall|c: int|
                0 <= c < old(state)@.len() ==> #[trigger] final(state)@[c] == (if self.anchor(
                    old(state)@,
                    c,
                ) == CellState::Black && self.reachable(
                    self.origins(self.anchored(old(state)@)),
                    c,
                    cells_with(self.anchored(old(state)@), CellState::Black),
                ) {
                    CellState::BlackNorth
                } else {
                    self.anchor(old(state)@, c)
                }),
    {
        let ghost s0 = state@;
        let ghost a = self.anchored(s0);
        let ghost sources = self.origins(a);
        proof {
            self.lemma_rows();
            if self.cols() >= 1 && self.rows() >= 1 && self.check_ready(s0) {
                self.lemma_winner_crosses(s0);
            }
        }
        if self.size == 0 {
            proof {
                if self.black_crosses(s0) {
                    let (c, n) = choose|c: int, n: int|
                        self.reachable(sources, c, cells_with(a, CellState::Black))
                            && #[trigger] self.adjacent(c, n) && a[n] == CellState::BlackSouth;
                }
            }
            return HexPlayerColor::White;
        }
        let width = self.width;
        let size = self.size;
        let last_row = size - width;
        let mut pos: usize = last_row;
        while pos < size
            invariant
                self.wf(),
                size == self.cells(),
                width == self.cols(),
                last_row == size - width,
                last_row <= pos <= size,
                state@.len() == size,
                s0.len() == size,
                forall|c: int|
                    0 <= c < self.cells() ==> (#[trigger] in_last_row(
                        self.cols() as int,
                        self.rows() as int,
                        c,
                    ) <==> c >= self.cells() - self.cols()),
                forall|c: int|
                    0 <= c < size ==> #[trigger] state@[c] == (if last_row <= c < pos {
                        self.anchor(s0, c)
                    } else {
                        s0[c]
                    }),
            decreases size - pos,
        {
            if state[pos] == CellState::Black {
                state[pos] = CellState::BlackSouth;
            }
            pos += 1;
        }
        pos = width;
        while pos < last_row
            invariant
                self.wf(),
                size == self.cells(),
                width == self.cols(),
                last_row == size - width,
                width <= pos,
                state@.len() == size,
                s0.len() == size,
                forall|c: int|
                    0 <= c < self.cells() ==> (#[trigger] in_first_row(self.cols() as int, c) <==> c
                        < self.cols()),
                forall|c: int|
                    0 <= c < self.cells() ==> (#[trigger] in_last_row(
                        self.cols() as int,
                        self.rows() as int,
                        c,
                    ) <==> c >= self.cells() - self.cols()),
                forall|c: int|
                    0 <= c < size ==> #[trigger] state@[c] == (if last_row <= c || (width <= c
                        < pos) {
                        self.anchor(s0, c)
                    } else {
                        s0[c]
                    }),
            decreases last_row - pos,
        {
            if state[pos] == CellState::BlackNorth {
                state[pos] = CellState::Black;
            }
            pos += 1;
        }
        pos = 0;
        while pos < width
            invariant
                self.wf(),
                size == self.cells(),
                width == self.cols(),
                last_row == size - width,
                0 < width <= size,
                pos <= width,
                state@.len() == size,
                s0.len() == size,
                forall|c: int|
                    0 <= c < self.cells() ==> (#[trigger] in_first_row(self.cols() as int, c) <==> c
                        < self.cols()),
                forall|c: int|
                    0 <= c < self.cells() ==> (#[trigger] in_last_row(
                        self.cols() as int,
                        self.rows() as int,
                        c,
                    ) <==> c >= self.cells() - self.cols()),
                forall|c: int|
                    0 <= c < size ==> #[trigger] state@[c] == (if last_row <= c || width <= c || c
                        < pos {
                        self.anchor(s0, c)
                    } else {
                        s0[c]
                    }),
            decreases width - pos,
        {
            if state[pos] == CellState::Black {
                state[pos] = CellState::BlackNorth;
            }
            pos += 1;
        }
        assert(state@ =~= a);
        let mut stack: Vec<usize> = Vec::new();
        pos = width;
        while pos > 0
            invariant
                self.wf(),
                size == self.cells(),
                width == self.cols(),
                0 < width <= size,
                pos <= width,
                state@ == a,
                a.len() == size,
                sources == self.origins(a),
                forall|c: int|
                    0 <= c < self.cells() ==> (#[trigger] in_first_row(self.cols() as int, c) <==> c
                        < self.cols()),
                forall|i: int| 0 <= i < stack@.len() ==> sources.contains(#[trigger] stack@[i] as int),
                forall|f: int|
                    sources.contains(f) && f >= pos ==> exists|i: int|
                        0 <= i < stack@.len() && stack@[i] == f,
            decreases pos,
        {
            pos -= 1;
            if state[pos] == CellState::BlackNorth {
                let ghost prev = stack@;
                stack.push(pos);
                proof {
                    assert forall|f: int| sources.contains(f) && f >= pos implies exists|i: int|
                        0 <= i < stack@.len() && stack@[i] == f by {
                        if f == pos {
                            assert(stack@[stack@.len() - 1] == f);
                        } else {
                            let i = choose|i: int| 0 <= i < prev.len() && prev[i] == f;
                            assert(stack@[i] == f);
                        }
                    }
                }
            }
        }
        let hit = self.flood(
            state,
            stack,
            CellState::Black,
            CellState::BlackNorth,
            Some(CellState::BlackSouth),
            Ghost(sources),
        );
        if hit {
            return HexPlayerColor::Black;
        }
        if self.height != 1 {
            return HexPlayerColor::White;
        }
        proof {
            assert forall|c: int| 0 <= c < s0.len() implies (#[trigger] state@[c]).owner()
                == s0[c].owner() by {
                let _ = a[c];
            }
        }
        let mut found = false;
        let mut pos: usize = 0;
        while pos < state.len()
            invariant
                pos <= state@.len(),
                state@.len() == s0.len(),
                forall|c: int| 0 <= c < s0.len() ==> (#[trigger] state@[c]).owner() == s0[c].owner(),
                found ==> Self::has_black(s0),
                !found ==> forall|c: int|
                    0 <= c < pos ==> (#[trigger] s0[c]).owner() != Some(HexPlayerColor::Black),
            decreases state@.len() - pos,
        {
            match state[pos].color() {
                Some(HexPlayerColor::Black) => {
                    proof {
                        assert(s0[pos as int].owner() == Some(HexPlayerColor::Black));
                    }
                    found = true;
                },
                _ => {},
            }
            pos += 1;
        }
        if found {
            HexPlayerColor::Black
        } else {
            HexPlayerColor::White
        }
    }

    /// The winner check finds the same winner when it is run again on the
    /// state that it has left, or on any state that differs from the
    /// anchored one only by north tags on black stones that had none.
    pub proof fn lemma_winner_stable(&self, s: Seq<CellState>, t: Seq<CellState>)
        requires
            self.wf(),
            s.len() == self.cells(),
            t.len() == s.len(),
            forall|c: int|
                0 <= c < s.len() ==> #[trigger] t[c] == self.anchor(s, c) || (self.anchor(s, c)
                    == CellState::Black && t[c] == CellState::BlackNorth),
        ensures
            self.anchored(t) == self.anchored(s),
            self.winner_of(t) == self.winner_of(s),
    {
        assert forall|c: int| 0 <= c < s.len() implies self.anchor(t, c) == self.anchor(s, c)
            && t[c].owner() == s[c].owner() by {
            let _ = t[c];
        }
        assert(self.anchored(t) =~= self.anchored(s));
        if Self::has_black(s) {
            let c = choose|c: int|
                0 <= c < s.len() && (#[trigger] s[c]).owner() == Some(HexPlayerColor::Black);
            assert(t[c].owner() == Some(HexPlayerColor::Black));
        }
        if Self::has_black(t) {
            let c = choose|c: int|
                0 <= c < t.len() && (#[trigger] t[c]).owner() == Some(HexPlayerColor::Black);
            assert(s[c].owner() == Some(HexPlayerColor::Black));
        }
    }
}

} // verus!

//! What the tags mean. The stones of one side fall into groups, linked by
//! walks over stones of that side; a tag says which borders the group of
//! its stone reaches. A state is well tagged where every tag says so
//! rightly and no group reaches both borders of its side. On such a
//! state, a move wins exactly when it joins the two borders, and any other
//! move leaves the state well tagged.

use vstd::prelude::*;
use crate::connect::lemma_linked_end;
use crate::connect::lemma_linked_leaves;
use crate::connect::lemma_linked_mono;
use crate::connect::lemma_linked_self;
use crate::connect::lemma_linked_step;
use crate::connect::lemma_linked_sym;
use crate::connect::lemma_linked_trans;
use crate::connect::lemma_linked_without;
use crate::connect::lemma_walk_prefix;
use crate::connect::is_walk;
use crate::topology::adjacent;
use crate::topology::in_first_row;
use crate::topology::in_last_row;
use crate::hex::cells_with;
use crate::hex::CellState;
use crate::hex::HexBoard;
use crate::hex::HexPlayerColor;

verus! {

/// The cells of `s` that hold a stone of `player`.
pub open spec fn stones(s: Seq<CellState>, player: HexPlayerColor) -> Set<int> {
    Set::new(|c: int| 0 <= c < s.len() && s[c].owner() == Some(player))
}

/// The tag of a stone of `player` whose group reaches the first border
/// (`low`), the second (`high`), both or neither.
pub open spec fn tag_for(player: HexPlayerColor, low: bool, high: bool) -> CellState {
    if low && high {
        CellState::win_tag(player)
    } else if low {
        CellState::low_tag(player)
    } else if high {
        CellState::high_tag(player)
    } else {
        CellState::plain_tag(player)
    }
}

impl HexBoard {
    /// `b` lies on a border of `player`: the second where `high`, else the
    /// first.
    pub open spec fn on_border(&self, player: HexPlayerColor, b: int, high: bool) -> bool {
        if high {
            self.on_high_border(player, b)
        } else {
            self.on_low_border(player, b)
        }
    }

    /// A walk over stones of `player` leads from `c` to a border of
    /// `player`: the second where `high`, else the first.
    pub open spec fn joins(
        &self,
        s: Seq<CellState>,
        player: HexPlayerColor,
        c: int,
        high: bool,
    ) -> bool {
        exists|b: int|
            0 <= b < self.cells() && self.on_border(player, b, high) && #[trigger] self.linked(
                c,
                b,
                stones(s, player),
            )
    }

    /// A stone of `player` on `pos` would be known to reach a border of
    /// `player`: the second where `high`, else the first.
    pub open spec fn reaches(
        &self,
        s: Seq<CellState>,
        player: HexPlayerColor,
        pos: int,
        high: bool,
    ) -> bool {
        if high {
            self.reaches_high(s, player, pos)
        } else {
            self.reaches_low(s, player, pos)
        }
    }

    /// Every stone carries the tag of the borders that its group reaches,
    /// and no group reaches both borders of its side.
    pub open spec fn well_tagged(&self, s: Seq<CellState>) -> bool {
        forall|c: int|
            0 <= c < s.len() ==> match (#[trigger] s[c]).owner() {
                None => true,
                Some(p) => s[c] == tag_for(p, self.joins(s, p, c, false), self.joins(s, p, c, true))
                    && !(self.joins(s, p, c, false) && self.joins(s, p, c, true)),
            }
    }

    /// A walk over stones of `player` leads from a stone on the first
    /// border of `player` to one on the second.
    pub open spec fn crosses(&self, s: Seq<CellState>, player: HexPlayerColor) -> bool {
        exists|a: int, b: int|
            stones(s, player).contains(a) && stones(s, player).contains(b) && self.on_low_border(
                player,
                a,
            ) && self.on_high_border(player, b) && #[trigger] self.linked(a, b, stones(s, player))
    }

    /// A board without stones is well tagged.
    pub proof fn lemma_empty_well_tagged(&self, s: Seq<CellState>)
        requires
            forall|c: int| 0 <= c < s.len() ==> s[c] == CellState::Empty,
        ensures
            self.well_tagged(s),
    {
    }

    /// A move adds the cell to the stones of the side that moves, and
    /// leaves every other stone with its side.
    pub proof fn lemma_stones_after_move(
        &self,
        s: Seq<CellState>,
        player: HexPlayerColor,
        pos: int,
    )
        requires
            s.len() == self.cells(),
            0 <= pos < self.cells(),
            s[pos] == CellState::Empty,
        ensures
            self.after_move(s, player, pos).len() == s.len(),
            self.after_move(s, player, pos)[pos] == self.move_tag(s, player, pos),
            forall|c: int|
                0 <= c < s.len() && c != pos ==> (#[trigger] self.after_move(s, player, pos)[c]).owner()
                    == s[c].owner(),
            stones(self.after_move(s, player, pos), player) == stones(s, player).insert(pos),
            stones(self.after_move(s, player, pos), player.opponent()) == stones(
                s,
                player.opponent(),
            ),
            stones(s, player).insert(pos).remove(pos) == stones(s, player),
    {
        let t = self.after_move(s, player, pos);
        assert(stones(t, player) =~= stones(s, player).insert(pos));
        assert(stones(t, player.opponent()) =~= stones(s, player.opponent()));
        assert(stones(s, player).insert(pos).remove(pos) =~= stones(s, player));
    }

    /// Two stones of one group reach the same borders.
    pub proof fn lemma_same_group(
        &self,
        s: Seq<CellState>,
        player: HexPlayerColor,
        a: int,
        b: int,
        high: bool,
    )
        requires
            stones(s, player).contains(a),
            self.linked(a, b, stones(s, player)),
        ensures
            self.joins(s, player, a, high) == self.joins(s, player, b, high),
    {
        let w = self.cols() as int;
        let h = self.rows() as int;
        let t = stones(s, player);
        if self.joins(s, player, a, high) {
            let x = choose|x: int|
                0 <= x < self.cells() && self.on_border(player, x, high) && #[trigger] self.linked(
                    a,
                    x,
                    t,
                );
            lemma_linked_sym(w, h, a, b, t);
            lemma_linked_trans(w, h, b, a, x, t);
            assert(self.linked(b, x, t));
        }
        if self.joins(s, player, b, high) {
            let x = choose|x: int|
                0 <= x < self.cells() && self.on_border(player, x, high) && #[trigger] self.linked(
                    b,
                    x,
                    t,
                );
            lemma_linked_trans(w, h, a, b, x, t);
            assert(self.linked(a, x, t));
        }
    }

    /// On a well-tagged state, two stones of one group carry the same tag.
    pub proof fn lemma_same_tag(&self, s: Seq<CellState>, player: HexPlayerColor, a: int, b: int)
        requires
            self.well_tagged(s),
            stones(s, player).contains(a),
            self.linked(a, b, stones(s, player)),
        ensures
            s[a] == s[b],
            stones(s, player).contains(b),
    {
        if a != b {
            lemma_linked_end(self.cols() as int, self.rows() as int, a, b, stones(s, player));
            self.lemma_same_group(s, player, a, b, false);
            self.lemma_same_group(s, player, a, b, true);
            let _ = s[a];
            let _ = s[b];
        }
    }

    /// On a well-tagged state, the stone that is placed on `pos` reaches a
    /// border exactly when the move finds it to: when `pos` lies on the
    /// border or next to a stone that carries the border's tag.
    pub proof fn lemma_reaches_iff_joins(
        &self,
        s: Seq<CellState>,
        player: HexPlayerColor,
        pos: int,
        high: bool,
    )
        requires
            self.wf(),
            s.len() == self.cells(),
            self.well_tagged(s),
            0 <= pos < self.cells(),
            s[pos] == CellState::Empty,
        ensures
            self.reaches(s, player, pos, high) == self.joins(
                self.after_move(s, player, pos),
                player,
                pos,
                high,
            ),
    {
        let w = self.cols() as int;
        let h = self.rows() as int;
        let after = self.after_move(s, player, pos);
        let before_stones = stones(s, player);
        let after_stones = stones(after, player);
        let tag = if high {
            CellState::high_tag(player)
        } else {
            CellState::low_tag(player)
        };
        self.lemma_stones_after_move(s, player, pos);
        if self.reaches(s, player, pos, high) {
            if self.on_border(player, pos, high) {
                lemma_linked_self(w, h, pos, after_stones);
                assert(self.linked(pos, pos, after_stones));
            } else {
                assert(self.touches(s, pos, tag));
                let n = choose|n: int| #[trigger] self.adjacent(pos, n) && s[n] == tag;
                assert(s[n].owner() == Some(player));
                assert(self.joins(s, player, n, high));
                let b = choose|b: int|
                    0 <= b < self.cells() && self.on_border(player, b, high)
                        && #[trigger] self.linked(n, b, before_stones);
                lemma_linked_mono(w, h, n, b, before_stones, after_stones);
                lemma_linked_self(w, h, pos, after_stones);
                lemma_linked_step(w, h, pos, pos, n, after_stones);
                lemma_linked_trans(w, h, pos, n, b, after_stones);
                assert(self.linked(pos, b, after_stones));
            }
        }
        if self.joins(after, player, pos, high) {
            let b = choose|b: int|
                0 <= b < self.cells() && self.on_border(player, b, high) && #[trigger] self.linked(
                    pos,
                    b,
                    after_stones,
                );
            if b != pos {
                let n = lemma_linked_leaves(w, h, pos, b, after_stones);
                assert(self.linked(n, b, before_stones));
                assert(self.joins(s, player, n, high));
                assert(s[n].owner() == Some(player));
                assert(s[n] == tag);
                assert(self.adjacent(pos, n));
                assert(self.touches(s, pos, tag));
            }
        }
    }

    /// A stone that no walk links to the new stone reaches the borders that
    /// it reached before the move, and keeps its tag.
    pub proof fn lemma_outside_group(
        &self,
        s: Seq<CellState>,
        player: HexPlayerColor,
        pos: int,
        c: int,
        high: bool,
    )
        requires
            self.wf(),
            s.len() == self.cells(),
            0 <= pos < self.cells(),
            s[pos] == CellState::Empty,
            stones(s, player).contains(c),
            !self.linked(pos, c, stones(self.after_move(s, player, pos), player)),
        ensures
            self.joins(self.after_move(s, player, pos), player, c, high) == self.joins(
                s,
                player,
                c,
                high,
            ),
            self.after_move(s, player, pos)[c] == s[c],
    {
        let w = self.cols() as int;
        let h = self.rows() as int;
        let after = self.after_move(s, player, pos);
        let before_stones = stones(s, player);
        let after_stones = stones(after, player);
        self.lemma_stones_after_move(s, player, pos);
        if self.joins(s, player, c, high) {
            let b = choose|b: int|
                0 <= b < self.cells() && self.on_border(player, b, high) && #[trigger] self.linked(
                    c,
                    b,
                    before_stones,
                );
            lemma_linked_mono(w, h, c, b, before_stones, after_stones);
            assert(self.linked(c, b, after_stones));
        }
        if self.linked(c, pos, after_stones) {
            lemma_linked_sym(w, h, c, pos, after_stones);
        }
        if self.joins(after, player, c, high) {
            let b = choose|b: int|
                0 <= b < self.cells() && self.on_border(player, b, high) && #[trigger] self.linked(
                    c,
                    b,
                    after_stones,
                );
            lemma_linked_without(w, h, c, b, after_stones, pos);
            assert(self.linked(c, b, before_stones));
        }
        let plain = CellState::plain_tag(player);
        if s[c] == plain && self.linked(pos, c, cells_with(s, plain)) {
            lemma_linked_mono(w, h, pos, c, cells_with(s, plain), after_stones);
        }
    }

    /// On a well-tagged state, a walk over stones without a tag passes only
    /// stones without a tag, so the stones of a group without a tag are
    /// linked by walks over such stones.
    proof fn lemma_plain_group(&self, s: Seq<CellState>, player: HexPlayerColor, n: int, c: int)
        requires
            self.well_tagged(s),
            stones(s, player).contains(n),
            s[n] == CellState::plain_tag(player),
            self.linked(n, c, stones(s, player)),
        ensures
            self.linked(n, c, cells_with(s, CellState::plain_tag(player))),
    {
        let w = self.cols() as int;
        let h = self.rows() as int;
        let t = stones(s, player);
        let plain = CellState::plain_tag(player);
        let p = choose|p: Seq<int>| is_walk(w, h, p, n, c, t);
        assert forall|i: int| 1 <= i < p.len() implies cells_with(s, plain).contains(
            #[trigger] p[i],
        ) by {
            lemma_walk_prefix(w, h, p, n, c, t, i);
            self.lemma_same_tag(s, player, n, p[i]);
        }
        assert(is_walk(w, h, p, n, c, cells_with(s, plain)));
    }

    /// On a well-tagged state, every stone that a walk links to the new
    /// stone reaches the borders that the move found the new stone to
    /// reach, and, where the move does not win, carries its tag.
    pub proof fn lemma_inside_group(
        &self,
        s: Seq<CellState>,
        player: HexPlayerColor,
        pos: int,
        c: int,
    )
        requires
            self.wf(),
            s.len() == self.cells(),
            self.well_tagged(s),
            0 <= pos < self.cells(),
            s[pos] == CellState::Empty,
            self.linked(pos, c, stones(self.after_move(s, player, pos), player)),
        ensures
            self.joins(self.after_move(s, player, pos), player, c, false) == self.reaches_low(
                s,
                player,
                pos,
            ),
            self.joins(self.after_move(s, player, pos), player, c, true) == self.reaches_high(
                s,
                player,
                pos,
            ),
            self.move_tag(s, player, pos) != CellState::win_tag(player) ==> self.after_move(
                s,
                player,
                pos,
            )[c] == self.move_tag(s, player, pos),
    {
        let w = self.cols() as int;
        let h = self.rows() as int;
        let after = self.after_move(s, player, pos);
        let before_stones = stones(s, player);
        let after_stones = stones(after, player);
        let tag = self.move_tag(s, player, pos);
        let plain = CellState::plain_tag(player);
        self.lemma_stones_after_move(s, player, pos);
        self.lemma_reaches_iff_joins(s, player, pos, false);
        self.lemma_reaches_iff_joins(s, player, pos, true);
        self.lemma_same_group(after, player, pos, c, false);
        self.lemma_same_group(after, player, pos, c, true);
        if c != pos && tag != CellState::win_tag(player) {
            let n = lemma_linked_leaves(w, h, pos, c, after_stones);
            assert(self.linked(n, c, before_stones));
            self.lemma_same_tag(s, player, n, c);
            assert(self.adjacent(pos, n));
            let _ = s[n];
            if s[n] == CellState::low_tag(player) {
                assert(self.touches(s, pos, CellState::low_tag(player)));
            } else if s[n] == CellState::high_tag(player) {
                assert(self.touches(s, pos, CellState::high_tag(player)));
            } else {
                assert(s[n] == plain);
                if tag != plain {
                    self.lemma_plain_group(s, player, n, c);
                    lemma_linked_self(w, h, pos, cells_with(s, plain));
                    lemma_linked_step(w, h, pos, pos, n, cells_with(s, plain));
                    lemma_linked_trans(w, h, pos, n, c, cells_with(s, plain));
                    assert(self.linked(pos, c, cells_with(s, plain)));
                }
            }
        }
    }

    /// On a well-tagged state, a move that does not win leaves the state
    /// well tagged.
    pub proof fn lemma_move_keeps_well_tagged(
        &self,
        s: Seq<CellState>,
        player: HexPlayerColor,
        pos: int,
    )
        requires
            self.wf(),
            s.len() == self.cells(),
            self.well_tagged(s),
            0 <= pos < self.cells(),
            s[pos] == CellState::Empty,
            self.move_tag(s, player, pos) != CellState::win_tag(player),
        ensures
            self.well_tagged(self.after_move(s, player, pos)),
    {
        let w = self.cols() as int;
        let h = self.rows() as int;
        let after = self.after_move(s, player, pos);
        let after_stones = stones(after, player);
        self.lemma_stones_after_move(s, player, pos);
        lemma_linked_self(w, h, pos, after_stones);
        assert forall|c: int| 0 <= c < after.len() implies match (#[trigger] after[c]).owner() {
            None => true,
            Some(p) => after[c] == tag_for(
                p,
                self.joins(after, p, c, false),
                self.joins(after, p, c, true),
            ) && !(self.joins(after, p, c, false) && self.joins(after, p, c, true)),
        } by {
            let _ = s[c];
            if after[c].owner() == Some(player) {
                if self.linked(pos, c, after_stones) {
                    self.lemma_inside_group(s, player, pos, c);
                } else {
                    self.lemma_outside_group(s, player, pos, c, false);
                    self.lemma_outside_group(s, player, pos, c, true);
                }
            } else if after[c].owner() == Some(player.opponent()) {
                assert(after[c] == s[c]);
            }
        }
    }

    /// On a well-tagged state no side has joined its borders yet, and a
    /// move wins exactly when it joins the borders of the side that moves.
    pub proof fn lemma_win_iff_crosses(&self, s: Seq<CellState>, player: HexPlayerColor, pos: int)
        requires
            self.wf(),
            s.len() == self.cells(),
            self.well_tagged(s),
            0 <= pos < self.cells(),
            s[pos] == CellState::Empty,
        ensures
            !self.crosses(s, player),
            self.crosses(self.after_move(s, player, pos), player) <==> self.move_tag(s, player, pos)
                == CellState::win_tag(player),
    {
        let w = self.cols() as int;
        let h = self.rows() as int;
        let after = self.after_move(s, player, pos);
        let before_stones = stones(s, player);
        let after_stones = stones(after, player);
        self.lemma_stones_after_move(s, player, pos);
        if self.crosses(s, player) {
            let (a, b) = choose|a: int, b: int|
                before_stones.contains(a) && before_stones.contains(b) && self.on_low_border(
                    player,
                    a,
                ) && self.on_high_border(player, b) && #[trigger] self.linked(a, b, before_stones);
            lemma_linked_self(w, h, a, before_stones);
            assert(self.linked(a, a, before_stones));
            assert(self.joins(s, player, a, false));
            assert(self.joins(s, player, a, true));
            let _ = s[a];
        }
        self.lemma_reaches_iff_joins(s, player, pos, false);
        self.lemma_reaches_iff_joins(s, player, pos, true);
        if self.move_tag(s, player, pos) == CellState::win_tag(player) {
            let a = choose|a: int|
                0 <= a < self.cells() && self.on_border(player, a, false) && #[trigger] self.linked(
                    pos,
                    a,
                    after_stones,
                );
            let b = choose|b: int|
                0 <= b < self.cells() && self.on_border(player, b, true) && #[trigger] self.linked(
                    pos,
                    b,
                    after_stones,
                );
            if a != pos {
                lemma_linked_end(w, h, pos, a, after_stones);
            }
            if b != pos {
                lemma_linked_end(w, h, pos, b, after_stones);
            }
            lemma_linked_sym(w, h, pos, a, after_stones);
            lemma_linked_trans(w, h, a, pos, b, after_stones);
            assert(self.linked(a, b, after_stones));
        }
        if self.crosses(after, player) {
            let (a, b) = choose|a: int, b: int|
                after_stones.contains(a) && after_stones.contains(b) && self.on_low_border(
                    player,
                    a,
                ) && self.on_high_border(player, b) && #[trigger] self.linked(a, b, after_stones);
            lemma_linked_self(w, h, a, after_stones);
            assert(self.linked(a, a, after_stones));
            assert(self.joins(after, player, a, false));
            assert(self.joins(after, player, a, true));
            if self.linked(pos, a, after_stones) {
                self.lemma_inside_group(s, player, pos, a);
            } else {
                lemma_linked_self(w, h, pos, after_stones);
                self.lemma_outside_group(s, player, pos, a, false);
                self.lemma_outside_group(s, player, pos, a, true);
                let _ = s[a];
            }
        }
    }

    /// The state is fit for the winner check: it has no empty cell and no
    /// black stone that won; no north tag lies in the bottom row and no
    /// south tag in the top row; and the group of every south-tagged stone
    /// reaches the bottom row.
    pub open spec fn check_ready(&self, s: Seq<CellState>) -> bool {
        forall|c: int|
            0 <= c < s.len() ==> {
                &&& #[trigger] s[c] != CellState::Empty
                &&& s[c] != CellState::BlackWin
                &&& s[c] == CellState::BlackNorth ==> !in_last_row(
                    self.cols() as int,
                    self.rows() as int,
                    c,
                )
                &&& s[c] == CellState::BlackSouth ==> !in_first_row(self.cols() as int, c)
                    && self.joins(s, HexPlayerColor::Black, c, true)
            }
    }

    /// The winner check finds Black exactly when a walk over black stones
    /// joins the top row to the bottom row.
    pub proof fn lemma_winner_iff_crosses(&self, s: Seq<CellState>)
        requires
            self.wf(),
            s.len() == self.cells(),
            self.check_ready(s),
        ensures
            self.winner_of(s) == HexPlayerColor::Black <==> self.crosses(s, HexPlayerColor::Black),
    {
        if self.rows() == 1 {
            if Self::has_black(s) {
                let c = choose|c: int|
                    0 <= c < s.len() && (#[trigger] s[c]).owner() == Some(HexPlayerColor::Black);
                crate::topology::lemma_coords_index(self.cols() as int, self.rows() as int, c);
                lemma_linked_self(
                    self.cols() as int,
                    self.rows() as int,
                    c,
                    stones(s, HexPlayerColor::Black),
                );
                assert(self.linked(c, c, stones(s, HexPlayerColor::Black)));
            }
            if self.crosses(s, HexPlayerColor::Black) {
                let (x, y) = choose|x: int, y: int|
                    stones(s, HexPlayerColor::Black).contains(x) && stones(
                        s,
                        HexPlayerColor::Black,
                    ).contains(y) && self.on_low_border(HexPlayerColor::Black, x)
                        && self.on_high_border(HexPlayerColor::Black, y) && #[trigger] self.linked(
                        x,
                        y,
                        stones(s, HexPlayerColor::Black),
                    );
                assert(s[x].owner() == Some(HexPlayerColor::Black));
            }
        }
        let w = self.cols() as int;
        let h = self.rows() as int;
        let black = HexPlayerColor::Black;
        let a = self.anchored(s);
        let from_set = self.origins(a);
        let plain = cells_with(a, CellState::Black);
        let all = stones(s, black);
        assert forall|c: int| plain.contains(c) implies all.contains(c) by {
            let _ = s[c];
        }
        if self.black_crosses(s) {
            let (c, n) = choose|c: int, n: int|
                self.reachable(from_set, c, plain) && #[trigger] self.adjacent(c, n) && a[n]
                    == CellState::BlackSouth;
            let from = choose|from: int| from_set.contains(from) && self.linked(from, c, plain);
            let _ = s[from];
            let _ = s[n];
            lemma_linked_mono(w, h, from, c, plain, all);
            lemma_linked_step(w, h, from, c, n, all);
            if s[n] == CellState::BlackSouth {
                let b = choose|b: int|
                    0 <= b < self.cells() && self.on_border(black, b, true)
                        && #[trigger] self.linked(n, b, all);
                if b != n {
                    lemma_linked_end(w, h, n, b, all);
                }
                lemma_linked_trans(w, h, from, n, b, all);
                assert(self.linked(from, b, all));
            } else {
                assert(self.linked(from, n, all));
            }
        }
        if self.rows() != 1 && self.crosses(s, black) {
            let (x, y) = choose|x: int, y: int|
                all.contains(x) && all.contains(y) && self.on_low_border(black, x)
                    && self.on_high_border(black, y) && #[trigger] self.linked(x, y, all);
            let p = choose|p: Seq<int>| is_walk(w, h, p, x, y, all);
            let south = Set::new(|c: int| 0 <= c < a.len() && a[c] == CellState::BlackSouth);
            let _ = s[x];
            let _ = s[y];
            assert(from_set.contains(p[0]));
            assert(south.contains(p[p.len() - 1]));
            let j = lemma_first_hit(p, south, p.len() - 1);
            let i = lemma_last_hit(p, from_set, 0, j);
            let q = p.subrange(i, j);
            assert forall|k: int| 0 <= k < q.len() - 1 implies adjacent(
                w,
                h,
                #[trigger] q[k],
                q[k + 1],
            ) by {
                assert(q[k] == p[k + i] && q[k + 1] == p[k + i + 1]);
                assert(adjacent(w, h, p[k + i], p[k + i + 1]));
            }
            assert forall|k: int| 1 <= k < q.len() implies plain.contains(#[trigger] q[k]) by {
                let c = p[k + i];
                assert(q[k] == c);
                assert(all.contains(c));
                let _ = s[c];
                assert(!south.contains(c));
                assert(!from_set.contains(c));
            }
            assert(is_walk(w, h, q, p[i], p[j - 1], plain));
            assert(self.linked(p[i], p[j - 1], plain));
            assert(self.reachable(from_set, p[j - 1], plain));
            assert(adjacent(w, h, p[j - 1], p[j - 1 + 1]));
            assert(self.adjacent(p[j - 1], p[j]));
        }
    }
}

/// The first cell of a walk that lies in `goal`.
proof fn lemma_first_hit(p: Seq<int>, goal: Set<int>, k: int) -> (j: int)
    requires
        0 <= k < p.len(),
        goal.contains(p[k]),
    ensures
        0 <= j <= k,
        goal.contains(p[j]),
        forall|i: int| 0 <= i < j ==> !goal.contains(#[trigger] p[i]),
    decreases k,
{
    if exists|i: int| 0 <= i < k && goal.contains(#[trigger] p[i]) {
        let i = choose|i: int| 0 <= i < k && goal.contains(#[trigger] p[i]);
        lemma_first_hit(p, goal, i)
    } else {
        k
    }
}

/// The last cell of a walk before its cell `j` that lies in `goal`.
proof fn lemma_last_hit(p: Seq<int>, goal: Set<int>, k: int, j: int) -> (i: int)
    requires
        0 <= k < j <= p.len(),
        goal.contains(p[k]),
    ensures
        k <= i < j,
        goal.contains(p[i]),
        forall|m: int| i < m < j ==> !goal.contains(#[trigger] p[m]),
    decreases j - k,
{
    if exists|m: int| k < m < j && goal.contains(#[trigger] p[m]) {
        let m = choose|m: int| k < m < j && goal.contains(#[trigger] p[m]);
        lemma_last_hit(p, goal, m, j)
    } else {
        k
    }
}

} // verus!

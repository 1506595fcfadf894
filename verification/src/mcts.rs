//! Monte-Carlo tree search for the next move.

use vstd::prelude::*;
use rand::rngs::SmallRng;
use crate::hex::CellState;
use crate::hex::HexBoard;
use crate::hex::HexPlayerColor;
use crate::hex::switch_player;
use crate::groups::stones;
use crate::connect::lemma_linked_mono;
use crate::connect::lemma_linked_self;
use crate::rng::entropy_rng;
use crate::rng::seeded_rng;
use crate::rng::shuffle_cells;
use vstd::seq_lib::to_multiset_contains;

verus! {

/// The state in which every empty cell of `s` holds an untagged stone of
/// `player`.
pub open spec fn filled(s: Seq<CellState>, player: HexPlayerColor) -> Seq<CellState> {
    Seq::new(
        s.len(),
        |c: int|
            if s[c] == CellState::Empty {
                CellState::plain_tag(player)
            } else {
                s[c]
            },
    )
}

/// A well-tagged state, filled, is fit for the winner check.
pub proof fn lemma_filled_ready(board: HexBoard, s: Seq<CellState>, player: HexPlayerColor)
    requires
        board.wf(),
        s.len() == board.cells(),
        board.well_tagged(s),
    ensures
        board.check_ready(filled(s, player)),
{
    let w = board.cols() as int;
    let h = board.rows() as int;
    let black = HexPlayerColor::Black;
    let f = filled(s, player);
    assert forall|c: int| stones(s, black).contains(c) implies stones(f, black).contains(c) by {
        let _ = f[c];
    }
    assert forall|c: int| 0 <= c < f.len() implies {
        &&& #[trigger] f[c] != CellState::Empty
        &&& f[c] != CellState::BlackWin
        &&& f[c] == CellState::BlackNorth ==> !crate::topology::in_last_row(w, h, c)
        &&& f[c] == CellState::BlackSouth ==> !crate::topology::in_first_row(w, c) && board.joins(
            f,
            black,
            c,
            true,
        )
    } by {
        let _ = s[c];
        lemma_linked_self(w, h, c, stones(s, black));
        assert(board.linked(c, c, stones(s, black)));
        if f[c] == CellState::BlackSouth {
            let b = choose|b: int|
                0 <= b < board.cells() && board.on_border(black, b, true) && #[trigger] board.linked(
                    c,
                    b,
                    stones(s, black),
                );
            lemma_linked_mono(w, h, c, b, stones(s, black), stones(f, black));
            assert(board.linked(c, b, stones(f, black)));
        }
    }
}

/// Played out from a well-tagged state, the winner is Black exactly when a walk over black stones joins the top
/// row of the filled board to its bottom row; and the winner, Black or
/// White, has joined its borders on the filled board, and the other side
/// has not.
pub proof fn lemma_playout_winner(board: HexBoard, s: Seq<CellState>, player: HexPlayerColor)
    requires
        board.wf(),
        s.len() == board.cells(),
        1 <= board.cols(),
        1 <= board.rows(),
        board.well_tagged(s),
    ensures
        board.winner_of(filled(s, player)) == HexPlayerColor::Black <==> board.crosses(
            filled(s, player),
            HexPlayerColor::Black,
        ),
        board.crosses(filled(s, player), board.winner_of(filled(s, player))),
        !board.crosses(filled(s, player), board.winner_of(filled(s, player)).opponent()),
{
    lemma_filled_ready(board, s, player);
    board.lemma_winner_iff_crosses(filled(s, player));
    board.lemma_winner_crosses(filled(s, player));
}

/// The cell states that the bytes of a serialized board stand for.
pub open spec fn decoded(bytes: Seq<u8>) -> Seq<CellState> {
    Seq::new(bytes.len(), |i: int| CellState::of_code(bytes[i]))
}

/// `order` holds the empty cells of `s`, each once.
pub open spec fn orders_empty_cells(order: Seq<usize>, s: Seq<CellState>) -> bool {
    &&& order.no_duplicates()
    &&& forall|k: int|
        0 <= k < order.len() ==> (#[trigger] order[k]) < s.len() && s[order[k] as int]
            == CellState::Empty
    &&& forall|c: usize| c < s.len() && s[c as int] == CellState::Empty ==> order.contains(c)
}

/// The number of search rounds that a decision runs.
pub const ITERATIONS: u32 = 100;

/// The largest board that the search takes: on it the counters of a node
/// stay within `i32` for `ITERATIONS` rounds.
pub const MAX_CELLS: usize = 7_000_000;

/// The most that one round adds to the simulation counter of a node.
pub open spec fn round_gain(board: HexBoard) -> int {
    3 * (board.cells() as int) + 10
}

/// `w1 / s1` is above `w2 / s2`, for positive `s1` and `s2`.
pub open spec fn ratio_above(w1: int, s1: int, w2: int, s2: int) -> bool {
    w1 * s2 > w2 * s1
}

/// What the child for the move of `mover` onto the empty cell `e` of `s`
/// records when it is made, as simulations and wins: one of each where
/// the move wins outright; else three simulations, and three wins lost
/// where `mover` wins the playout of the state after the move, three wins
/// gained where the other side does.
pub open spec fn child_score(board: HexBoard, s: Seq<CellState>, mover: HexPlayerColor, e: int) -> (
    int,
    int,
) {
    if board.move_tag(s, mover, e) == CellState::win_tag(mover) {
        (1, 1)
    } else if board.winner_of(filled(board.after_move(s, mover, e), mover)) == mover {
        (3, -3)
    } else {
        (3, 3)
    }
}

/// The outcome of expanding a leaf of state `s`, over its cells below
/// `upto`: the sum of what the children record, the wins with the sign
/// turned.
pub open spec fn expansion_value(
    board: HexBoard,
    s: Seq<CellState>,
    mover: HexPlayerColor,
    upto: int,
) -> (int, int)
    decreases upto,
{
    if upto <= 0 {
        (0, 0)
    } else {
        let rest = expansion_value(board, s, mover, upto - 1);
        if s[upto - 1] == CellState::Empty {
            let score = child_score(board, s, mover, upto - 1);
            (rest.0 + score.0, rest.1 - score.1)
        } else {
            rest
        }
    }
}

/// What the descent puts to the policy at a node: the simulations of the
/// node, and the wins and simulations of the candidate child and of the
/// best child found so far.
pub struct Comparison {
    pub parent_sims: i32,
    pub candidate_wins: i32,
    pub candidate_sims: i32,
    pub best_wins: i32,
    pub best_sims: i32,
}

/// The best child after the policy has answered: the candidate where the
/// policy prefers it, else the best child so far.
pub fn preferred_child(best: usize, candidate: usize, preferred: bool) -> (next: usize)
    ensures
        next == (if preferred {
            candidate
        } else {
            best
        }),
{
    if preferred {
        candidate
    } else {
        best
    }
}

/// How the descent through the tree ranks the children of a node. The
/// search asks whether a candidate child is to be preferred to the best
/// child found so far, and hands over the simulation count of the parent
/// and the win and simulation counts of the two children.
pub trait SelectionPolicy {
    /// Whether the candidate is to take the place of the best child.
    fn prefers(
        &self,
        parent_sims: i32,
        candidate_wins: i32,
        candidate_sims: i32,
        best_wins: i32,
        best_sims: i32,
    ) -> bool;
}

/// A position of the search tree: the move that led to it, the state after
/// that move, and what the simulations through it have recorded.
struct Node {
    last_player: HexPlayerColor,
    last_move: usize,
    state: Vec<CellState>,
    children: Vec<usize>,
    num_sims: i32,
    num_wins: i32,
    win: bool,
}

impl Node {
    /// A node without children and without simulations.
    fn new(last_player: HexPlayerColor, last_move: usize, state: Vec<CellState>, win: bool) -> (node:
        Node)
        ensures
            node.last_player == last_player,
            node.last_move == last_move,
            node.state == state,
            node.children@.len() == 0,
            node.num_sims == 0,
            node.num_wins == 0,
            node.win == win,
    {
        Node {
            last_player,
            last_move,
            state,
            children: Vec::new(),
            num_sims: 0,
            num_wins: 0,
            win,
        }
    }

    /// The node has no children.
    fn is_leaf(&self) -> (leaf: bool)
        ensures
            leaf == (self.children@.len() == 0),
    {
        self.children.len() == 0
    }

    /// Adds `sims` to the simulations and `value` to the wins.
    fn update_stats(&mut self, sims: i32, value: i32)
        requires
            i32::MIN <= old(self).num_sims + sims <= i32::MAX,
            i32::MIN <= old(self).num_wins + value <= i32::MAX,
        ensures
            final(self).num_sims == old(self).num_sims + sims,
            final(self).num_wins == old(self).num_wins + value,
            final(self).last_player == old(self).last_player,
            final(self).last_move == old(self).last_move,
            final(self).state == old(self).state,
            final(self).children == old(self).children,
            final(self).win == old(self).win,
    {
        self.num_sims += sims;
        self.num_wins += value;
    }
}

/// The node that child `j` of node `id` refers to.
spec fn child_id(nodes: Seq<Node>, id: int, j: int) -> int {
    nodes[id].children@[j] as int
}

/// The move that leads to child `j` of node `id`.
spec fn child_move_of(nodes: Seq<Node>, id: int, j: int) -> int {
    nodes[child_id(nodes, id, j)].last_move as int
}

/// Child `j` of node `id` was made after its parent, by a move of the
/// other side onto an empty cell of the parent's state, and holds the
/// state after that move.
spec fn child_ok(board: HexBoard, nodes: Seq<Node>, id: int, j: int) -> bool {
    let c = child_id(nodes, id, j);
    let child = nodes[c];
    let parent = nodes[id];
    &&& id < c < nodes.len()
    &&& child.num_sims >= 1
    &&& child.last_player == parent.last_player.opponent()
    &&& 0 <= child.last_move < parent.state@.len()
    &&& parent.state@[child.last_move as int] == CellState::Empty
    &&& child.state@ == board.after_move(
        parent.state@,
        child.last_player,
        child.last_move as int,
    )
    &&& child.win <==> board.move_tag(parent.state@, child.last_player, child.last_move as int)
        == CellState::win_tag(child.last_player)
}

/// Child `j` of node `id` holds what it recorded when it was made.
spec fn scored(board: HexBoard, nodes: Seq<Node>, id: int, j: int) -> bool {
    let child = nodes[child_id(nodes, id, j)];
    (child.num_sims as int, child.num_wins as int) == child_score(
        board,
        nodes[id].state@,
        child.last_player,
        child.last_move as int,
    )
}

/// Each empty cell below `upto` of the state of node `id` is the move of
/// one of its children.
spec fn covers(nodes: Seq<Node>, id: int, upto: int) -> bool {
    forall|e: int|
        0 <= e < upto && #[trigger] nodes[id].state@[e] == CellState::Empty ==> exists|j: int|
            0 <= j < nodes[id].children@.len() && child_move_of(nodes, id, j) == e
}

/// Node `id` holds a state of the board, its counters are within what
/// `rounds` rounds can have added, and its children are in order, by
/// ascending move.
spec fn shape_ok(board: HexBoard, nodes: Seq<Node>, id: int, rounds: int) -> bool {
    let n = nodes[id];
    &&& n.state@.len() == board.cells()
    &&& 0 <= n.num_sims <= 3 + rounds * round_gain(board)
    &&& -n.num_sims <= n.num_wins <= n.num_sims
    &&& n.win ==> n.children@.len() == 0
    &&& forall|j: int| 0 <= j < n.children@.len() ==> #[trigger] child_ok(board, nodes, id, j)
    &&& forall|j: int, k: int|
        0 <= j < k < n.children@.len() ==> #[trigger] child_move_of(nodes, id, j)
            < #[trigger] child_move_of(nodes, id, k)
}

/// Node `id` is in order, and either a leaf or expanded: a node with
/// children has one for each empty cell of its state.
spec fn node_ok(board: HexBoard, nodes: Seq<Node>, id: int, rounds: int) -> bool {
    &&& shape_ok(board, nodes, id, rounds)
    &&& nodes[id].children@.len() > 0 ==> covers(nodes, id, board.cells() as int)
}

/// Node `id` is being expanded: it has a child for each empty cell below
/// `upto`, and for no other cell.
spec fn growing_ok(board: HexBoard, nodes: Seq<Node>, id: int, rounds: int, upto: int) -> bool {
    &&& shape_ok(board, nodes, id, rounds)
    &&& !nodes[id].win
    &&& covers(nodes, id, upto)
    &&& forall|j: int|
        0 <= j < nodes[id].children@.len() ==> #[trigger] child_move_of(nodes, id, j) < upto
}

/// No node is the child of two nodes, or twice the child of one.
spec fn single_parent(nodes: Seq<Node>) -> bool {
    forall|a: int, j: int, b: int, k: int|
        0 <= a < nodes.len() && 0 <= b < nodes.len() && 0 <= j < nodes[a].children@.len() && 0 <= k
            < nodes[b].children@.len() && #[trigger] child_id(nodes, a, j) == #[trigger] child_id(
            nodes,
            b,
            k,
        ) ==> a == b && j == k
}

/// Every node but `skip` is in order.
spec fn nodes_ok(board: HexBoard, nodes: Seq<Node>, rounds: int, skip: int) -> bool {
    forall|id: int| 0 <= id < nodes.len() && id != skip ==> #[trigger] node_ok(board, nodes, id, rounds)
}

/// The nodes of a path, as numbers.
spec fn as_ints(path: Seq<usize>) -> Seq<int> {
    Seq::new(path.len(), |k: int| path[k] as int)
}

/// Node `id` is among the first `k` nodes of `path`.
spec fn on_path(path: Seq<usize>, k: int, id: int) -> bool {
    exists|j: int| 0 <= j < k && #[trigger] path[j] == id
}

/// The tree of one decision: its root is the position to decide on, the
/// children of a node are the positions after each move of the other side.
pub struct SearchTree {
    nodes: Vec<Node>,
    rounds: u32,
}

impl SearchTree {
    /// The number of nodes of the tree. The nodes are numbered from 0, the
    /// root, in the order in which they were made.
    pub closed spec fn node_count(&self) -> nat {
        self.nodes@.len()
    }

    /// The state of the position of node `id`.
    pub closed spec fn node_state(&self, id: int) -> Seq<CellState> {
        self.nodes@[id].state@
    }

    /// The side that moved last in the position of node `id`.
    pub closed spec fn node_player(&self, id: int) -> HexPlayerColor {
        self.nodes@[id].last_player
    }

    /// The cell of the move that led to node `id`.
    pub closed spec fn node_move(&self, id: int) -> int {
        self.nodes@[id].last_move as int
    }

    /// The move that led to node `id` won the game.
    pub closed spec fn node_won(&self, id: int) -> bool {
        self.nodes@[id].win
    }

    /// The simulations that node `id` has recorded.
    pub closed spec fn node_sims(&self, id: int) -> int {
        self.nodes@[id].num_sims as int
    }

    /// The wins that node `id` has recorded.
    pub closed spec fn node_wins(&self, id: int) -> int {
        self.nodes@[id].num_wins as int
    }

    /// The number of children of node `id`.
    pub closed spec fn degree(&self, id: int) -> nat {
        self.nodes@[id].children@.len()
    }

    /// The node that is child `j` of node `id`.
    pub closed spec fn child(&self, id: int, j: int) -> int {
        child_id(self.nodes@, id, j)
    }

    /// The number of rounds run on the tree.
    pub closed spec fn rounds(&self) -> nat {
        self.rounds as nat
    }

    /// The state of the position to decide on.
    pub open spec fn root_state(&self) -> Seq<CellState> {
        self.node_state(0)
    }

    /// The side that moved last in the position to decide on.
    pub open spec fn root_player(&self) -> HexPlayerColor {
        self.node_player(0)
    }

    /// The simulations that the root has recorded.
    pub open spec fn root_sims(&self) -> int {
        self.node_sims(0)
    }

    /// The wins that the root has recorded.
    pub open spec fn root_wins(&self) -> int {
        self.node_wins(0)
    }

    /// The number of children of the root.
    pub open spec fn root_children(&self) -> nat {
        self.degree(0)
    }

    /// The move that leads to child `j` of the root.
    pub open spec fn child_move(&self, j: int) -> int {
        self.node_move(self.child(0, j))
    }

    /// The simulations that child `j` of the root has recorded.
    pub open spec fn child_sims(&self, j: int) -> int {
        self.node_sims(self.child(0, j))
    }

    /// The wins that child `j` of the root has recorded.
    pub open spec fn child_wins(&self, j: int) -> int {
        self.node_wins(self.child(0, j))
    }

    /// Node `id` is a node without children.
    pub open spec fn is_leaf_node(&self, id: int) -> bool {
        0 <= id < self.node_count() && self.degree(id) == 0
    }

    /// Node `to` is a child of node `from`.
    pub open spec fn is_child(&self, from: int, to: int) -> bool {
        exists|j: int| 0 <= j < self.degree(from) && #[trigger] self.child(from, j) == to
    }

    /// `line` leads from node `from`, from each node to one of its
    /// children, to node `to`.
    pub open spec fn is_line(&self, line: Seq<int>, from: int, to: int) -> bool {
        &&& line.len() >= 1
        &&& line[0] == from
        &&& line[line.len() - 1] == to
        &&& forall|k: int| 0 <= k < line.len() - 1 ==> self.is_child(#[trigger] line[k], line[k + 1])
    }

    /// Node `to` is node `from` or lies below it in the tree.
    pub open spec fn descends(&self, from: int, to: int) -> bool {
        exists|line: Seq<int>| self.is_line(line, from, to)
    }

    /// `path` leads from the root, from each node to one of its children,
    /// down to a leaf.
    pub open spec fn is_descent(&self, path: Seq<int>) -> bool {
        &&& path.len() >= 1
        &&& path[0] == 0
        &&& forall|k: int| 0 <= k < path.len() ==> 0 <= #[trigger] path[k] < self.node_count()
        &&& forall|k: int| 0 <= k < path.len() - 1 ==> self.is_child(#[trigger] path[k], path[k + 1])
        &&& self.is_leaf_node(path[path.len() - 1])
    }

    /// What a round that walks down to the leaf `leaf` adds to the
    /// counters: ten simulations and ten wins where the leaf has won, else
    /// the outcome of expanding the leaf.
    pub open spec fn outcome_at(&self, board: HexBoard, leaf: int) -> (int, int) {
        if self.node_won(leaf) {
            (10, 10)
        } else {
            expansion_value(
                board,
                self.node_state(leaf),
                self.node_player(leaf).opponent(),
                board.cells() as int,
            )
        }
    }

    /// Node `child` stands for the position that a move of the other side
    /// onto an empty cell of the state of node `parent` leads to.
    pub open spec fn made_by_move(&self, board: HexBoard, parent: int, child: int) -> bool {
        let mover = self.node_player(parent).opponent();
        let cell = self.node_move(child);
        &&& self.node_player(child) == mover
        &&& 0 <= cell < self.node_state(parent).len()
        &&& self.node_state(parent)[cell] == CellState::Empty
        &&& self.node_state(child) == board.after_move(self.node_state(parent), mover, cell)
        &&& self.node_won(child) <==> board.move_tag(self.node_state(parent), mover, cell)
            == CellState::win_tag(mover)
    }

    /// Node `child` is as the expansion of node `parent` makes it: a leaf
    /// for a move of the other side, which holds what that move scored.
    pub open spec fn fresh_child(&self, board: HexBoard, parent: int, child: int) -> bool {
        &&& self.made_by_move(board, parent, child)
        &&& self.is_leaf_node(child)
        &&& (self.node_sims(child), self.node_wins(child)) == child_score(
            board,
            self.node_state(parent),
            self.node_player(parent).opponent(),
            self.node_move(child),
        )
    }

    /// The children of node `id` are the moves onto the empty cells of its
    /// state, one child for each, by ascending cell.
    pub open spec fn expanded_at(&self, id: int) -> bool {
        &&& forall|j: int|
            0 <= j < self.degree(id) ==> 0 <= self.node_move(#[trigger] self.child(id, j))
                < self.node_state(id).len() && self.node_state(id)[self.node_move(
                self.child(id, j),
            )] == CellState::Empty
        &&& forall|j: int, k: int|
            0 <= j < k < self.degree(id) ==> self.node_move(#[trigger] self.child(id, j))
                < self.node_move(#[trigger] self.child(id, k))
        &&& forall|e: int|
            0 <= e < self.node_state(id).len() && #[trigger] self.node_state(id)[e]
                == CellState::Empty ==> exists|j: int|
                0 <= j < self.degree(id) && self.node_move(#[trigger] self.child(id, j)) == e
    }

    /// The tree is as one round leaves the tree `before`, when the round
    /// walks down `path` and has the outcome `value`. The path leads from
    /// the root to a leaf of `before`, and the outcome is that of the
    /// leaf. Every node on the path has gained the outcome in both
    /// counters, and no other counter has changed. No node has changed its
    /// state, its move, its side or its children, but for the leaf: where
    /// it has not won, it has one new child for each empty cell of its
    /// state, by ascending cell, and these are all the new nodes, each of
    /// them a leaf that holds what its move scored. A leaf that has won
    /// gets no child, and the tree no node.
    pub open spec fn after_round(
        &self,
        before: SearchTree,
        board: HexBoard,
        path: Seq<int>,
        value: (i32, i32),
    ) -> bool {
        let leaf = path[path.len() - 1];
        &&& before.is_descent(path)
        &&& (value.0 as int, value.1 as int) == before.outcome_at(board, leaf)
        &&& self.rounds() == before.rounds() + 1
        &&& self.node_count() >= before.node_count()
        &&& forall|id: int|
            0 <= id < before.node_count() ==> {
                &&& #[trigger] self.node_state(id) == before.node_state(id)
                &&& self.node_player(id) == before.node_player(id)
                &&& self.node_move(id) == before.node_move(id)
                &&& self.node_won(id) == before.node_won(id)
                &&& self.node_sims(id) == before.node_sims(id) + (if path.contains(id) {
                    value.0 as int
                } else {
                    0
                })
                &&& self.node_wins(id) == before.node_wins(id) + (if path.contains(id) {
                    value.1 as int
                } else {
                    0
                })
                &&& id != leaf ==> self.degree(id) == before.degree(id) && forall|j: int|
                    0 <= j < before.degree(id) ==> #[trigger] self.child(id, j) == before.child(
                        id,
                        j,
                    )
            }
        &&& before.node_won(leaf) ==> self.node_count() == before.node_count() && self.degree(leaf)
            == 0
        &&& !before.node_won(leaf) ==> {
            &&& self.degree(leaf) == self.node_count() - before.node_count()
            &&& self.expanded_at(leaf)
            &&& forall|j: int|
                0 <= j < self.degree(leaf) ==> #[trigger] self.child(leaf, j) == before.node_count()
                    + j && self.fresh_child(board, leaf, before.node_count() + j)
        }
    }

    /// The tree holds the root alone, for the position `state` in which
    /// `player` has moved last, and no round has run on it.
    pub open spec fn is_fresh(&self, state: Seq<CellState>, player: HexPlayerColor) -> bool {
        &&& self.node_count() == 1
        &&& self.rounds() == 0
        &&& self.node_state(0) == state
        &&& self.node_player(0) == player
        &&& !self.node_won(0)
        &&& self.degree(0) == 0
        &&& self.node_sims(0) == 0
        &&& self.node_wins(0) == 0
    }

    /// The tree is what `n` rounds of the search make of the fresh tree
    /// for `state` and `player`, whatever leaf each round walks down to.
    pub open spec fn searched(
        &self,
        board: HexBoard,
        state: Seq<CellState>,
        player: HexPlayerColor,
        n: nat,
    ) -> bool
        decreases n,
    {
        if n == 0 {
            self.is_fresh(state, player)
        } else {
            exists|before: SearchTree, path: Seq<int>, value: (i32, i32)|
                before.searched(board, state, player, (n - 1) as nat) && #[trigger] self.after_round(
                    before,
                    board,
                    path,
                    value,
                )
        }
    }

    /// The tree is a search tree on `board`: every node holds a state of
    /// the board; the children of a node are the positions after the moves
    /// of the other side onto the empty cells of its state, one child for
    /// each, by ascending cell; no node is the child of two nodes; a node
    /// that won has no children; and the counters are within what the
    /// rounds run so far can have added.
    pub closed spec fn wf(&self, board: HexBoard) -> bool {
        &&& board.wf()
        &&& board.cells() <= MAX_CELLS
        &&& self.rounds <= ITERATIONS
        &&& self.nodes@.len() >= 1
        &&& !self.nodes@[0].win
        &&& nodes_ok(board, self.nodes@, self.rounds as int, -1)
        &&& single_parent(self.nodes@)
    }

    /// The children of the root are the moves onto the empty cells of the
    /// root's state, one child for each, by ascending cell.
    pub open spec fn root_expanded(&self) -> bool {
        self.expanded_at(0)
    }

    /// The tree is as a round leaves it that found the root a leaf: the
    /// round's outcome `value` is that of expanding the root, and each
    /// child of the root is a leaf for a move of the other side, which
    /// holds what it recorded when it was made.
    pub open spec fn first_round(&self, board: HexBoard, value: (i32, i32)) -> bool {
        &&& forall|j: int|
            0 <= j < self.root_children() ==> self.fresh_child(
                board,
                0,
                #[trigger] self.child(0, j),
            )
        &&& value.0 == expansion_value(
            board,
            self.root_state(),
            self.root_player().opponent(),
            board.cells() as int,
        ).0
        &&& value.1 == expansion_value(
            board,
            self.root_state(),
            self.root_player().opponent(),
            board.cells() as int,
        ).1
        &&& forall|j: int|
            0 <= j < self.root_children() ==> (#[trigger] self.child_sims(j), self.child_wins(j))
                == child_score(
                board,
                self.root_state(),
                self.root_player().opponent(),
                self.child_move(j),
            )
    }

    /// Child `j` of the root is the first among the children with the
    /// highest ratio of wins to simulations.
    pub open spec fn first_best(&self, j: int) -> bool {
        &&& forall|k: int|
            0 <= k < self.root_children() ==> !ratio_above(
                #[trigger] self.child_wins(k),
                self.child_sims(k),
                self.child_wins(j),
                self.child_sims(j),
            )
        &&& forall|k: int|
            0 <= k < j ==> ratio_above(
                self.child_wins(j),
                self.child_sims(j),
                #[trigger] self.child_wins(k),
                self.child_sims(k),
            )
    }

    /// A child was made after its parent, and has no other parent.
    pub proof fn lemma_one_parent(&self, board: HexBoard, a: int, b: int, n: int)
        requires
            self.wf(board),
            0 <= a < self.node_count(),
            0 <= b < self.node_count(),
            self.is_child(a, n),
            self.is_child(b, n),
        ensures
            a == b,
            a < n < self.node_count(),
    {
        let nodes = self.nodes@;
        let j = choose|j: int| 0 <= j < self.degree(a) && #[trigger] self.child(a, j) == n;
        let k = choose|k: int| 0 <= k < self.degree(b) && #[trigger] self.child(b, k) == n;
        assert(child_id(nodes, a, j) == child_id(nodes, b, k));
        assert(node_ok(board, nodes, a, self.rounds as int));
        assert(child_ok(board, nodes, a, j));
    }

    /// The nodes of a line were made one after the other.
    pub proof fn lemma_line_rises(&self, board: HexBoard, line: Seq<int>, from: int, to: int, k: int)
        requires
            self.wf(board),
            0 <= from < self.node_count(),
            self.is_line(line, from, to),
            0 <= k < line.len(),
        ensures
            from <= line[k] < self.node_count(),
            k > 0 ==> from < line[k],
        decreases k,
    {
        if k > 0 {
            self.lemma_line_rises(board, line, from, to, k - 1);
            assert(self.is_child(line[k - 1], line[k - 1 + 1]));
            self.lemma_one_parent(board, line[k - 1], line[k - 1], line[k]);
        }
    }

    /// Of two lines to one node, the shorter is the end of the longer.
    proof fn lemma_lines_nest(
        &self,
        board: HexBoard,
        short: Seq<int>,
        a: int,
        long: Seq<int>,
        b: int,
        n: int,
    )
        requires
            self.wf(board),
            0 <= a < self.node_count(),
            0 <= b < self.node_count(),
            self.is_line(short, a, n),
            self.is_line(long, b, n),
            short.len() <= long.len(),
        ensures
            a == long[long.len() - short.len()],
        decreases short.len(),
    {
        if short.len() > 1 {
            let p = short[short.len() - 2];
            let q = long[long.len() - 2];
            self.lemma_line_rises(board, short, a, n, short.len() - 2);
            self.lemma_line_rises(board, long, b, n, long.len() - 2);
            assert(self.is_child(short[short.len() - 2], short[short.len() - 2 + 1]));
            assert(self.is_child(long[long.len() - 2], long[long.len() - 2 + 1]));
            self.lemma_one_parent(board, p, q, n);
            let s2 = short.drop_last();
            let l2 = long.drop_last();
            assert forall|k: int| 0 <= k < s2.len() - 1 implies self.is_child(
                #[trigger] s2[k],
                s2[k + 1],
            ) by {
                assert(self.is_child(short[k], short[k + 1]));
            }
            assert forall|k: int| 0 <= k < l2.len() - 1 implies self.is_child(
                #[trigger] l2[k],
                l2[k + 1],
            ) by {
                assert(self.is_child(long[k], long[k + 1]));
            }
            self.lemma_lines_nest(board, s2, a, l2, b, p);
            assert(l2[l2.len() - s2.len()] == long[long.len() - short.len()]);
        }
    }

    /// A child of the root does not lie on a line from another child of
    /// the root, unless at its start.
    proof fn lemma_not_below(&self, board: HexBoard, c: int, line: Seq<int>, d: int, n: int, i: int)
        requires
            self.wf(board),
            self.is_child(0, c),
            self.is_child(0, d),
            self.is_line(line, d, n),
            0 <= i < line.len(),
            line[i] == c,
        ensures
            i == 0,
    {
        self.lemma_one_parent(board, 0, 0, d);
        if i > 0 {
            self.lemma_line_rises(board, line, d, n, i - 1);
            assert(self.is_child(line[i - 1], line[i - 1 + 1]));
            self.lemma_one_parent(board, 0, line[i - 1], c);
        }
    }

    /// The subtrees of two children of the root share no node.
    pub proof fn lemma_apart(&self, board: HexBoard, c: int, d: int, n: int)
        requires
            self.wf(board),
            self.is_child(0, c),
            self.is_child(0, d),
            self.descends(c, n),
            self.descends(d, n),
        ensures
            c == d,
    {
        let lc = choose|line: Seq<int>| self.is_line(line, c, n);
        let ld = choose|line: Seq<int>| self.is_line(line, d, n);
        self.lemma_one_parent(board, 0, 0, c);
        self.lemma_one_parent(board, 0, 0, d);
        if lc.len() <= ld.len() {
            self.lemma_lines_nest(board, lc, c, ld, d, n);
            self.lemma_not_below(board, c, ld, d, n, ld.len() - lc.len());
        } else {
            self.lemma_lines_nest(board, ld, d, lc, c, n);
            self.lemma_not_below(board, d, lc, c, n, lc.len() - ld.len());
        }
    }

    /// A round changes the subtree of one child of the root at most, the
    /// one that it walks down into: a node at or below another child of the
    /// root is not on the way, and is after the round as it was before.
    pub proof fn lemma_other_subtrees_stay(
        &self,
        before: SearchTree,
        board: HexBoard,
        path: Seq<int>,
        value: (i32, i32),
        c: int,
        n: int,
    )
        requires
            before.wf(board),
            self.after_round(before, board, path, value),
            before.is_child(0, c),
            path.len() >= 2 ==> c != path[1],
            before.descends(c, n),
        ensures
            0 < n < before.node_count(),
            !path.contains(n),
            self.node_state(n) == before.node_state(n),
            self.node_player(n) == before.node_player(n),
            self.node_move(n) == before.node_move(n),
            self.node_won(n) == before.node_won(n),
            self.node_sims(n) == before.node_sims(n),
            self.node_wins(n) == before.node_wins(n),
            self.degree(n) == before.degree(n),
            forall|j: int| 0 <= j < before.degree(n) ==> #[trigger] self.child(n, j) == before.child(n, j),
    {
        before.lemma_one_parent(board, 0, 0, c);
        let line = choose|line: Seq<int>| before.is_line(line, c, n);
        before.lemma_line_rises(board, line, c, n, line.len() - 1);
        if path.contains(n) {
            let i = choose|i: int| 0 <= i < path.len() && path[i] == n;
            assert(i >= 1);
            let down = path.subrange(1, i + 1);
            assert forall|k: int| 0 <= k < down.len() - 1 implies before.is_child(
                #[trigger] down[k],
                down[k + 1],
            ) by {
                assert(before.is_child(path[k + 1], path[k + 1 + 1]));
            }
            assert(before.is_line(down, path[1], n));
            assert(before.is_child(path[0], path[0int + 1]));
            before.lemma_apart(board, c, path[1], n);
        }
        assert(path[path.len() - 1] != n) by {
            if path[path.len() - 1] == n {
                assert(path.contains(n));
            }
        }
        let _ = self.node_state(n);
    }

    /// A tree that `n` rounds of the search have made has counted `n`
    /// rounds, and its root still stands for the position that the search
    /// started from.
    pub proof fn lemma_searched_root(
        &self,
        board: HexBoard,
        state: Seq<CellState>,
        player: HexPlayerColor,
        n: nat,
    )
        requires
            self.searched(board, state, player, n),
        ensures
            self.rounds() == n,
            self.node_count() >= 1,
            self.root_state() == state,
            self.root_player() == player,
            !self.node_won(0),
        decreases n,
    {
        if n > 0 {
            let (before, path, value) = choose|
                before: SearchTree,
                path: Seq<int>,
                value: (i32, i32),
            |
                before.searched(board, state, player, (n - 1) as nat)
                    && #[trigger] self.after_round(before, board, path, value);
            before.lemma_searched_root(board, state, player, (n - 1) as nat);
            let _ = self.node_state(0);
        }
    }

    /// One round more on a tree that rounds of the search have made gives
    /// a tree that rounds of the search have made.
    pub proof fn lemma_searched_step(
        before: SearchTree,
        after: SearchTree,
        board: HexBoard,
        state: Seq<CellState>,
        player: HexPlayerColor,
        n: nat,
        path: Seq<int>,
        value: (i32, i32),
    )
        requires
            before.searched(board, state, player, n),
            after.after_round(before, board, path, value),
        ensures
            after.searched(board, state, player, n + 1),
    {
        assert(before.searched(board, state, player, ((n + 1) - 1) as nat));
    }

    /// What holds of a node that is in order and has a child for every
    /// empty cell of its state: its children are the moves of the other
    /// side onto these cells, by ascending cell, and were made after it.
    proof fn lemma_node_view(&self, board: HexBoard, id: int, rounds: int)
        requires
            0 <= id < self.nodes@.len(),
            node_ok(board, self.nodes@, id, rounds),
            covers(self.nodes@, id, board.cells() as int),
        ensures
            self.expanded_at(id),
            forall|j: int|
                0 <= j < self.degree(id) ==> id < #[trigger] self.child(id, j) < self.node_count()
                    && self.made_by_move(board, id, self.child(id, j)) && self.node_sims(
                    self.child(id, j),
                ) >= 1,
    {
        let nodes = self.nodes@;
        assert forall|j: int| 0 <= j < self.degree(id) implies id < #[trigger] self.child(id, j)
            < self.node_count() && self.made_by_move(board, id, self.child(id, j))
            && self.node_sims(self.child(id, j)) >= 1 && 0 <= self.node_move(self.child(id, j))
            < self.node_state(id).len() && self.node_state(id)[self.node_move(self.child(id, j))]
            == CellState::Empty by {
            assert(child_ok(board, nodes, id, j));
        }
        assert forall|j: int, k: int| 0 <= j < k < self.degree(id) implies self.node_move(
            #[trigger] self.child(id, j),
        ) < self.node_move(#[trigger] self.child(id, k)) by {
            assert(child_move_of(nodes, id, j) < child_move_of(nodes, id, k));
        }
        assert forall|e: int|
            0 <= e < self.node_state(id).len() && #[trigger] self.node_state(id)[e]
                == CellState::Empty implies exists|j: int|
            0 <= j < self.degree(id) && self.node_move(#[trigger] self.child(id, j)) == e by {
            assert(nodes[id].state@[e] == CellState::Empty);
            let j = choose|j: int|
                0 <= j < nodes[id].children@.len() && child_move_of(nodes, id, j) == e;
            assert(0 <= j < self.degree(id) && self.node_move(self.child(id, j)) == e);
        }
    }

    /// In a search tree, the children of a node that has any are the moves
    /// of the other side onto the empty cells of its state, one child for
    /// each, by ascending cell; each was made after its parent, and has
    /// recorded a simulation. A node that has won has no child.
    pub proof fn lemma_children(&self, board: HexBoard, id: int)
        requires
            self.wf(board),
            0 <= id < self.node_count(),
        ensures
            self.node_state(id).len() == board.cells(),
            self.node_won(id) ==> self.degree(id) == 0,
            self.degree(id) > 0 ==> self.expanded_at(id),
            forall|j: int|
                0 <= j < self.degree(id) ==> id < #[trigger] self.child(id, j) < self.node_count()
                    && self.made_by_move(board, id, self.child(id, j)) && self.node_sims(
                    self.child(id, j),
                ) >= 1,
            -self.node_sims(id) <= self.node_wins(id) <= self.node_sims(id),
    {
        assert(node_ok(board, self.nodes@, id, self.rounds as int));
        if self.degree(id) > 0 {
            self.lemma_node_view(board, id, self.rounds as int);
        }
    }

    /// The children of a root that has any stand for the empty cells of the
    /// root's state, one child for each, by ascending cell; and each has
    /// recorded a simulation, and no more wins or losses than simulations.
    pub proof fn lemma_root_children(&self, board: HexBoard)
        requires
            self.wf(board),
            self.root_children() > 0,
        ensures
            self.root_expanded(),
            forall|j: int|
                0 <= j < self.root_children() ==> 1 <= #[trigger] self.child_sims(j)
                    && -self.child_sims(j) <= self.child_wins(j) <= self.child_sims(j),
    {
        self.lemma_children(board, 0);
        assert forall|j: int| 0 <= j < self.root_children() implies 1 <= #[trigger] self.child_sims(
            j,
        ) && -self.child_sims(j) <= self.child_wins(j) <= self.child_sims(j) by {
            let c = self.child(0, j);
            assert(0 < c < self.node_count());
            self.lemma_children(board, c);
        }
    }

    /// The number of nodes of the tree.
    pub fn count(&self) -> (n: usize)
        ensures
            n == self.node_count(),
    {
        self.nodes.len()
    }

    /// The comparison of child `candidate` of node `node` with its child
    /// `best`: the counters of the node and of these two children, each
    /// child taken by its own index.
    pub fn comparison(&self, board: &HexBoard, node: usize, candidate: usize, best: usize) -> (q:
        Comparison)
        requires
            self.wf(*board),
            node < self.node_count(),
            candidate < self.degree(node as int),
            best < self.degree(node as int),
        ensures
            q.parent_sims == self.node_sims(node as int),
            q.candidate_wins == self.node_wins(self.child(node as int, candidate as int)),
            q.candidate_sims == self.node_sims(self.child(node as int, candidate as int)),
            q.best_wins == self.node_wins(self.child(node as int, best as int)),
            q.best_sims == self.node_sims(self.child(node as int, best as int)),
    {
        proof {
            assert(node_ok(*board, self.nodes@, node as int, self.rounds as int));
            assert(child_ok(*board, self.nodes@, node as int, candidate as int));
            assert(child_ok(*board, self.nodes@, node as int, best as int));
        }
        let parent = &self.nodes[node];
        let candidate_node = &self.nodes[parent.children[candidate]];
        let best_node = &self.nodes[parent.children[best]];
        Comparison {
            parent_sims: parent.num_sims,
            candidate_wins: candidate_node.num_wins,
            candidate_sims: candidate_node.num_sims,
            best_wins: best_node.num_wins,
            best_sims: best_node.num_sims,
        }
    }

    /// For each child of the root, in order: its move, its wins and its
    /// simulations.
    pub fn child_stats(&self, board: &HexBoard) -> (stats: Vec<(usize, i32, i32)>)
        requires
            self.wf(*board),
        ensures
            stats@.len() == self.root_children(),
            forall|j: int|
                0 <= j < stats@.len() ==> (#[trigger] stats@[j]).0 == self.child_move(j)
                    && stats@[j].1 == self.child_wins(j) && stats@[j].2 == self.child_sims(j),
    {
        let root = &self.nodes[0];
        let mut stats: Vec<(usize, i32, i32)> = Vec::new();
        let mut j: usize = 0;
        proof {
            assert(node_ok(*board, self.nodes@, 0, self.rounds as int));
        }
        while j < root.children.len()
            invariant
                root == self.nodes@[0],
                j <= root.children@.len(),
                stats@.len() == j,
                forall|k: int|
                    0 <= k < root.children@.len() ==> #[trigger] child_ok(
                        *board,
                        self.nodes@,
                        0,
                        k,
                    ),
                forall|k: int|
                    0 <= k < j ==> (#[trigger] stats@[k]).0 == self.child_move(k) && stats@[k].1
                        == self.child_wins(k) && stats@[k].2 == self.child_sims(k),
            decreases root.children@.len() - j,
        {
            assert(child_ok(*board, self.nodes@, 0, j as int));
            let child = &self.nodes[root.children[j]];
            stats.push((child.last_move, child.num_wins, child.num_sims));
            j += 1;
        }
        stats
    }

    /// The tree of a decision on `state`, in which `last_player` has moved
    /// last: the root alone.
    pub fn new(board: &HexBoard, last_player: HexPlayerColor, state: Vec<CellState>) -> (tree:
        SearchTree)
        requires
            board.wf(),
            board.cells() <= MAX_CELLS,
            state@.len() == board.cells(),
        ensures
            tree.wf(*board),
            tree.rounds() == 0,
            tree.root_state() == state@,
            tree.root_player() == last_player,
            tree.root_children() == 0,
            tree.root_sims() == 0,
            tree.root_wins() == 0,
            tree.is_fresh(state@, last_player),
    {
        let root = Node::new(last_player, usize::MAX, state, false);
        let mut nodes: Vec<Node> = Vec::new();
        nodes.push(root);
        let tree = SearchTree { nodes, rounds: 0 };
        assert(node_ok(*board, tree.nodes@, 0, 0));
        tree
    }
}

/// The search engine: the board that it plays on and its random source.
pub struct MCTSAI {
    board: HexBoard,
    rng: SmallRng,
}

impl MCTSAI {
    /// The board that the engine plays on.
    pub closed spec fn board(&self) -> HexBoard {
        self.board
    }

    /// The board that the engine plays on.
    pub fn board_ref(&self) -> (board: &HexBoard)
        ensures
            *board == self.board(),
    {
        &self.board
    }

    /// An engine on `board` whose random source is seeded by the system;
    /// `None` where the system gives no entropy to seed it with.
    pub fn new(board: HexBoard) -> (ai: Option<MCTSAI>)
        ensures
            ai.is_some() ==> ai.unwrap().board() == board,
    {
        match entropy_rng() {
            Some(rng) => Some(MCTSAI { board, rng }),
            None => None,
        }
    }

    /// An engine on `board` whose random source is fixed by `seed`.
    pub fn with_seed(board: HexBoard, seed: u64) -> (ai: MCTSAI)
        ensures
            ai.board() == board,
    {
        MCTSAI { board, rng: seeded_rng(seed) }
    }

    /// The empty cells of `state`, each once, in a random order.
    pub fn playout_order(&mut self, state: &Vec<CellState>) -> (order: Vec<usize>)
        ensures
            final(self).board() == old(self).board(),
            orders_empty_cells(order@, state@),
    {
        let mut empty_cells: Vec<usize> = Vec::new();
        let mut i: usize = 0;
        while i < state.len()
            invariant
                i <= state@.len(),
                forall|k: int|
                    0 <= k < empty_cells@.len() ==> (#[trigger] empty_cells@[k]) < i
                        && state@[empty_cells@[k] as int] == CellState::Empty,
                forall|j: int, k: int|
                    0 <= j < k < empty_cells@.len() ==> empty_cells@[j] < empty_cells@[k],
                forall|c: usize|
                    c < i && state@[c as int] == CellState::Empty ==> empty_cells@.contains(c),
            decreases state@.len() - i,
        {
            if state[i] == CellState::Empty {
                let ghost prev = empty_cells@;
                empty_cells.push(i);
                proof {
                    assert forall|c: usize|
                        c < i + 1 && state@[c as int] == CellState::Empty implies empty_cells@.contains(
                        c,
                    ) by {
                        if c == i {
                            assert(empty_cells@[empty_cells@.len() - 1] == c);
                        } else {
                            let k = choose|k: int| 0 <= k < prev.len() && prev[k] == c;
                            assert(empty_cells@[k] == c);
                        }
                    }
                }
            }
            i += 1;
        }
        let ghost sorted = empty_cells@;
        shuffle_cells(&mut empty_cells, &mut self.rng);
        proof {
            let order = empty_cells@;
            assert(sorted.no_duplicates());
            sorted.lemma_multiset_has_no_duplicates();
            order.lemma_multiset_has_no_duplicates_conv();
            assert forall|k: int| 0 <= k < order.len() implies (#[trigger] order[k]) < state@.len()
                && state@[order[k] as int] == CellState::Empty by {
                assert(order.contains(order[k]));
                to_multiset_contains(order, order[k]);
                to_multiset_contains(sorted, order[k]);
                let j = choose|j: int| 0 <= j < sorted.len() && sorted[j] == order[k];
            }
            assert forall|c: usize|
                c < state@.len() && state@[c as int] == CellState::Empty implies order.contains(
                c,
            ) by {
                to_multiset_contains(order, c);
                to_multiset_contains(sorted, c);
            }
        }
        empty_cells
    }

    /// Plays `state` out: fills every empty cell, in a random order, with a
    /// stone of `player`, and returns the winner of the filled board. The
    /// order has no part in the outcome.
    pub fn rollout(&mut self, state: Vec<CellState>, player: HexPlayerColor) -> (winner:
        HexPlayerColor)
        requires
            old(self).board().wf(),
            state@.len() == old(self).board().cells(),
        ensures
            final(self).board() == old(self).board(),
            winner == old(self).board().winner_of(filled(state@, player)),
            old(self).board().cols() >= 1 && old(self).board().rows() >= 1 && old(
                self,
            ).board().well_tagged(state@) ==> old(self).board().crosses(
                filled(state@, player),
                winner,
            ) && !old(self).board().crosses(filled(state@, player), winner.opponent()),
    {
        proof {
            if self.board().cols() >= 1 && self.board().rows() >= 1 && self.board().well_tagged(
                state@,
            ) {
                lemma_playout_winner(self.board(), state@, player);
            }
        }
        let mut state = state;
        let ghost s0 = state@;
        let len = state.len();
        let order = self.playout_order(&state);
        let stone = match player {
            HexPlayerColor::Black => CellState::Black,
            HexPlayerColor::White => CellState::White,
        };
        let mut i: usize = 0;
        while i < order.len()
            invariant
                i <= order@.len(),
                state@.len() == s0.len(),
                s0.len() == len,
                orders_empty_cells(order@, s0),
                stone == CellState::plain_tag(player),
                forall|c: int|
                    0 <= c < s0.len() ==> #[trigger] state@[c] == (if exists|k: int|
                        0 <= k < i && order@[k] == c {
                        stone
                    } else {
                        s0[c]
                    }),
            decreases order@.len() - i,
        {
            let pos = order[i];
            let ghost prev = state@;
            state[pos] = stone;
            proof {
                assert forall|c: int| 0 <= c < s0.len() implies #[trigger] state@[c] == (if exists|
                    k: int,
                |
                    0 <= k < i + 1 && order@[k] == c {
                    stone
                } else {
                    s0[c]
                }) by {
                    if c == pos {
                        assert(order@[i as int] == c);
                    } else {
                        assert(state@[c] == prev[c]);
                        if exists|k: int| 0 <= k < i && order@[k] == c {
                            let k = choose|k: int| 0 <= k < i && order@[k] == c;
                            assert(0 <= k < i + 1 && order@[k] == c);
                        }
                    }
                }
            }
            i += 1;
        }
        proof {
            assert forall|c: int| 0 <= c < s0.len() implies state@[c] == filled(s0, player)[c] by {
                if s0[c] == CellState::Empty {
                    assert(order@.contains(c as usize));
                    let k = choose|k: int| 0 <= k < order@.len() && order@[k] == c as usize;
                    assert(0 <= k < i && order@[k] == c);
                } else {
                    if exists|k: int| 0 <= k < i && order@[k] == c {
                        let k = choose|k: int| 0 <= k < i && order@[k] == c;
                        assert(s0[order@[k] as int] == CellState::Empty);
                    }
                }
            }
            assert(state@ =~= filled(s0, player));
        }
        self.board.check_winner(&mut state)
    }

    /// Walks down from the root until it reaches a leaf. At each node it
    /// starts with the first child as the best, puts to the policy the
    /// comparison of each further child, in order, with the best so far,
    /// and takes the child where the policy prefers it; it walks on to the
    /// best child. Returns the nodes on the way.
    fn select_path<P: SelectionPolicy>(&self, tree: &SearchTree, policy: &P) -> (path: Vec<usize>)
        requires
            tree.wf(self.board()),
        ensures
            path@.len() >= 1,
            path@[0] == 0,
            forall|k: int| 0 <= k < path@.len() ==> (#[trigger] path@[k]) < tree.nodes@.len(),
            forall|j: int, k: int| 0 <= j < k < path@.len() ==> path@[j] < path@[k],
            tree.nodes@[path@[path@.len() - 1] as int].children@.len() == 0,
            path@.len() > 1 <==> tree.nodes@[0].children@.len() > 0,
            tree.is_descent(as_ints(path@)),
    {
        let mut path: Vec<usize> = Vec::new();
        path.push(0);
        let mut cur: usize = 0;
        while !tree.nodes[cur].is_leaf()
            invariant
                tree.wf(self.board()),
                cur < tree.nodes@.len(),
                path@.len() >= 1,
                path@[0] == 0,
                path@[path@.len() - 1] == cur,
                forall|k: int| 0 <= k < path@.len() ==> (#[trigger] path@[k]) <= cur,
                forall|j: int, k: int| 0 <= j < k < path@.len() ==> path@[j] < path@[k],
                path@.len() > 1 ==> tree.nodes@[0].children@.len() > 0,
                path@.len() == 1 ==> cur == 0,
                forall|k: int|
                    0 <= k < path@.len() - 1 ==> tree.is_child(
                        #[trigger] path@[k] as int,
                        path@[k + 1] as int,
                    ),
            decreases tree.nodes@.len() - cur,
        {
            let node = &tree.nodes[cur];
            assert(node_ok(self.board(), tree.nodes@, cur as int, tree.rounds as int));
            let mut best_index: usize = 0;
            let mut i: usize = 1;
            while i < node.children.len()
                invariant
                    tree.wf(self.board()),
                    cur < tree.nodes@.len(),
                    node == tree.nodes@[cur as int],
                    best_index < node.children@.len(),
                    1 <= i,
                decreases node.children@.len() - i,
            {
                let q = tree.comparison(&self.board, cur, i, best_index);
                let preferred = policy.prefers(
                    q.parent_sims,
                    q.candidate_wins,
                    q.candidate_sims,
                    q.best_wins,
                    q.best_sims,
                );
                best_index = preferred_child(best_index, i, preferred);
                i += 1;
            }
            assert(child_ok(self.board(), tree.nodes@, cur as int, best_index as int));
            let ghost parent = cur as int;
            let ghost prev = path@;
            cur = node.children[best_index];
            path.push(cur);
            proof {
                assert(tree.child(parent, best_index as int) == cur);
                assert(tree.is_child(parent, cur as int));
                assert forall|k: int| 0 <= k < path@.len() - 1 implies tree.is_child(
                    #[trigger] path@[k] as int,
                    path@[k + 1] as int,
                ) by {
                    if k < prev.len() - 1 {
                        assert(tree.is_child(prev[k] as int, prev[k + 1] as int));
                    }
                }
            }
        }
        proof {
            let pi = as_ints(path@);
            assert forall|k: int| 0 <= k < pi.len() - 1 implies tree.is_child(
                #[trigger] pi[k],
                pi[k + 1],
            ) by {
                assert(tree.is_child(path@[k] as int, path@[k + 1] as int));
            }
        }
        path
    }

    /// Adding a child for the empty cell `i` to the node that is being
    /// expanded keeps the tree in order.
    proof fn lemma_add_child(
        board: HexBoard,
        before: Seq<Node>,
        after: Seq<Node>,
        leaf: int,
        rounds: int,
        i: int,
    )
        requires
            board.wf(),
            0 <= rounds,
            0 <= leaf < before.len(),
            0 <= i < board.cells(),
            nodes_ok(board, before, rounds, leaf),
            growing_ok(board, before, leaf, rounds, i),
            before[leaf].state@[i] == CellState::Empty,
            after.len() == before.len() + 1,
            before.len() <= usize::MAX,
            forall|k: int| 0 <= k < before.len() && k != leaf ==> #[trigger] after[k] == before[k],
            after[leaf].last_player == before[leaf].last_player,
            after[leaf].last_move == before[leaf].last_move,
            after[leaf].state == before[leaf].state,
            after[leaf].num_sims == before[leaf].num_sims,
            after[leaf].num_wins == before[leaf].num_wins,
            after[leaf].win == before[leaf].win,
            after[leaf].children@ == before[leaf].children@.push(before.len() as usize),
            after[before.len() as int].children@.len() == 0,
            1 <= after[before.len() as int].num_sims <= 3,
            -after[before.len() as int].num_sims <= after[before.len() as int].num_wins
                <= after[before.len() as int].num_sims,
            after[before.len() as int].last_player == before[leaf].last_player.opponent(),
            after[before.len() as int].last_move == i,
            after[before.len() as int].state@ == board.after_move(
                before[leaf].state@,
                before[leaf].last_player.opponent(),
                i,
            ),
            after[before.len() as int].win <==> board.move_tag(
                before[leaf].state@,
                before[leaf].last_player.opponent(),
                i,
            ) == CellState::win_tag(before[leaf].last_player.opponent()),
        ensures
            nodes_ok(board, after, rounds, leaf),
            growing_ok(board, after, leaf, rounds, i + 1),
    {
        let fresh = before.len() as int;
        let count = before[leaf].children@.len() as int;
        assert(rounds * round_gain(board) >= 0) by (nonlinear_arith)
            requires
                rounds >= 0,
                round_gain(board) >= 0,
        ;
        assert forall|id: int| 0 <= id < after.len() && id != leaf implies #[trigger] node_ok(
            board,
            after,
            id,
            rounds,
        ) by {
            if id < before.len() {
                assert(node_ok(board, before, id, rounds));
                assert forall|j: int| 0 <= j < after[id].children@.len() implies #[trigger] child_ok(
                    board,
                    after,
                    id,
                    j,
                ) && child_move_of(after, id, j) == child_move_of(before, id, j) by {
                    assert(child_ok(board, before, id, j));
                    let c = child_id(before, id, j);
                    if c != leaf {
                        assert(after[c] == before[c]);
                    }
                }
                assert forall|j: int, k: int|
                    0 <= j < k < after[id].children@.len() implies #[trigger] child_move_of(
                    after,
                    id,
                    j,
                ) < #[trigger] child_move_of(after, id, k) by {
                    assert(child_ok(board, after, id, j));
                    assert(child_ok(board, after, id, k));
                    assert(child_move_of(before, id, j) < child_move_of(before, id, k));
                }
                if after[id].children@.len() > 0 {
                    assert forall|e: int|
                        0 <= e < board.cells() && #[trigger] after[id].state@[e]
                            == CellState::Empty implies exists|j: int|
                        0 <= j < after[id].children@.len() && child_move_of(after, id, j) == e by {
                        assert(before[id].state@[e] == CellState::Empty);
                        let j = choose|j: int|
                            0 <= j < before[id].children@.len() && child_move_of(before, id, j)
                                == e;
                        assert(child_ok(board, after, id, j));
                        assert(child_move_of(after, id, j) == e);
                    }
                }
            } else {
                assert(board.after_move(
                    before[leaf].state@,
                    before[leaf].last_player.opponent(),
                    i,
                ).len() == board.cells());
            }
        }
        assert forall|j: int| 0 <= j < after[leaf].children@.len() implies #[trigger] child_ok(
            board,
            after,
            leaf,
            j,
        ) && child_move_of(after, leaf, j) < i + 1 && (j < count ==> child_move_of(after, leaf, j)
            == child_move_of(before, leaf, j)) && (j == count ==> child_move_of(after, leaf, j)
            == i) by {
            if j < count {
                assert(child_ok(board, before, leaf, j));
                let c = child_id(before, leaf, j);
                assert(child_id(after, leaf, j) == c);
                assert(c != leaf);
                assert(after[c] == before[c]);
                assert(child_move_of(before, leaf, j) < i);
            } else {
                assert(child_id(after, leaf, j) == fresh);
            }
        }
        assert forall|j: int| 0 <= j < after[leaf].children@.len() implies #[trigger] child_move_of(
            after,
            leaf,
            j,
        ) < i + 1 by {
            assert(child_ok(board, after, leaf, j));
        }
        assert forall|e: int|
            0 <= e < i + 1 && #[trigger] after[leaf].state@[e] == CellState::Empty implies exists|
            j: int,
        | 0 <= j < after[leaf].children@.len() && child_move_of(after, leaf, j) == e by {
            if e == i {
                assert(child_ok(board, after, leaf, count));
                assert(child_move_of(after, leaf, count) == e);
            } else {
                assert(before[leaf].state@[e] == CellState::Empty);
                let j = choose|j: int|
                    0 <= j < before[leaf].children@.len() && child_move_of(before, leaf, j) == e;
                assert(child_ok(board, after, leaf, j));
                assert(child_move_of(after, leaf, j) == e);
            }
        }
        assert forall|j: int, k: int| 0 <= j < k < after[leaf].children@.len() implies #[trigger] child_move_of(
            after,
            leaf,
            j,
        ) < #[trigger] child_move_of(after, leaf, k) by {
            assert(child_ok(board, after, leaf, j));
            assert(child_ok(board, after, leaf, k));
            if k < count {
                assert(child_move_of(before, leaf, j) < child_move_of(before, leaf, k));
            }
        }
    }

    /// A node that is added as the last child of a node has that node
    /// alone for its parent.
    proof fn lemma_fresh_parent(
        board: HexBoard,
        before: Seq<Node>,
        after: Seq<Node>,
        leaf: int,
        rounds: int,
    )
        requires
            0 <= leaf < before.len(),
            before.len() <= usize::MAX,
            single_parent(before),
            nodes_ok(board, before, rounds, leaf),
            shape_ok(board, before, leaf, rounds),
            after.len() == before.len() + 1,
            forall|k: int| 0 <= k < before.len() && k != leaf ==> #[trigger] after[k] == before[k],
            after[leaf].children@ == before[leaf].children@.push(before.len() as usize),
            after[before.len() as int].children@.len() == 0,
        ensures
            single_parent(after),
    {
        let fresh = before.len() as int;
        assert forall|a: int, j: int| 0 <= a < before.len() && 0 <= j < before[a].children@.len()
            implies #[trigger] child_id(before, a, j) < fresh && child_id(after, a, j) == child_id(
            before,
            a,
            j,
        ) by {
            if a != leaf {
                assert(node_ok(board, before, a, rounds));
            }
            assert(child_ok(board, before, a, j));
        }
        assert forall|a: int, j: int, b: int, k: int|
            0 <= a < after.len() && 0 <= b < after.len() && 0 <= j < after[a].children@.len() && 0
                <= k < after[b].children@.len() && #[trigger] child_id(after, a, j)
                == #[trigger] child_id(after, b, k) implies a == b && j == k by {
            let old_a = a != leaf || j < before[leaf].children@.len();
            let old_b = b != leaf || k < before[leaf].children@.len();
            if old_a {
                assert(child_id(before, a, j) < fresh);
            } else {
                assert(child_id(after, a, j) == fresh);
            }
            if old_b {
                assert(child_id(before, b, k) < fresh);
            } else {
                assert(child_id(after, b, k) == fresh);
            }
            if old_a && old_b {
                assert(child_id(before, a, j) == child_id(before, b, k));
            }
        }
    }

    /// Adding the outcome of a round to the counters of some nodes keeps
    /// the tree in order, for one round more.
    proof fn lemma_restat(
        board: HexBoard,
        before: Seq<Node>,
        after: Seq<Node>,
        rounds: int,
        sims: int,
        wins: int,
    )
        requires
            board.wf(),
            0 <= rounds,
            nodes_ok(board, before, rounds, -1),
            after.len() == before.len(),
            0 <= sims <= round_gain(board),
            -sims <= wins <= sims,
            forall|id: int|
                0 <= id < before.len() ==> {
                    &&& (#[trigger] after[id]).last_player == before[id].last_player
                    &&& after[id].last_move == before[id].last_move
                    &&& after[id].state == before[id].state
                    &&& after[id].children == before[id].children
                    &&& after[id].win == before[id].win
                    &&& (after[id].num_sims == before[id].num_sims && after[id].num_wins
                        == before[id].num_wins) || (after[id].num_sims == before[id].num_sims
                        + sims && after[id].num_wins == before[id].num_wins + wins)
                },
        ensures
            nodes_ok(board, after, rounds + 1, -1),
    {
        assert((rounds + 1) * round_gain(board) == rounds * round_gain(board) + round_gain(board))
            by (nonlinear_arith);
        assert forall|id: int| 0 <= id < after.len() implies #[trigger] node_ok(
            board,
            after,
            id,
            rounds + 1,
        ) by {
            assert(node_ok(board, before, id, rounds));
            let _ = after[id];
            assert forall|j: int| 0 <= j < after[id].children@.len() implies #[trigger] child_ok(
                board,
                after,
                id,
                j,
            ) && child_move_of(after, id, j) == child_move_of(before, id, j) by {
                assert(child_ok(board, before, id, j));
                let c = child_id(before, id, j);
                let _ = after[c];
            }
            if after[id].children@.len() > 0 {
                assert forall|e: int|
                    0 <= e < board.cells() && #[trigger] after[id].state@[e]
                        == CellState::Empty implies exists|j: int|
                    0 <= j < after[id].children@.len() && child_move_of(after, id, j) == e by {
                    assert(before[id].state@[e] == CellState::Empty);
                    let j = choose|j: int|
                        0 <= j < before[id].children@.len() && child_move_of(before, id, j) == e;
                    assert(child_ok(board, after, id, j));
                    assert(child_move_of(after, id, j) == e);
                }
            }
            assert forall|j: int, k: int| 0 <= j < k < after[id].children@.len() implies #[trigger] child_move_of(
                after,
                id,
                j,
            ) < #[trigger] child_move_of(after, id, k) by {
                assert(child_ok(board, after, id, j));
                assert(child_ok(board, after, id, k));
                assert(child_move_of(before, id, j) < child_move_of(before, id, k));
            }
        }
    }

    /// Expands the leaf `leaf`: for each empty cell of its state, makes the
    /// child that the other side's move onto the cell leads to. A child
    /// that wins outright records one simulation and one win; any other is
    /// scored by three playouts, each of which takes one from its wins
    /// where the side that moved into it wins the playout, and adds one
    /// otherwise. Returns the sum of the children's simulations, and the
    /// sum of their wins with the sign turned.
    fn expand(&mut self, tree: &mut SearchTree, leaf: usize) -> (value: (i32, i32))
        requires
            old(tree).wf(old(self).board()),
            leaf < old(tree).nodes@.len(),
            old(tree).nodes@[leaf as int].children@.len() == 0,
            !old(tree).nodes@[leaf as int].win,
        ensures
            final(self).board() == old(self).board(),
            final(tree).wf(old(self).board()),
            final(tree).rounds == old(tree).rounds,
            final(tree).nodes@.len() >= old(tree).nodes@.len(),
            covers(final(tree).nodes@, leaf as int, old(self).board().cells() as int),
            forall|id: int|
                0 <= id < old(tree).nodes@.len() ==> {
                    &&& (#[trigger] final(tree).nodes@[id]).last_player
                        == old(tree).nodes@[id].last_player
                    &&& final(tree).nodes@[id].last_move == old(tree).nodes@[id].last_move
                    &&& final(tree).nodes@[id].state == old(tree).nodes@[id].state
                    &&& final(tree).nodes@[id].num_sims == old(tree).nodes@[id].num_sims
                    &&& final(tree).nodes@[id].num_wins == old(tree).nodes@[id].num_wins
                    &&& final(tree).nodes@[id].win == old(tree).nodes@[id].win
                    &&& id != leaf ==> final(tree).nodes@[id].children
                        == old(tree).nodes@[id].children
                },
            0 <= value.0 <= 3 * old(self).board().cells(),
            -value.0 <= value.1 <= value.0,
            value.0 == expansion_value(
                old(self).board(),
                old(tree).nodes@[leaf as int].state@,
                old(tree).nodes@[leaf as int].last_player.opponent(),
                old(self).board().cells() as int,
            ).0,
            value.1 == expansion_value(
                old(self).board(),
                old(tree).nodes@[leaf as int].state@,
                old(tree).nodes@[leaf as int].last_player.opponent(),
                old(self).board().cells() as int,
            ).1,
            forall|j: int|
                0 <= j < final(tree).nodes@[leaf as int].children@.len() ==> scored(
                    old(self).board(),
                    final(tree).nodes@,
                    leaf as int,
                    j,
                ),
            final(tree).nodes@[leaf as int].children@.len() == final(tree).nodes@.len() - old(
                tree,
            ).nodes@.len(),
            forall|j: int|
                0 <= j < final(tree).nodes@[leaf as int].children@.len() ==> #[trigger] final(tree).nodes@[leaf as int].children@[j] == old(tree).nodes@.len() + j,
            forall|id: int|
                old(tree).nodes@.len() <= id < final(tree).nodes@.len() ==> (#[trigger] final(tree).nodes@[id]).children@.len() == 0,
    {
        let ghost board = self.board();
        let ghost rounds = tree.rounds as int;
        let ghost nodes0 = tree.nodes@;
        let ghost leaf_state = tree.nodes@[leaf as int].state@;
        let size = self.board.size();
        let new_player = switch_player(tree.nodes[leaf].last_player);
        let mut sims: i32 = 0;
        let mut wins: i32 = 0;
        let mut i: usize = 0;
        proof {
            assert(node_ok(board, tree.nodes@, leaf as int, rounds));
            assert(node_ok(board, tree.nodes@, 0, rounds));
        }
        while i < size
            invariant
                self.board() == board,
                board.wf(),
                board.cells() <= MAX_CELLS,
                size == board.cells(),
                i <= size,
                tree.rounds == rounds,
                0 <= rounds <= ITERATIONS,
                leaf < nodes0.len(),
                nodes0.len() <= tree.nodes@.len(),
                new_player == tree.nodes@[leaf as int].last_player.opponent(),
                !tree.nodes@[0].win,
                nodes_ok(board, tree.nodes@, rounds, leaf as int),
                single_parent(tree.nodes@),
                growing_ok(board, tree.nodes@, leaf as int, rounds, i as int),
                forall|id: int|
                    0 <= id < nodes0.len() ==> {
                        &&& (#[trigger] tree.nodes@[id]).last_player == nodes0[id].last_player
                        &&& tree.nodes@[id].last_move == nodes0[id].last_move
                        &&& tree.nodes@[id].state == nodes0[id].state
                        &&& tree.nodes@[id].num_sims == nodes0[id].num_sims
                        &&& tree.nodes@[id].num_wins == nodes0[id].num_wins
                        &&& tree.nodes@[id].win == nodes0[id].win
                        &&& id != leaf ==> tree.nodes@[id].children == nodes0[id].children
                    },
                0 <= sims <= 3 * i,
                -sims <= wins <= sims,
                leaf_state == tree.nodes@[leaf as int].state@,
                sims == expansion_value(board, leaf_state, new_player, i as int).0,
                wins == expansion_value(board, leaf_state, new_player, i as int).1,
                forall|j: int|
                    0 <= j < tree.nodes@[leaf as int].children@.len() ==> scored(
                        board,
                        tree.nodes@,
                        leaf as int,
                        j,
                    ),
                tree.nodes@[leaf as int].children@.len() == tree.nodes@.len() - nodes0.len(),
                forall|j: int|
                    0 <= j < tree.nodes@[leaf as int].children@.len() ==> #[trigger] tree.nodes@[leaf as int].children@[j]
                        == nodes0.len() + j,
                forall|id: int|
                    nodes0.len() <= id < tree.nodes@.len() ==> (#[trigger] tree.nodes@[id]).children@.len()
                        == 0,
            decreases size - i,
        {
            proof {
                reveal_with_fuel(expansion_value, 2);
            }
            if tree.nodes[leaf].state[i] == CellState::Empty {
                let mut new_state = tree.nodes[leaf].state.clone();
                let win = self.board.update_move(&mut new_state, new_player, i);
                let mut new_node = Node::new(new_player, i, new_state, win);
                let ghost verdict = board.winner_of(filled(new_node.state@, new_player));
                if win {
                    new_node.update_stats(1, 1);
                    sims += 1;
                    wins -= 1;
                } else {
                    let mut round: usize = 0;
                    while round < 3
                        invariant
                            self.board() == board,
                            board.wf(),
                            size == board.cells(),
                            i < size,
                            size <= MAX_CELLS,
                            round <= 3,
                            new_node.state@.len() == size,
                            new_node.last_player == new_player,
                            new_node.last_move == i,
                            new_node.win == win,
                            new_node.children@.len() == 0,
                            new_node.state@ == board.after_move(
                                tree.nodes@[leaf as int].state@,
                                new_player,
                                i as int,
                            ),
                            new_node.num_sims == round,
                            verdict == board.winner_of(filled(new_node.state@, new_player)),
                            new_node.num_wins == (if verdict == new_player {
                                -round
                            } else {
                                round as int
                            }),
                            0 <= sims - round <= 3 * i,
                            -sims <= wins <= sims,
                            sims == expansion_value(board, leaf_state, new_player, i as int).0
                                + round,
                            wins == expansion_value(board, leaf_state, new_player, i as int).1 - (
                            if verdict == new_player {
                                -round
                            } else {
                                round as int
                            }),
                        decreases 3 - round,
                    {
                        let winner = self.rollout(new_node.state.clone(), new_node.last_player);
                        if winner == new_node.last_player {
                            new_node.update_stats(1, -1);
                            sims += 1;
                            wins += 1;
                        } else {
                            new_node.update_stats(1, 1);
                            sims += 1;
                            wins -= 1;
                        }
                        round += 1;
                    }
                }
                let ghost before = tree.nodes@;
                let id = tree.nodes.len();
                tree.nodes.push(new_node);
                tree.nodes[leaf].children.push(id);
                proof {
                    Self::lemma_add_child(
                        board,
                        before,
                        tree.nodes@,
                        leaf as int,
                        rounds,
                        i as int,
                    );
                    Self::lemma_fresh_parent(board, before, tree.nodes@, leaf as int, rounds);
                    assert forall|j: int|
                        0 <= j < tree.nodes@[leaf as int].children@.len() implies scored(
                        board,
                        tree.nodes@,
                        leaf as int,
                        j,
                    ) by {
                        if j < before[leaf as int].children@.len() {
                            assert(scored(board, before, leaf as int, j));
                            assert(child_ok(board, before, leaf as int, j));
                            let c = child_id(before, leaf as int, j);
                            assert(tree.nodes@[c] == before[c]);
                        }
                    }
                }
            } else {
                proof {
                    assert(covers(tree.nodes@, leaf as int, i + 1));
                }
            }
            i += 1;
        }
        proof {
            assert(node_ok(board, tree.nodes@, leaf as int, rounds));
        }
        (sims, wins)
    }

    /// What the steps of a round make of a tree is what `after_round` says.
    proof fn lemma_round(
        before: SearchTree,
        after: SearchTree,
        board: HexBoard,
        path: Seq<int>,
        value: (i32, i32),
    )
        requires
            before.wf(board),
            before.is_descent(path),
            after.rounds == before.rounds + 1,
            after.nodes@.len() >= before.nodes@.len(),
            (value.0 as int, value.1 as int) == before.outcome_at(board, path[path.len() - 1]),
            forall|id: int|
                0 <= id < before.nodes@.len() ==> {
                    &&& (#[trigger] after.nodes@[id]).last_player == before.nodes@[id].last_player
                    &&& after.nodes@[id].last_move == before.nodes@[id].last_move
                    &&& after.nodes@[id].state == before.nodes@[id].state
                    &&& after.nodes@[id].win == before.nodes@[id].win
                    &&& id != path[path.len() - 1] ==> after.nodes@[id].children
                        == before.nodes@[id].children
                    &&& after.nodes@[id].num_sims == before.nodes@[id].num_sims + (
                    if path.contains(id) {
                        value.0 as int
                    } else {
                        0
                    })
                    &&& after.nodes@[id].num_wins == before.nodes@[id].num_wins + (
                    if path.contains(id) {
                        value.1 as int
                    } else {
                        0
                    })
                },
            before.nodes@[path[path.len() - 1]].win ==> after.nodes@.len() == before.nodes@.len()
                && after.nodes@[path[path.len() - 1]].children@.len() == 0,
            !before.nodes@[path[path.len() - 1]].win ==> {
                let leaf = path[path.len() - 1];
                &&& after.nodes@[leaf].children@.len() == after.nodes@.len() - before.nodes@.len()
                &&& forall|j: int|
                    0 <= j < after.nodes@[leaf].children@.len() ==> #[trigger] after.nodes@[leaf].children@[j]
                        == before.nodes@.len() + j
                &&& forall|id: int|
                    before.nodes@.len() <= id < after.nodes@.len() ==> (
                    #[trigger] after.nodes@[id]).children@.len() == 0
                &&& node_ok(board, after.nodes@, leaf, after.rounds as int)
                &&& covers(after.nodes@, leaf, board.cells() as int)
                &&& forall|j: int|
                    0 <= j < after.nodes@[leaf].children@.len() ==> scored(
                        board,
                        after.nodes@,
                        leaf,
                        j,
                    )
            },
        ensures
            after.after_round(before, board, path, value),
    {
        let leaf = path[path.len() - 1];
        assert forall|id: int| 0 <= id < before.node_count() implies {
            &&& #[trigger] after.node_state(id) == before.node_state(id)
            &&& after.node_player(id) == before.node_player(id)
            &&& after.node_move(id) == before.node_move(id)
            &&& after.node_won(id) == before.node_won(id)
            &&& after.node_sims(id) == before.node_sims(id) + (if path.contains(id) {
                value.0 as int
            } else {
                0
            })
            &&& after.node_wins(id) == before.node_wins(id) + (if path.contains(id) {
                value.1 as int
            } else {
                0
            })
            &&& id != leaf ==> after.degree(id) == before.degree(id) && forall|j: int|
                0 <= j < before.degree(id) ==> #[trigger] after.child(id, j) == before.child(id, j)
        } by {
            let _ = after.nodes@[id];
        }
        if !before.node_won(leaf) {
            after.lemma_node_view(board, leaf, after.rounds as int);
            assert forall|j: int| 0 <= j < after.degree(leaf) implies #[trigger] after.child(
                leaf,
                j,
            ) == before.node_count() + j && after.fresh_child(
                board,
                leaf,
                before.node_count() + j,
            ) by {
                let c = after.child(leaf, j);
                assert(after.nodes@[leaf].children@[j] == before.nodes@.len() + j);
                assert(after.made_by_move(board, leaf, c));
                assert(after.nodes@[c].children@.len() == 0);
                assert(scored(board, after.nodes@, leaf, j));
                let _ = after.nodes@[leaf];
            }
        }
    }

    /// One round of the search. Walks down from the root to a leaf, at
    /// each node to the child that the policy prefers. A leaf that won
    /// counts as ten simulations and ten wins, and nothing is played out;
    /// any other is expanded. The outcome is added, as it is, to the
    /// counters of every node on the way, the leaf and the root included,
    /// and returned.
    pub fn iteration<P: SelectionPolicy>(&mut self, tree: &mut SearchTree, policy: &P) -> (value: (
        i32,
        i32,
    ))
        requires
            old(tree).wf(old(self).board()),
            old(tree).rounds() < ITERATIONS,
        ensures
            final(self).board() == old(self).board(),
            final(tree).wf(old(self).board()),
            exists|path: Seq<int>|
                {
                    &&& #[trigger] final(tree).after_round(
                        *old(tree),
                        old(self).board(),
                        path,
                        value,
                    )
                    &&& old(tree).node_won(path[path.len() - 1]) ==> *final(self) == *old(self)
                },
            final(tree).rounds() == old(tree).rounds() + 1,
            final(tree).root_state() == old(tree).root_state(),
            final(tree).root_player() == old(tree).root_player(),
            final(tree).root_expanded(),
            old(tree).root_children() > 0 ==> final(tree).root_children() == old(
                tree,
            ).root_children(),
            0 <= value.0 <= round_gain(old(self).board()),
            -value.0 <= value.1 <= value.0,
            final(tree).root_sims() == old(tree).root_sims() + value.0,
            final(tree).root_wins() == old(tree).root_wins() + value.1,
            old(tree).root_children() == 0 ==> final(tree).first_round(old(self).board(), value),
    {
        let ghost board = self.board();
        let ghost rounds = tree.rounds as int;
        let ghost before = *tree;
        let path = self.select_path(tree, policy);
        let ghost pi = as_ints(path@);
        let leaf = path[path.len() - 1];
        assert(pi[pi.len() - 1] == leaf);
        let value = if tree.nodes[leaf].win {
            (10, 10)
        } else {
            self.expand(tree, leaf)
        };
        let ghost grown = tree.nodes@;
        proof {
            assert(node_ok(board, grown, 0, rounds));
            assert(node_ok(board, grown, leaf as int, rounds));
            assert(covers(grown, 0, board.cells() as int));
            assert(rounds * round_gain(board) <= 99 * round_gain(board)) by (nonlinear_arith)
                requires
                    rounds <= 99,
                    round_gain(board) >= 0,
            ;
        }
        let mut k: usize = 0;
        while k < path.len()
            invariant
                k <= path@.len(),
                path@.len() >= 1,
                path@[0] == 0,
                board.cells() <= MAX_CELLS,
                0 <= rounds <= 99,
                rounds * round_gain(board) <= 99 * round_gain(board),
                tree.rounds == rounds,
                tree.nodes@.len() == grown.len(),
                nodes_ok(board, grown, rounds, -1),
                0 <= value.0 <= round_gain(board),
                -value.0 <= value.1 <= value.0,
                forall|j: int| 0 <= j < path@.len() ==> (#[trigger] path@[j]) < grown.len(),
                forall|j: int, l: int| 0 <= j < l < path@.len() ==> path@[j] < path@[l],
                forall|id: int|
                    0 <= id < grown.len() ==> {
                        &&& (#[trigger] tree.nodes@[id]).last_player == grown[id].last_player
                        &&& tree.nodes@[id].last_move == grown[id].last_move
                        &&& tree.nodes@[id].state == grown[id].state
                        &&& tree.nodes@[id].children == grown[id].children
                        &&& tree.nodes@[id].win == grown[id].win
                        &&& tree.nodes@[id].num_sims == grown[id].num_sims + (if on_path(
                            path@,
                            k as int,
                            id,
                        ) {
                            value.0 as int
                        } else {
                            0
                        })
                        &&& tree.nodes@[id].num_wins == grown[id].num_wins + (if on_path(
                            path@,
                            k as int,
                            id,
                        ) {
                            value.1 as int
                        } else {
                            0
                        })
                    },
            decreases path@.len() - k,
        {
            let id = path[k];
            proof {
                assert(node_ok(board, grown, id as int, rounds));
                assert(!on_path(path@, k as int, id as int)) by {
                    if on_path(path@, k as int, id as int) {
                        let j = choose|j: int| 0 <= j < k && #[trigger] path@[j] == id as int;
                        assert(path@[j] < path@[k as int]);
                    }
                }
            }
            let ghost prev = tree.nodes@;
            tree.nodes[id].update_stats(value.0, value.1);
            proof {
                assert forall|n: int| 0 <= n < grown.len() implies (on_path(path@, k + 1, n)
                    <==> on_path(path@, k as int, n) || n == id) by {
                    if on_path(path@, k + 1, n) {
                        let j = choose|j: int| 0 <= j < k + 1 && #[trigger] path@[j] == n;
                        if j < k {
                            assert(on_path(path@, k as int, n));
                        }
                    }
                    if on_path(path@, k as int, n) {
                        let j = choose|j: int| 0 <= j < k && #[trigger] path@[j] == n;
                        assert(0 <= j < k + 1 && path@[j] == n);
                    }
                    if n == id {
                        assert(path@[k as int] == n);
                    }
                }
                assert forall|n: int| 0 <= n < grown.len() implies {
                    &&& (#[trigger] tree.nodes@[n]).last_player == grown[n].last_player
                    &&& tree.nodes@[n].last_move == grown[n].last_move
                    &&& tree.nodes@[n].state == grown[n].state
                    &&& tree.nodes@[n].children == grown[n].children
                    &&& tree.nodes@[n].win == grown[n].win
                    &&& tree.nodes@[n].num_sims == grown[n].num_sims + (if on_path(
                        path@,
                        k + 1,
                        n,
                    ) {
                        value.0 as int
                    } else {
                        0
                    })
                    &&& tree.nodes@[n].num_wins == grown[n].num_wins + (if on_path(
                        path@,
                        k + 1,
                        n,
                    ) {
                        value.1 as int
                    } else {
                        0
                    })
                } by {
                    let _ = prev[n];
                    if n != id {
                        assert(tree.nodes@[n] == prev[n]);
                    }
                }
            }
            k += 1;
        }
        proof {
            assert forall|n: int| 0 <= n < grown.len() implies (pi.contains(n) <==> on_path(
                path@,
                path@.len() as int,
                n,
            )) by {
                if pi.contains(n) {
                    let j = choose|j: int| 0 <= j < pi.len() && pi[j] == n;
                    assert(path@[j] == n);
                }
                if on_path(path@, path@.len() as int, n) {
                    let j = choose|j: int| 0 <= j < path@.len() && #[trigger] path@[j] == n;
                    assert(pi[j] == n);
                }
            }
            assert forall|n: int| 0 <= n < grown.len() implies {
                &&& (#[trigger] tree.nodes@[n]).last_player == grown[n].last_player
                &&& tree.nodes@[n].last_move == grown[n].last_move
                &&& tree.nodes@[n].state == grown[n].state
                &&& tree.nodes@[n].children == grown[n].children
                &&& tree.nodes@[n].win == grown[n].win
                &&& (tree.nodes@[n].num_sims == grown[n].num_sims && tree.nodes@[n].num_wins
                    == grown[n].num_wins) || (tree.nodes@[n].num_sims == grown[n].num_sims
                    + value.0 && tree.nodes@[n].num_wins == grown[n].num_wins + value.1)
            } by {
                let _ = grown[n];
            }
            Self::lemma_restat(board, grown, tree.nodes@, rounds, value.0 as int, value.1 as int);
            assert(single_parent(grown));
            let now = tree.nodes@;
            assert forall|a: int, j: int, b: int, k: int|
                0 <= a < now.len() && 0 <= b < now.len() && 0 <= j < now[a].children@.len() && 0
                    <= k < now[b].children@.len() && #[trigger] child_id(now, a, j)
                    == #[trigger] child_id(now, b, k) implies a == b && j == k by {
                assert(now[a].children == grown[a].children);
                assert(now[b].children == grown[b].children);
                assert(child_id(grown, a, j) == child_id(grown, b, k));
            }
        }
        tree.rounds += 1;
        proof {
            let after = *tree;
            assert(node_ok(board, after.nodes@, leaf as int, rounds + 1));
            assert(pi.contains(0)) by {
                assert(pi[0] == 0);
            }
            if !before.nodes@[leaf as int].win {
                assert(covers(after.nodes@, leaf as int, board.cells() as int)) by {
                    assert forall|e: int|
                        0 <= e < board.cells() && #[trigger] after.nodes@[leaf as int].state@[e]
                            == CellState::Empty implies exists|j: int|
                        0 <= j < after.nodes@[leaf as int].children@.len() && child_move_of(
                            after.nodes@,
                            leaf as int,
                            j,
                        ) == e by {
                        assert(grown[leaf as int].state@[e] == CellState::Empty);
                        let j = choose|j: int|
                            0 <= j < grown[leaf as int].children@.len() && child_move_of(
                                grown,
                                leaf as int,
                                j,
                            ) == e;
                        let c = child_id(grown, leaf as int, j);
                        assert(child_ok(board, grown, leaf as int, j));
                        assert(after.nodes@[c].last_move == grown[c].last_move);
                        assert(child_move_of(after.nodes@, leaf as int, j) == e);
                    }
                }
                assert forall|j: int|
                    0 <= j < after.nodes@[leaf as int].children@.len() implies scored(
                    board,
                    after.nodes@,
                    leaf as int,
                    j,
                ) by {
                    assert(scored(board, grown, leaf as int, j));
                    let c = child_id(grown, leaf as int, j);
                    assert(c == before.nodes@.len() + j);
                    assert(!pi.contains(c)) by {
                        if pi.contains(c) {
                            let i = choose|i: int| 0 <= i < pi.len() && pi[i] == c;
                            assert(path@[i] < before.nodes@.len());
                        }
                    }
                    let _ = after.nodes@[c];
                    let _ = after.nodes@[leaf as int];
                }
            }
            Self::lemma_round(before, after, board, pi, value);
            assert(after.after_round(before, board, pi, value));
            let _ = after.node_state(0);
            assert(node_ok(board, after.nodes@, 0, rounds + 1));
            if leaf == 0 {
                if before.nodes@[0].win {
                } else {
                    after.lemma_node_view(board, 0, rounds + 1);
                }
            } else {
                assert(covers(after.nodes@, 0, board.cells() as int));
                after.lemma_node_view(board, 0, rounds + 1);
            }
        }
        value
    }

    /// The move to play: that of the first child of the root with the
    /// highest ratio of wins to simulations; 0 where the root has no child.
    pub fn best_move(&self, tree: &SearchTree) -> (best: usize)
        requires
            tree.wf(self.board()),
        ensures
            tree.root_children() == 0 ==> best == 0,
            tree.root_children() > 0 ==> exists|j: int|
                0 <= j < tree.root_children() && tree.first_best(j) && best == tree.child_move(j),
    {
        let root = &tree.nodes[0];
        let mut best_move: usize = 0;
        let mut best_wins: i64 = 0;
        let mut best_sims: i64 = 1;
        let ghost mut best: int = 0;
        let mut i: usize = 0;
        proof {
            assert(node_ok(self.board(), tree.nodes@, 0, tree.rounds as int));
        }
        while i < root.children.len()
            invariant
                tree.wf(self.board()),
                root == tree.nodes@[0],
                i <= root.children@.len(),
                i == 0 ==> best_move == 0,
                -0x8000_0000 <= best_wins <= 0x8000_0000,
                0 <= best_sims <= 0x8000_0000,
                forall|j: int|
                    0 <= j < root.children@.len() ==> #[trigger] child_ok(
                        self.board(),
                        tree.nodes@,
                        0,
                        j,
                    ),
                i > 0 ==> {
                    &&& 0 <= best < i
                    &&& best_move == tree.child_move(best)
                    &&& best_wins == tree.child_wins(best)
                    &&& best_sims == tree.child_sims(best)
                    &&& forall|k: int|
                        0 <= k < i ==> !ratio_above(
                            #[trigger] tree.child_wins(k),
                            tree.child_sims(k),
                            tree.child_wins(best),
                            tree.child_sims(best),
                        )
                    &&& forall|k: int|
                        0 <= k < best ==> ratio_above(
                            tree.child_wins(best),
                            tree.child_sims(best),
                            #[trigger] tree.child_wins(k),
                            tree.child_sims(k),
                        )
                },
            decreases root.children@.len() - i,
        {
            assert(child_ok(self.board(), tree.nodes@, 0, i as int));
            let child = &tree.nodes[root.children[i]];
            let wins = child.num_wins as i64;
            let sims = child.num_sims as i64;
            proof {
                if i > 0 {
                    assert(child_ok(self.board(), tree.nodes@, 0, best));
                }
                assert(-0x8000_0000 * 0x8000_0000 <= wins * best_sims <= 0x8000_0000 * 0x8000_0000
                    && -0x8000_0000 * 0x8000_0000 <= best_wins * sims <= 0x8000_0000 * 0x8000_0000)
                    by (nonlinear_arith)
                    requires
                        -0x8000_0000 <= wins <= 0x8000_0000,
                        -0x8000_0000 <= best_wins <= 0x8000_0000,
                        0 <= sims <= 0x8000_0000,
                        0 <= best_sims <= 0x8000_0000,
                ;
            }
            if i == 0 || wins * best_sims > best_wins * sims {
                proof {
                    if i > 0 {
                        assert forall|k: int| 0 <= k < i implies ratio_above(
                            wins as int,
                            sims as int,
                            #[trigger] tree.child_wins(k),
                            tree.child_sims(k),
                        ) by {
                            assert(child_ok(self.board(), tree.nodes@, 0, k));
                            lemma_ratio_chain(
                                wins as int,
                                sims as int,
                                best_wins as int,
                                best_sims as int,
                                tree.child_wins(k),
                                tree.child_sims(k),
                            );
                        }
                    }
                    best = i as int;
                }
                best_move = child.last_move;
                best_wins = wins;
                best_sims = sims;
            }
            i += 1;
        }
        best_move
    }

    /// The move for the side after `player` in the position `state`, one
    /// byte for each cell: the best move that `ITERATIONS` rounds of the
    /// search find, that is the move of the first child of the root with
    /// the highest ratio of wins to simulations in the tree that these
    /// rounds make of the root alone. It is an empty cell of `state`, the
    /// one where there is only one, and 0 where there is none.
    pub fn get_hex_move<P: SelectionPolicy>(
        &mut self,
        state: Vec<u8>,
        player: HexPlayerColor,
        policy: &P,
    ) -> (best_move: usize)
        requires
            old(self).board().wf(),
            old(self).board().cells() <= MAX_CELLS,
            state@.len() == old(self).board().cells(),
            forall|i: int| 0 <= i < state@.len() ==> state@[i] <= 8,
        ensures
            final(self).board() == old(self).board(),
            (exists|i: int| 0 <= i < state@.len() && state@[i] == 0) ==> best_move < state@.len()
                && state@[best_move as int] == 0,
            (forall|i: int| 0 <= i < state@.len() ==> state@[i] != 0) ==> best_move == 0,
            forall|only: int|
                0 <= only < state@.len() && state@[only] == 0 && (forall|i: int|
                    0 <= i < state@.len() && i != only ==> state@[i] != 0) ==> best_move == only,
            exists|tree: SearchTree|
                {
                    &&& tree.wf(old(self).board())
                    &&& #[trigger] tree.searched(
                        old(self).board(),
                        decoded(state@),
                        player,
                        ITERATIONS as nat,
                    )
                    &&& tree.root_children() == 0 ==> best_move == 0
                    &&& tree.root_children() > 0 ==> exists|j: int|
                        0 <= j < tree.root_children() && tree.first_best(j) && best_move
                            == tree.child_move(j)
                },
    {
        let cells = decode_state(&state).unwrap();
        let mut tree = SearchTree::new(&self.board, player, cells);
        let mut round: u32 = 0;
        while round < ITERATIONS
            invariant
                self.board() == old(self).board(),
                round <= ITERATIONS,
                tree.wf(self.board()),
                tree.rounds() == round,
                tree.root_state() == cells@,
                round > 0 ==> tree.root_expanded(),
                tree.searched(self.board(), cells@, player, round as nat),
            decreases ITERATIONS - round,
        {
            let ghost before = tree;
            let value = self.iteration(&mut tree, policy);
            proof {
                let path = choose|path: Seq<int>|
                    #[trigger] tree.after_round(before, self.board(), path, value);
                SearchTree::lemma_searched_step(
                    before,
                    tree,
                    self.board(),
                    cells@,
                    player,
                    round as nat,
                    path,
                    value,
                );
            }
            round += 1;
        }
        let best_move = self.best_move(&tree);
        proof {
            assert forall|i: int| 0 <= i < state@.len() implies (state@[i] == 0 <==> cells@[i]
                == CellState::Empty) by {
                assert(cells@[i].code() == state@[i]);
            }
            if exists|i: int| 0 <= i < state@.len() && state@[i] == 0 {
                let e = choose|i: int| 0 <= i < state@.len() && state@[i] == 0;
                assert(tree.root_state()[e] == CellState::Empty);
                let j = choose|j: int| 0 <= j < tree.root_children() && tree.child_move(j) == e;
                let b = choose|j: int|
                    0 <= j < tree.root_children() && tree.first_best(j) && best_move
                        == tree.child_move(j);
                assert(tree.root_state()[tree.child_move(b)] == CellState::Empty);
            } else {
                if tree.root_children() > 0 {
                    let m = tree.child_move(0);
                    assert(tree.root_state()[m] == CellState::Empty);
                    assert(state@[m] == 0);
                }
            }
        }
        best_move
    }
}

/// A higher ratio stays higher than every ratio that the lower one is not
/// below.
proof fn lemma_ratio_chain(w1: int, s1: int, w2: int, s2: int, w3: int, s3: int)
    requires
        s1 > 0,
        s2 > 0,
        s3 > 0,
        ratio_above(w1, s1, w2, s2),
        !ratio_above(w3, s3, w2, s2),
    ensures
        ratio_above(w1, s1, w3, s3),
{
    assert(w1 * s2 * s3 > w2 * s1 * s3) by (nonlinear_arith)
        requires
            w1 * s2 > w2 * s1,
            s3 > 0,
    ;
    assert(w3 * s2 * s1 <= w2 * s3 * s1) by (nonlinear_arith)
        requires
            w3 * s2 <= w2 * s3,
            s1 > 0,
    ;
    assert(w1 * s3 > w3 * s1) by (nonlinear_arith)
        requires
            w1 * s2 * s3 > w2 * s1 * s3,
            w3 * s2 * s1 <= w2 * s3 * s1,
            s2 > 0,
    ;
}

/// The cell states that the bytes of a serialized board stand for; `None`
/// where a byte stands for none.
pub fn decode_state(bytes: &Vec<u8>) -> (cells: Option<Vec<CellState>>)
    ensures
        cells.is_some() <==> forall|i: int| 0 <= i < bytes@.len() ==> bytes@[i] <= 8,
        cells.is_some() ==> cells.unwrap()@.len() == bytes@.len() && forall|i: int|
            0 <= i < bytes@.len() ==> (#[trigger] cells.unwrap()@[i]).code() == bytes@[i],
        cells.is_some() ==> cells.unwrap()@ == decoded(bytes@),
{
    let mut cells: Vec<CellState> = Vec::with_capacity(bytes.len());
    let mut i: usize = 0;
    while i < bytes.len()
        invariant
            i <= bytes@.len(),
            cells@.len() == i,
            forall|k: int| 0 <= k < i ==> bytes@[k] <= 8,
            forall|k: int| 0 <= k < i ==> (#[trigger] cells@[k]).code() == bytes@[k],
            forall|k: int| 0 <= k < i ==> #[trigger] cells@[k] == CellState::of_code(bytes@[k]),
        decreases bytes@.len() - i,
    {
        match CellState::from_u8(bytes[i]) {
            Some(cell) => {
                cells.push(cell);
            },
            None => {
                return None;
            },
        }
        i += 1;
    }
    assert(cells@ =~= decoded(bytes@));
    Some(cells)
}

} // verus!

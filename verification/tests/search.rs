use hex_wasm::hex::CellState;
use hex_wasm::hex::HexBoard;
use hex_wasm::hex::HexPlayerColor;
use hex_wasm::mcts::decode_state;
use hex_wasm::mcts::preferred_child;
use hex_wasm::mcts::SearchTree;
use hex_wasm::mcts::SelectionPolicy;
use hex_wasm::mcts::ITERATIONS;
use hex_wasm::mcts::MCTSAI;

/// The upper confidence bound of a child, with exploration constant 1.
struct Ucb1;

fn ucb(parent_sims: i32, wins: i32, sims: i32) -> f32 {
    (wins as f32) / (sims as f32) + 1.0 * ((parent_sims as f32).ln() / (sims as f32)).sqrt()
}

impl SelectionPolicy for Ucb1 {
    fn prefers(
        &self,
        parent_sims: i32,
        candidate_wins: i32,
        candidate_sims: i32,
        best_wins: i32,
        best_sims: i32,
    ) -> bool {
        ucb(parent_sims, candidate_wins, candidate_sims) > ucb(parent_sims, best_wins, best_sims)
    }
}

/// Always walks down to the last child.
struct LastChild;

impl SelectionPolicy for LastChild {
    fn prefers(&self, _: i32, _: i32, _: i32, _: i32, _: i32) -> bool {
        true
    }
}

fn bytes_of(state: &[CellState]) -> Vec<u8> {
    state.iter().map(|c| c.to_u8()).collect()
}

#[test]
fn decode_state_reads_each_byte() {
    let cells = decode_state(&vec![0, 1, 2, 3, 4, 5, 6, 7, 8]).unwrap();
    assert!(
        cells
            == vec![
                CellState::Empty,
                CellState::White,
                CellState::WhiteWest,
                CellState::WhiteEast,
                CellState::WhiteWin,
                CellState::Black,
                CellState::BlackNorth,
                CellState::BlackSouth,
                CellState::BlackWin,
            ]
    );
    assert!(decode_state(&Vec::new()).unwrap().is_empty());
}

#[test]
fn decode_state_refuses_other_bytes() {
    assert!(decode_state(&vec![0, 5, 9]).is_none());
    assert!(decode_state(&vec![200]).is_none());
}

#[test]
fn playout_order_is_a_permutation_of_the_empty_cells() {
    let board = HexBoard::new(10, 10);
    let mut ai = MCTSAI::with_seed(board, 7);
    let mut state = vec![CellState::Empty; 100];
    state[3] = CellState::Black;
    state[50] = CellState::WhiteWest;
    state[99] = CellState::BlackSouth;
    let order = ai.playout_order(&state);
    let mut sorted = order.clone();
    sorted.sort();
    let expected: Vec<usize> = (0..100).filter(|c| *c != 3 && *c != 50 && *c != 99).collect();
    assert_eq!(sorted, expected);
}

#[test]
fn playout_order_is_shuffled() {
    let board = HexBoard::new(10, 10);
    let mut ai = MCTSAI::with_seed(board, 7);
    let state = vec![CellState::Empty; 100];
    let first = ai.playout_order(&state);
    let second = ai.playout_order(&state);
    let ascending: Vec<usize> = (0..100).collect();
    assert!(first != ascending);
    assert!(second != ascending);
    assert!(first != second);
}

#[test]
fn seeded_engines_draw_the_same_orders() {
    let state = vec![CellState::Empty; 64];
    let mut a = MCTSAI::with_seed(HexBoard::new(8, 8), 42);
    let mut b = MCTSAI::with_seed(HexBoard::new(8, 8), 42);
    let mut c = MCTSAI::with_seed(HexBoard::new(8, 8), 43);
    let order_a = a.playout_order(&state);
    assert_eq!(order_a, b.playout_order(&state));
    assert!(order_a != c.playout_order(&state));
}

#[test]
fn entropy_engine_plays() {
    let mut ai = MCTSAI::new(HexBoard::new(3, 3)).unwrap();
    let order = ai.playout_order(&vec![CellState::Empty; 9]);
    assert_eq!(order.len(), 9);
}

#[test]
fn rollout_fills_with_one_color() {
    let board = HexBoard::new(3, 3);
    let mut ai = MCTSAI::with_seed(board, 1);
    let empty = vec![CellState::Empty; 9];
    assert!(ai.rollout(empty.clone(), HexPlayerColor::Black) == HexPlayerColor::Black);
    assert!(ai.rollout(empty, HexPlayerColor::White) == HexPlayerColor::White);
}

#[test]
fn rollout_respects_the_stones_on_the_board() {
    let board = HexBoard::new(3, 3);
    let mut ai = MCTSAI::with_seed(HexBoard::new(3, 3), 1);
    // white holds the middle row
    let mut state = vec![CellState::Empty; 9];
    board.update_move(&mut state, HexPlayerColor::White, 3);
    board.update_move(&mut state, HexPlayerColor::White, 4);
    assert!(ai.rollout(state.clone(), HexPlayerColor::Black) == HexPlayerColor::Black);
    board.update_move(&mut state, HexPlayerColor::White, 5);
    for _ in 0..5 {
        assert!(ai.rollout(state.clone(), HexPlayerColor::Black) == HexPlayerColor::White);
        assert!(ai.rollout(state.clone(), HexPlayerColor::White) == HexPlayerColor::White);
    }
}

#[test]
fn first_round_expands_the_root() {
    let board = HexBoard::new(2, 2);
    let mut ai = MCTSAI::with_seed(HexBoard::new(2, 2), 5);
    let mut tree = SearchTree::new(ai.board_ref(), HexPlayerColor::White, vec![CellState::Empty; 4]);
    assert_eq!(tree.child_stats(ai.board_ref()), Vec::new());
    assert_eq!(ai.best_move(&tree), 0);
    let value = ai.iteration(&mut tree, &Ucb1);
    assert_eq!(value, (12, 12));
    assert_eq!(
        tree.child_stats(ai.board_ref()),
        vec![(0, -3, 3), (1, -3, 3), (2, -3, 3), (3, -3, 3)]
    );
    assert_eq!(ai.best_move(&tree), 0);
}

#[test]
fn second_round_expands_the_chosen_child() {
    let board = HexBoard::new(2, 2);
    let mut ai = MCTSAI::with_seed(HexBoard::new(2, 2), 5);
    let mut tree = SearchTree::new(ai.board_ref(), HexPlayerColor::White, vec![CellState::Empty; 4]);
    ai.iteration(&mut tree, &Ucb1);
    let value = ai.iteration(&mut tree, &Ucb1);
    assert_eq!(value, (9, 9));
    assert_eq!(
        tree.child_stats(ai.board_ref()),
        vec![(0, 6, 12), (1, -3, 3), (2, -3, 3), (3, -3, 3)]
    );
    assert_eq!(ai.best_move(&tree), 0);
}

#[test]
fn descent_follows_the_policy() {
    let board = HexBoard::new(2, 2);
    let mut ai = MCTSAI::with_seed(HexBoard::new(2, 2), 5);
    let mut tree = SearchTree::new(ai.board_ref(), HexPlayerColor::White, vec![CellState::Empty; 4]);
    ai.iteration(&mut tree, &LastChild);
    let value = ai.iteration(&mut tree, &LastChild);
    assert_eq!(value, (9, 9));
    assert_eq!(
        tree.child_stats(ai.board_ref()),
        vec![(0, -3, 3), (1, -3, 3), (2, -3, 3), (3, 6, 12)]
    );
    assert_eq!(ai.best_move(&tree), 3);
}

#[test]
fn winning_child_counts_once() {
    let board = HexBoard::new(2, 2);
    let mut ai = MCTSAI::with_seed(HexBoard::new(2, 2), 5);
    let mut state = vec![CellState::Empty; 4];
    board.update_move(&mut state, HexPlayerColor::Black, 0);
    board.update_move(&mut state, HexPlayerColor::White, 1);
    // black to move: 2 wins at once, 3 does not
    let mut tree = SearchTree::new(ai.board_ref(), HexPlayerColor::White, state);
    let value = ai.iteration(&mut tree, &Ucb1);
    assert_eq!(value, (4, 2));
    assert_eq!(tree.child_stats(ai.board_ref()), vec![(2, 1, 1), (3, -3, 3)]);
    assert_eq!(ai.best_move(&tree), 2);
    // the winning child is a leaf that won: ten simulations, ten wins
    let value = ai.iteration(&mut tree, &Ucb1);
    assert_eq!(value, (10, 10));
    assert_eq!(tree.child_stats(ai.board_ref()), vec![(2, 11, 11), (3, -3, 3)]);
}

#[test]
fn best_move_takes_the_first_of_equal_ratios() {
    let board = HexBoard::new(3, 1);
    let mut ai = MCTSAI::with_seed(HexBoard::new(3, 1), 5);
    let mut state = vec![CellState::Empty; 3];
    board.update_move(&mut state, HexPlayerColor::Black, 1);
    let mut tree = SearchTree::new(ai.board_ref(), HexPlayerColor::Black, state);
    ai.iteration(&mut tree, &Ucb1);
    let stats = tree.child_stats(ai.board_ref());
    assert_eq!(stats.len(), 2);
    assert_eq!(stats[0].0, 0);
    assert_eq!(stats[1].0, 2);
    assert_eq!(stats[0].1 * stats[1].2, stats[1].1 * stats[0].2);
    assert_eq!(ai.best_move(&tree), 0);
}

#[test]
fn full_run_of_rounds_keeps_the_children() {
    let board = HexBoard::new(3, 3);
    let mut ai = MCTSAI::with_seed(HexBoard::new(3, 3), 11);
    let mut state = vec![CellState::Empty; 9];
    board.update_move(&mut state, HexPlayerColor::Black, 4);
    let mut tree = SearchTree::new(ai.board_ref(), HexPlayerColor::Black, state);
    let mut sims = 0;
    for _ in 0..ITERATIONS {
        let value = ai.iteration(&mut tree, &Ucb1);
        assert!(value.0 >= 0);
        assert!(value.1.abs() <= value.0);
        sims += value.0;
        let stats = tree.child_stats(ai.board_ref());
        let moves: Vec<usize> = stats.iter().map(|s| s.0).collect();
        assert_eq!(moves, vec![0, 1, 2, 3, 5, 6, 7, 8]);
        for (_, wins, child_sims) in stats {
            assert!(child_sims >= 1);
            assert!(wins.abs() <= child_sims);
        }
    }
    assert!(sims > 0);
    let best = ai.best_move(&tree);
    let stats = tree.child_stats(ai.board_ref());
    let chosen = stats.iter().position(|s| s.0 == best).unwrap();
    for (k, other) in stats.iter().enumerate() {
        let left = (other.1 as i64) * (stats[chosen].2 as i64);
        let right = (stats[chosen].1 as i64) * (other.2 as i64);
        assert!(left <= right);
        if k < chosen {
            assert!(left < right);
        }
    }
}

#[test]
fn decide_returns_the_single_empty_cell() {
    for player in [HexPlayerColor::Black, HexPlayerColor::White] {
        for empty in 0..4 {
            let mut ai = MCTSAI::with_seed(HexBoard::new(2, 2), 3);
            let mut state = vec![
                CellState::Black,
                CellState::White,
                CellState::White,
                CellState::Black,
            ];
            state[empty] = CellState::Empty;
            assert_eq!(ai.get_hex_move(bytes_of(&state), player, &Ucb1), empty);
        }
    }
}

#[test]
fn decide_returns_an_empty_cell() {
    let board = HexBoard::new(4, 4);
    let mut state = vec![CellState::Empty; 16];
    let mut ai = MCTSAI::with_seed(HexBoard::new(4, 4), 9);
    let mut player = HexPlayerColor::White;
    for _ in 0..16 {
        let next = match player {
            HexPlayerColor::Black => HexPlayerColor::White,
            HexPlayerColor::White => HexPlayerColor::Black,
        };
        let pos = ai.get_hex_move(bytes_of(&state), player, &Ucb1);
        assert!(pos < 16);
        assert!(state[pos] == CellState::Empty);
        if board.update_move(&mut state, next, pos) {
            break;
        }
        player = next;
    }
}

#[test]
fn decide_returns_an_empty_cell_whatever_the_policy() {
    let mut ai = MCTSAI::with_seed(HexBoard::new(3, 3), 9);
    let mut state = vec![CellState::Empty; 9];
    state[0] = CellState::BlackNorth;
    state[4] = CellState::White;
    let pos = ai.get_hex_move(bytes_of(&state), HexPlayerColor::White, &LastChild);
    assert!(state[pos] == CellState::Empty);
}

#[test]
fn decide_takes_the_winning_move() {
    let board = HexBoard::new(3, 3);
    let mut state = vec![CellState::Empty; 9];
    board.update_move(&mut state, HexPlayerColor::Black, 1);
    board.update_move(&mut state, HexPlayerColor::White, 0);
    board.update_move(&mut state, HexPlayerColor::Black, 4);
    board.update_move(&mut state, HexPlayerColor::White, 2);
    // black to move, after white: 6 and 7 join the north group to the bottom row
    let mut ai = MCTSAI::with_seed(HexBoard::new(3, 3), 21);
    let pos = ai.get_hex_move(bytes_of(&state), HexPlayerColor::White, &Ucb1);
    assert!(pos == 6 || pos == 7);
}

#[test]
fn decide_on_a_full_board_returns_zero() {
    let mut ai = MCTSAI::with_seed(HexBoard::new(2, 2), 3);
    let state = vec![
        CellState::Black,
        CellState::White,
        CellState::White,
        CellState::Black,
    ];
    assert_eq!(ai.get_hex_move(bytes_of(&state), HexPlayerColor::Black, &Ucb1), 0);
}

#[test]
fn engine_keeps_its_board() {
    let ai = MCTSAI::with_seed(HexBoard::new(5, 3), 1);
    assert_eq!(ai.board_ref().width(), 5);
    assert_eq!(ai.board_ref().height(), 3);
    assert_eq!(ai.board_ref().size(), 15);
}

#[test]
fn round_adds_a_node_for_each_empty_cell_of_the_leaf() {
    let mut ai = MCTSAI::with_seed(HexBoard::new(2, 2), 5);
    let mut tree = SearchTree::new(ai.board_ref(), HexPlayerColor::White, vec![CellState::Empty; 4]);
    assert_eq!(tree.count(), 1);
    ai.iteration(&mut tree, &Ucb1);
    assert_eq!(tree.count(), 5);
    // the leaf reached has three empty cells
    ai.iteration(&mut tree, &Ucb1);
    assert_eq!(tree.count(), 8);
}

#[test]
fn round_on_a_full_board_changes_nothing_but_the_count_of_rounds() {
    let mut ai = MCTSAI::with_seed(HexBoard::new(2, 2), 5);
    let state = vec![
        CellState::Black,
        CellState::White,
        CellState::White,
        CellState::Black,
    ];
    let mut tree = SearchTree::new(ai.board_ref(), HexPlayerColor::White, state);
    assert_eq!(ai.iteration(&mut tree, &Ucb1), (0, 0));
    assert_eq!(tree.count(), 1);
    assert_eq!(tree.child_stats(ai.board_ref()), Vec::new());
}

#[test]
fn won_leaf_adds_no_node_and_draws_no_random_number() {
    let board = HexBoard::new(2, 2);
    let mut state = vec![CellState::Empty; 4];
    board.update_move(&mut state, HexPlayerColor::Black, 0);
    board.update_move(&mut state, HexPlayerColor::White, 1);
    let mut once = MCTSAI::with_seed(HexBoard::new(2, 2), 5);
    let mut twice = MCTSAI::with_seed(HexBoard::new(2, 2), 5);
    let mut tree_once = SearchTree::new(once.board_ref(), HexPlayerColor::White, state.clone());
    let mut tree_twice = SearchTree::new(twice.board_ref(), HexPlayerColor::White, state);
    once.iteration(&mut tree_once, &Ucb1);
    twice.iteration(&mut tree_twice, &Ucb1);
    assert_eq!(tree_twice.count(), 3);
    // the second round walks down to the child that won
    assert_eq!(twice.iteration(&mut tree_twice, &Ucb1), (10, 10));
    assert_eq!(tree_twice.count(), 3);
    let cells = vec![CellState::Empty; 4];
    for _ in 0..5 {
        assert_eq!(once.playout_order(&cells), twice.playout_order(&cells));
    }
}

#[test]
fn round_leaves_the_other_children_as_they_were() {
    let mut ai = MCTSAI::with_seed(HexBoard::new(3, 3), 5);
    let mut tree = SearchTree::new(ai.board_ref(), HexPlayerColor::White, vec![CellState::Empty; 9]);
    ai.iteration(&mut tree, &Ucb1);
    for _ in 0..20 {
        let before = tree.child_stats(ai.board_ref());
        let value = ai.iteration(&mut tree, &Ucb1);
        let after = tree.child_stats(ai.board_ref());
        assert_eq!(before.len(), after.len());
        let changed: Vec<usize> = (0..before.len()).filter(|j| before[*j] != after[*j]).collect();
        assert!(changed.len() <= 1);
        for j in changed {
            assert_eq!(after[j].0, before[j].0);
            assert_eq!(after[j].1, before[j].1 + value.1);
            assert_eq!(after[j].2, before[j].2 + value.0);
        }
    }
}

#[test]
fn entropy_engines_draw_their_own_orders() {
    let state = vec![CellState::Empty; 64];
    let mut a = MCTSAI::new(HexBoard::new(8, 8)).unwrap();
    let mut b = MCTSAI::new(HexBoard::new(8, 8)).unwrap();
    assert_eq!(a.board_ref().size(), 64);
    assert!(a.playout_order(&state) != b.playout_order(&state));
}

#[test]
fn rollout_on_a_board_of_one_row() {
    let mut ai = MCTSAI::with_seed(HexBoard::new(2, 1), 1);
    let empty = vec![CellState::Empty; 2];
    assert!(ai.rollout(empty.clone(), HexPlayerColor::Black) == HexPlayerColor::Black);
    assert!(ai.rollout(empty, HexPlayerColor::White) == HexPlayerColor::White);
}

#[test]
fn comparison_takes_each_child_by_its_own_index() {
    let mut ai = MCTSAI::with_seed(HexBoard::new(2, 2), 5);
    let mut tree = SearchTree::new(ai.board_ref(), HexPlayerColor::White, vec![CellState::Empty; 4]);
    ai.iteration(&mut tree, &LastChild);
    ai.iteration(&mut tree, &LastChild);
    // the children of the root now hold (-3, 3), (-3, 3), (-3, 3), (6, 12)
    let q = tree.comparison(ai.board_ref(), 0, 3, 1);
    assert_eq!(q.parent_sims, 21);
    assert_eq!((q.candidate_wins, q.candidate_sims), (6, 12));
    assert_eq!((q.best_wins, q.best_sims), (-3, 3));
    let q = tree.comparison(ai.board_ref(), 0, 1, 3);
    assert_eq!((q.candidate_wins, q.candidate_sims), (-3, 3));
    assert_eq!((q.best_wins, q.best_sims), (6, 12));
}

#[test]
fn preferred_child_follows_the_answer() {
    assert_eq!(preferred_child(2, 5, true), 5);
    assert_eq!(preferred_child(2, 5, false), 2);
}

/// Prefers the candidate with more simulations, and counts what it is asked.
struct MostVisited {
    asked: std::cell::Cell<usize>,
}

impl SelectionPolicy for MostVisited {
    fn prefers(&self, _: i32, _: i32, candidate_sims: i32, _: i32, best_sims: i32) -> bool {
        self.asked.set(self.asked.get() + 1);
        candidate_sims > best_sims
    }
}

#[test]
fn descent_puts_every_further_child_to_the_policy() {
    let mut ai = MCTSAI::with_seed(HexBoard::new(2, 2), 5);
    let mut tree = SearchTree::new(ai.board_ref(), HexPlayerColor::White, vec![CellState::Empty; 4]);
    ai.iteration(&mut tree, &LastChild);
    ai.iteration(&mut tree, &LastChild);
    // the last child has the most simulations: the descent walks into it,
    // and then into the first of its three children
    let policy = MostVisited { asked: std::cell::Cell::new(0) };
    ai.iteration(&mut tree, &policy);
    assert_eq!(policy.asked.get(), 3 + 2);
    let stats = tree.child_stats(ai.board_ref());
    assert_eq!(stats[0], (0, -3, 3));
    assert_eq!(stats[1], (1, -3, 3));
    assert_eq!(stats[2], (2, -3, 3));
    assert!(stats[3].2 > 12);
}

use hex_wasm::hex::switch_player;
use hex_wasm::hex::CellState;
use hex_wasm::hex::HexBoard;
use hex_wasm::hex::HexPlayerColor;

fn empty_state(board: &HexBoard) -> Vec<CellState> {
    vec![CellState::Empty; board.size()]
}

#[test]
fn switch_player_alternates() {
    assert!(switch_player(HexPlayerColor::Black) == HexPlayerColor::White);
    assert!(switch_player(HexPlayerColor::White) == HexPlayerColor::Black);
}

#[test]
fn cell_state_bytes_follow_the_fixed_order() {
    let all = [
        CellState::Empty,
        CellState::White,
        CellState::WhiteWest,
        CellState::WhiteEast,
        CellState::WhiteWin,
        CellState::Black,
        CellState::BlackNorth,
        CellState::BlackSouth,
        CellState::BlackWin,
    ];
    for (i, cell) in all.iter().enumerate() {
        assert_eq!(cell.to_u8() as usize, i);
        assert!(CellState::from_u8(i as u8) == Some(*cell));
    }
    assert!(CellState::from_u8(9).is_none());
    assert!(CellState::from_u8(255).is_none());
}

#[test]
fn board_dimensions() {
    let board = HexBoard::new(5, 4);
    assert_eq!(board.width(), 5);
    assert_eq!(board.height(), 4);
    assert_eq!(board.size(), 20);
}

#[test]
fn empty_boards_have_no_cells() {
    assert_eq!(HexBoard::new(0, 0).size(), 0);
    assert_eq!(HexBoard::new(0, 7).size(), 0);
    assert_eq!(HexBoard::new(7, 0).size(), 0);
}

#[test]
fn index_is_row_major() {
    let board = HexBoard::new(2, 2);
    assert_eq!(board.get_index(0, 0), 0);
    assert_eq!(board.get_index(1, 0), 1);
    assert_eq!(board.get_index(0, 1), 2);
    assert_eq!(board.get_index(1, 1), 3);
    let wide = HexBoard::new(7, 3);
    assert_eq!(wide.get_index(4, 2), 18);
}

#[test]
fn index_is_a_bijection() {
    let board = HexBoard::new(6, 5);
    let mut seen = vec![false; board.size()];
    for y in 0..board.height() {
        for x in 0..board.width() {
            let index = board.get_index(x, y);
            assert!(index < board.size());
            assert!(!seen[index]);
            seen[index] = true;
            assert_eq!(index % board.width(), x);
            assert_eq!(index / board.width(), y);
        }
    }
    assert!(seen.iter().all(|s| *s));
}

#[test]
fn neighbors_of_a_three_by_three_board() {
    let board = HexBoard::new(3, 3);
    assert_eq!(board.neighbors_of(4), vec![3, 1, 5, 7, 6, 2]);
    assert_eq!(board.neighbors_of(0), vec![1, 3]);
    assert_eq!(board.neighbors_of(2), vec![1, 5, 4]);
    assert_eq!(board.neighbors_of(6), vec![3, 7, 4]);
    assert_eq!(board.neighbors_of(8), vec![7, 5]);
    assert_eq!(board.neighbors_of(1), vec![0, 2, 4, 3]);
    assert_eq!(board.neighbors_of(3), vec![0, 4, 6, 1]);
}

#[test]
fn neighbors_of_degenerate_boards() {
    let single = HexBoard::new(1, 1);
    assert_eq!(single.neighbors_of(0), Vec::<usize>::new());
    let row = HexBoard::new(3, 1);
    assert_eq!(row.neighbors_of(0), vec![1]);
    assert_eq!(row.neighbors_of(1), vec![0, 2]);
    let column = HexBoard::new(1, 3);
    assert_eq!(column.neighbors_of(1), vec![0, 2]);
}

#[test]
fn interior_cells_have_six_neighbors() {
    let board = HexBoard::new(5, 6);
    for y in 0..board.height() {
        for x in 0..board.width() {
            let n = board.neighbors_of(board.get_index(x, y)).len();
            let interior = x > 0 && x < board.width() - 1 && y > 0 && y < board.height() - 1;
            if interior {
                assert_eq!(n, 6);
            } else {
                assert!(n < 6);
            }
        }
    }
}

#[test]
fn neighbor_relation_is_symmetric() {
    for (w, h) in [(1, 1), (2, 2), (3, 5), (6, 4), (1, 6), (7, 1)] {
        let board = HexBoard::new(w, h);
        for a in 0..board.size() {
            let list = board.neighbors_of(a);
            for (i, b) in list.iter().enumerate() {
                assert!(*b < board.size());
                assert!(*b != a);
                assert!(!list[..i].contains(b));
                assert!(board.neighbors_of(*b).contains(&a));
            }
        }
    }
}

#[test]
fn black_first_move_on_the_north_border() {
    let board = HexBoard::new(2, 2);
    let mut state = empty_state(&board);
    assert!(!board.update_move(&mut state, HexPlayerColor::Black, 0));
    assert!(state[0] == CellState::BlackNorth);
    assert!(state[1] == CellState::Empty);
    assert!(state[2] == CellState::Empty);
    assert!(state[3] == CellState::Empty);
}

#[test]
fn black_second_move_joins_both_borders() {
    let board = HexBoard::new(2, 2);
    let mut state = empty_state(&board);
    assert!(!board.update_move(&mut state, HexPlayerColor::Black, 0));
    assert!(board.update_move(&mut state, HexPlayerColor::Black, 2));
    assert!(state[2] == CellState::BlackWin);
    assert!(state[0] == CellState::BlackNorth);
}

#[test]
fn white_first_move_on_the_west_border() {
    let board = HexBoard::new(2, 2);
    let mut state = empty_state(&board);
    assert!(!board.update_move(&mut state, HexPlayerColor::White, 0));
    assert!(state[0] == CellState::WhiteWest);
}

#[test]
fn white_second_move_joins_both_borders() {
    let board = HexBoard::new(2, 2);
    let mut state = empty_state(&board);
    assert!(!board.update_move(&mut state, HexPlayerColor::White, 0));
    assert!(board.update_move(&mut state, HexPlayerColor::White, 1));
    assert!(state[1] == CellState::WhiteWin);
    assert!(state[0] == CellState::WhiteWest);
}

#[test]
fn stone_away_from_the_borders_stays_plain() {
    let board = HexBoard::new(3, 3);
    let mut state = empty_state(&board);
    assert!(!board.update_move(&mut state, HexPlayerColor::Black, 4));
    assert!(state[4] == CellState::Black);
    assert!(!board.update_move(&mut state, HexPlayerColor::White, 1));
    assert!(state[1] == CellState::White);
}

#[test]
fn border_tag_spreads_over_the_group() {
    let board = HexBoard::new(3, 3);
    let mut state = empty_state(&board);
    assert!(!board.update_move(&mut state, HexPlayerColor::Black, 4));
    assert!(!board.update_move(&mut state, HexPlayerColor::Black, 7));
    assert!(state[7] == CellState::BlackSouth);
    assert!(state[4] == CellState::BlackSouth);
    assert!(board.update_move(&mut state, HexPlayerColor::Black, 1));
    assert!(state[1] == CellState::BlackWin);
    assert!(state[4] == CellState::BlackSouth);
}

#[test]
fn border_tag_spreads_over_a_long_chain() {
    let board = HexBoard::new(4, 5);
    let mut state = empty_state(&board);
    // a column of plain stones in rows 1 to 3, then the stone on the top row
    for y in 1..4 {
        assert!(!board.update_move(&mut state, HexPlayerColor::Black, board.get_index(1, y)));
        assert!(state[board.get_index(1, y)] == CellState::Black);
    }
    assert!(!board.update_move(&mut state, HexPlayerColor::White, board.get_index(2, 2)));
    assert!(!board.update_move(&mut state, HexPlayerColor::Black, board.get_index(3, 2)));
    assert!(!board.update_move(&mut state, HexPlayerColor::Black, board.get_index(1, 0)));
    for y in 0..4 {
        assert!(state[board.get_index(1, y)] == CellState::BlackNorth);
    }
    // not linked to the group: the white stone lies between
    assert!(state[board.get_index(3, 2)] == CellState::Black);
    assert!(state[board.get_index(2, 2)] == CellState::White);
    assert!(board.update_move(&mut state, HexPlayerColor::Black, board.get_index(0, 4)));
    assert!(state[board.get_index(0, 4)] == CellState::BlackWin);
}

#[test]
fn white_tag_spreads_and_wins() {
    let board = HexBoard::new(3, 3);
    let mut state = empty_state(&board);
    assert!(!board.update_move(&mut state, HexPlayerColor::White, 4));
    assert!(state[4] == CellState::White);
    assert!(!board.update_move(&mut state, HexPlayerColor::White, 3));
    assert!(state[3] == CellState::WhiteWest);
    assert!(state[4] == CellState::WhiteWest);
    assert!(board.update_move(&mut state, HexPlayerColor::White, 5));
    assert!(state[5] == CellState::WhiteWin);
}

#[test]
fn stones_of_the_other_side_are_left_alone() {
    let board = HexBoard::new(3, 3);
    let mut state = empty_state(&board);
    assert!(!board.update_move(&mut state, HexPlayerColor::White, 4));
    assert!(!board.update_move(&mut state, HexPlayerColor::Black, 1));
    assert!(state[1] == CellState::BlackNorth);
    assert!(state[4] == CellState::White);
    assert!(!board.update_move(&mut state, HexPlayerColor::Black, 7));
    assert!(state[7] == CellState::BlackSouth);
    assert!(state[4] == CellState::White);
}

#[test]
fn single_cell_board_is_won_by_the_first_stone() {
    let board = HexBoard::new(1, 1);
    let mut state = empty_state(&board);
    assert!(board.update_move(&mut state, HexPlayerColor::Black, 0));
    assert!(state[0] == CellState::BlackWin);
    let mut state = empty_state(&board);
    assert!(board.update_move(&mut state, HexPlayerColor::White, 0));
    assert!(state[0] == CellState::WhiteWin);
}

#[test]
fn win_tags_are_final() {
    let board = HexBoard::new(3, 3);
    let mut state = empty_state(&board);
    assert!(!board.update_move(&mut state, HexPlayerColor::Black, 4));
    assert!(!board.update_move(&mut state, HexPlayerColor::Black, 7));
    assert!(board.update_move(&mut state, HexPlayerColor::Black, 1));
    assert!(state[1] == CellState::BlackWin);
    for (player, pos) in [
        (HexPlayerColor::White, 0),
        (HexPlayerColor::Black, 2),
        (HexPlayerColor::White, 3),
        (HexPlayerColor::Black, 5),
        (HexPlayerColor::White, 6),
        (HexPlayerColor::Black, 8),
    ] {
        board.update_move(&mut state, player, pos);
        assert!(state[1] == CellState::BlackWin);
    }
}

#[test]
fn colors_never_change() {
    let board = HexBoard::new(4, 4);
    let mut state = empty_state(&board);
    let moves = [5, 6, 9, 10, 1, 2, 13, 14, 0, 3, 4, 7];
    let mut player = HexPlayerColor::Black;
    let mut colors: Vec<Option<HexPlayerColor>> = vec![None; board.size()];
    for pos in moves {
        board.update_move(&mut state, player, pos);
        colors[pos] = Some(player);
        for c in 0..board.size() {
            let color = match state[c] {
                CellState::Empty => None,
                CellState::Black
                | CellState::BlackNorth
                | CellState::BlackSouth
                | CellState::BlackWin => Some(HexPlayerColor::Black),
                _ => Some(HexPlayerColor::White),
            };
            assert!(color == colors[c]);
        }
        player = switch_player(player);
    }
}

#[test]
fn filled_two_by_two_board_black_column() {
    let board = HexBoard::new(2, 2);
    let mut state = vec![
        CellState::Black,
        CellState::White,
        CellState::Black,
        CellState::White,
    ];
    assert!(board.check_winner(&mut state) == HexPlayerColor::Black);
}

#[test]
fn filled_two_by_two_board_white_diagonal() {
    let board = HexBoard::new(2, 2);
    let mut state = vec![
        CellState::Black,
        CellState::White,
        CellState::White,
        CellState::Black,
    ];
    assert!(board.check_winner(&mut state) == HexPlayerColor::White);
    assert!(state[0] == CellState::BlackNorth);
    assert!(state[3] == CellState::BlackSouth);
}

#[test]
fn filled_boards_of_one_color() {
    let board = HexBoard::new(4, 3);
    let mut black = vec![CellState::Black; board.size()];
    assert!(board.check_winner(&mut black) == HexPlayerColor::Black);
    let mut white = vec![CellState::White; board.size()];
    assert!(board.check_winner(&mut white) == HexPlayerColor::White);
    assert!(white.iter().all(|c| *c == CellState::White));
}

#[test]
fn winner_check_tags_the_searched_stones() {
    let board = HexBoard::new(3, 3);
    // black holds the left column but for the bottom cell, and the cell in the middle
    let mut state = vec![
        CellState::Black,
        CellState::White,
        CellState::White,
        CellState::Black,
        CellState::Black,
        CellState::White,
        CellState::White,
        CellState::White,
        CellState::Black,
    ];
    assert!(board.check_winner(&mut state) == HexPlayerColor::White);
    assert!(state[0] == CellState::BlackNorth);
    assert!(state[3] == CellState::BlackNorth);
    assert!(state[4] == CellState::BlackNorth);
    assert!(state[8] == CellState::BlackSouth);
    assert!(state[1] == CellState::White);
}

#[test]
fn winner_check_follows_a_winding_path() {
    let board = HexBoard::new(3, 3);
    // black: 2 (top right), 4 (middle, down-left of 2), 6 (bottom left, down-left of 4)
    let mut state = vec![
        CellState::White,
        CellState::White,
        CellState::Black,
        CellState::White,
        CellState::Black,
        CellState::White,
        CellState::Black,
        CellState::White,
        CellState::White,
    ];
    assert!(board.check_winner(&mut state) == HexPlayerColor::Black);
}

#[test]
fn winner_check_gives_the_same_winner_again() {
    let board = HexBoard::new(4, 4);
    // every pattern of stones on the first two rows, the rest alternating
    for pattern in 0u32..256 {
        let mut state = Vec::new();
        for c in 0..board.size() {
            let black = if c < 8 { (pattern >> c) & 1 == 1 } else { (c / 4 + c) % 2 == 0 };
            state.push(if black { CellState::Black } else { CellState::White });
        }
        let first = board.check_winner(&mut state);
        let second = board.check_winner(&mut state);
        let third = board.check_winner(&mut state);
        assert!(first == second);
        assert!(second == third);
    }
}

#[test]
fn winner_check_drops_stale_north_tags() {
    let board = HexBoard::new(3, 3);
    // the stone in the middle carries a north tag, but no black stone lies above it
    let mut state = vec![
        CellState::White,
        CellState::White,
        CellState::White,
        CellState::White,
        CellState::BlackNorth,
        CellState::White,
        CellState::White,
        CellState::Black,
        CellState::White,
    ];
    assert!(board.check_winner(&mut state) == HexPlayerColor::White);
    assert!(state[4] == CellState::Black);
    assert!(state[7] == CellState::BlackSouth);
}

#[test]
fn winner_check_on_a_played_board() {
    let board = HexBoard::new(3, 3);
    let mut state = empty_state(&board);
    board.update_move(&mut state, HexPlayerColor::Black, 1);
    board.update_move(&mut state, HexPlayerColor::White, 3);
    board.update_move(&mut state, HexPlayerColor::Black, 4);
    board.update_move(&mut state, HexPlayerColor::White, 5);
    for c in 0..board.size() {
        if state[c] == CellState::Empty {
            state[c] = CellState::Black;
        }
    }
    assert!(board.check_winner(&mut state) == HexPlayerColor::Black);
}

#[test]
fn winner_check_on_a_board_without_cells() {
    let board = HexBoard::new(0, 0);
    let mut state: Vec<CellState> = Vec::new();
    assert!(board.check_winner(&mut state) == HexPlayerColor::White);
}

/// Whether `player` has a chain of stones between its two borders, found by
/// a search over the colours alone.
fn crosses(board: &HexBoard, state: &[CellState], player: HexPlayerColor) -> bool {
    let own = |c: usize| match state[c] {
        CellState::Empty => false,
        CellState::Black | CellState::BlackNorth | CellState::BlackSouth | CellState::BlackWin => {
            player == HexPlayerColor::Black
        }
        _ => player == HexPlayerColor::White,
    };
    let w = board.width();
    let h = board.height();
    let start = |c: usize| match player {
        HexPlayerColor::Black => c / w == 0,
        HexPlayerColor::White => c % w == 0,
    };
    let goal = |c: usize| match player {
        HexPlayerColor::Black => c / w == h - 1,
        HexPlayerColor::White => c % w == w - 1,
    };
    let mut seen = vec![false; board.size()];
    let mut pending: Vec<usize> = (0..board.size()).filter(|c| own(*c) && start(*c)).collect();
    for c in &pending {
        seen[*c] = true;
    }
    while let Some(c) = pending.pop() {
        if goal(c) {
            return true;
        }
        for n in board.neighbors_of(c) {
            if own(n) && !seen[n] {
                seen[n] = true;
                pending.push(n);
            }
        }
    }
    false
}

fn filling(size: usize, pattern: u32) -> Vec<CellState> {
    (0..size)
        .map(|c| {
            if (pattern >> c) & 1 == 1 {
                CellState::Black
            } else {
                CellState::White
            }
        })
        .collect()
}

#[test]
fn every_filled_board_has_one_winner() {
    for (w, h) in [(1, 1), (2, 1), (5, 1), (1, 2), (1, 5), (2, 2), (3, 3), (4, 3), (3, 4), (4, 4), (2, 5), (5, 2)] {
        let board = HexBoard::new(w, h);
        for pattern in 0u32..(1 << board.size()) {
            let mut state = filling(board.size(), pattern);
            let black = crosses(&board, &state, HexPlayerColor::Black);
            let white = crosses(&board, &state, HexPlayerColor::White);
            assert!(black != white);
            let winner = board.check_winner(&mut state);
            assert!((winner == HexPlayerColor::Black) == black);
            assert!(board.check_winner(&mut state) == winner);
        }
    }
}

#[test]
fn a_move_wins_when_it_joins_the_borders() {
    // every order of play on a board of three by three, the sides taking turns
    fn play(
        board: &HexBoard,
        state: &mut Vec<CellState>,
        player: HexPlayerColor,
        games: &mut usize,
    ) {
        for pos in 0..board.size() {
            if state[pos] != CellState::Empty {
                continue;
            }
            let mut next = state.clone();
            let win = board.update_move(&mut next, player, pos);
            assert_eq!(win, crosses(board, &next, player));
            assert!(!crosses(board, &next, switch_player(player)));
            if win {
                *games += 1;
            } else {
                play(board, &mut next, switch_player(player), games);
            }
        }
    }
    let board = HexBoard::new(3, 3);
    let mut games = 0;
    play(&board, &mut vec![CellState::Empty; 9], HexPlayerColor::Black, &mut games);
    assert!(games > 0);
}

#[test]
fn tags_tell_the_borders_that_a_group_reaches() {
    let board = HexBoard::new(4, 4);
    let mut state = vec![CellState::Empty; 16];
    let moves = [5, 6, 9, 10, 1, 7, 2, 4];
    let mut player = HexPlayerColor::Black;
    for pos in moves {
        assert!(!board.update_move(&mut state, player, pos));
        player = switch_player(player);
    }
    // black: 5, 9, 1, 2; white: 6, 10, 7, 4
    assert!(state[1] == CellState::BlackNorth);
    assert!(state[2] == CellState::BlackNorth);
    assert!(state[5] == CellState::BlackNorth);
    assert!(state[9] == CellState::BlackNorth);
    assert!(state[6] == CellState::WhiteEast);
    assert!(state[7] == CellState::WhiteEast);
    assert!(state[10] == CellState::WhiteEast);
    assert!(state[4] == CellState::WhiteWest);
}

#[test]
fn winner_check_on_a_board_of_one_row() {
    let board = HexBoard::new(2, 1);
    let mut state = vec![CellState::Black, CellState::White];
    assert!(board.check_winner(&mut state) == HexPlayerColor::Black);
    assert!(board.check_winner(&mut state) == HexPlayerColor::Black);
    let mut state = vec![CellState::White, CellState::Black];
    assert!(board.check_winner(&mut state) == HexPlayerColor::Black);
    let mut state = vec![CellState::White, CellState::White];
    assert!(board.check_winner(&mut state) == HexPlayerColor::White);
    let mut state = vec![CellState::Black, CellState::Black];
    assert!(board.check_winner(&mut state) == HexPlayerColor::Black);
}

#[test]
fn winner_check_agrees_with_the_move_on_a_board_of_one_row() {
    let board = HexBoard::new(3, 1);
    let mut state = vec![CellState::White, CellState::Empty, CellState::White];
    assert!(board.update_move(&mut state, HexPlayerColor::Black, 1));
    assert!(state[1] == CellState::BlackWin);
    assert!(board.check_winner(&mut state) == HexPlayerColor::Black);
}

#[test]
fn winner_check_on_a_board_of_one_column() {
    let board = HexBoard::new(1, 3);
    let mut state = vec![CellState::Black, CellState::White, CellState::Black];
    assert!(board.check_winner(&mut state) == HexPlayerColor::White);
    let mut state = vec![CellState::Black, CellState::Black, CellState::Black];
    assert!(board.check_winner(&mut state) == HexPlayerColor::Black);
}

#[test]
fn cell_colors() {
    assert!(CellState::Empty.color().is_none());
    assert!(CellState::BlackSouth.color() == Some(HexPlayerColor::Black));
    assert!(CellState::WhiteWin.color() == Some(HexPlayerColor::White));
}

use filler::game_state::GameState;
use filler::scoring::MIN_SCORE;
use filler::types::{Cell, PieceCell, PieceOffset, Player};

fn state_with_board(player: Player, width: usize, height: usize) -> GameState {
    let mut st = GameState::new();
    st.set_player(player);
    st.init_board(width, height);
    st
}

fn offsets(pairs: &[(i32, i32)]) -> Vec<PieceOffset> {
    pairs.iter().map(|&(dx, dy)| PieceOffset { dx, dy }).collect()
}

#[test]
fn trim_extracts_bounding_box_and_offsets() {
    let mut st = state_with_board(Player::One, 5, 5);
    st.init_piece(4, 4);
    st.piece[1][1] = PieceCell::Filled;
    st.piece[2][2] = PieceCell::Filled;
    let (offs, ox, oy) = st.trim_piece();
    assert_eq!((ox, oy), (1, 1));
    assert_eq!(st.piece_width, 2);
    assert_eq!(st.piece_height, 2);
    let got: Vec<(i32, i32)> = offs.iter().map(|o| (o.dx, o.dy)).collect();
    assert_eq!(got, vec![(0, 0), (1, 1)]);
}

#[test]
fn trim_offsets_span_both_axes() {
    let mut st = state_with_board(Player::One, 5, 5);
    st.init_piece(6, 3);
    // an L shape sitting away from the grid's edges
    st.piece[0][2] = PieceCell::Filled;
    st.piece[1][2] = PieceCell::Filled;
    st.piece[1][4] = PieceCell::Filled;
    let (offs, ox, oy) = st.trim_piece();
    assert_eq!((ox, oy), (2, 0));
    assert_eq!(st.piece_width, 3);
    assert_eq!(st.piece_height, 2);
    let got: Vec<(i32, i32)> = offs.iter().map(|o| (o.dx, o.dy)).collect();
    assert_eq!(got, vec![(0, 0), (0, 1), (2, 1)]);
    assert!(got.iter().any(|&(dx, _)| dx == 0));
    assert!(got.iter().any(|&(dx, _)| dx == 2));
    assert!(got.iter().any(|&(_, dy)| dy == 0));
    assert!(got.iter().any(|&(_, dy)| dy == 1));
}

#[test]
fn trim_of_empty_piece_yields_nothing() {
    let mut st = state_with_board(Player::One, 5, 5);
    st.init_piece(3, 3);
    let (offs, ox, oy) = st.trim_piece();
    assert!(offs.is_empty());
    assert_eq!((ox, oy), (0, 0));
    assert_eq!(st.piece_width, 3);
    assert_eq!(st.piece_height, 3);
}

#[test]
fn legality_rejects_off_board() {
    let mut st = state_with_board(Player::One, 5, 5);
    st.board[0][0] = Cell::Player1;
    let offs = offsets(&[(0, 0)]);
    assert!(!st.is_legal_move(-1, 0, &offs));
    assert!(!st.is_legal_move(0, -1, &offs));
    assert!(!st.is_legal_move(5, 0, &offs));
    assert!(!st.is_legal_move(0, 5, &offs));
}

#[test]
fn legality_rejects_opponent_overlap() {
    let mut st = state_with_board(Player::One, 5, 5);
    st.board[0][0] = Cell::Player1;
    st.board[0][1] = Cell::Player2;
    // a domino overlapping our cell and the opponent's
    let offs = offsets(&[(0, 0), (1, 0)]);
    assert!(!st.is_legal_move(0, 0, &offs));
}

#[test]
fn legality_rejects_zero_own_overlap() {
    let mut st = state_with_board(Player::One, 5, 5);
    st.board[0][0] = Cell::Player1;
    let offs = offsets(&[(0, 0)]);
    assert!(!st.is_legal_move(3, 3, &offs));
}

#[test]
fn legality_rejects_two_own_overlaps() {
    let mut st = state_with_board(Player::One, 5, 5);
    st.board[0][0] = Cell::Player1;
    st.board[0][1] = Cell::Player1;
    let offs = offsets(&[(0, 0), (1, 0)]);
    assert!(!st.is_legal_move(0, 0, &offs));
}

#[test]
fn legality_accepts_exactly_one_own_overlap() {
    let mut st = state_with_board(Player::One, 5, 5);
    st.board[0][0] = Cell::Player1;
    let offs = offsets(&[(0, 0), (1, 0)]);
    // covers our cell at (0, 0) and the empty cell at (1, 0)
    assert!(st.is_legal_move(0, 0, &offs));
}

#[test]
fn bounded_and_exhaustive_scans_agree() {
    let mut st = state_with_board(Player::Two, 4, 4);
    st.board[1][1] = Cell::Player2;
    st.board[3][3] = Cell::Player1;
    st.init_piece(1, 2);
    st.piece[0][0] = PieceCell::Filled;
    st.piece[1][0] = PieceCell::Filled;
    let (offs, _, _) = st.trim_piece();
    let bounded = st.find_legal_moves(&offs, 0, 0);
    let exhaustive = st.emergency_move_search(&offs, 0, 0);
    let b: Vec<(i32, i32)> = bounded.clone();
    let e: Vec<(i32, i32)> = exhaustive.clone();
    assert_eq!(b, e);
    assert!(!b.is_empty());
    for &(x, y) in &b {
        assert!(st.is_legal_move(x, y, &offs));
    }
}

#[test]
fn scan_rejects_piece_larger_than_board() {
    let mut st = state_with_board(Player::One, 2, 2);
    st.board[0][0] = Cell::Player1;
    st.init_piece(3, 1);
    st.piece[0][0] = PieceCell::Filled;
    st.piece[0][1] = PieceCell::Filled;
    st.piece[0][2] = PieceCell::Filled;
    let (offs, _, _) = st.trim_piece();
    assert!(st.find_legal_moves(&offs, 0, 0).is_empty());
    assert!(st.emergency_move_search(&offs, 0, 0).is_empty());
}

#[test]
fn distance_map_is_manhattan_from_single_opponent() {
    let mut st = state_with_board(Player::One, 3, 3);
    st.board[0][0] = Cell::Player2;
    let dm = st.calculate_distance_map();
    for y in 0..3usize {
        for x in 0..3usize {
            assert_eq!(dm[y][x], (x + y) as i32);
        }
    }
}

#[test]
fn distance_map_zero_exactly_at_opponent_cells() {
    let mut st = state_with_board(Player::Two, 4, 3);
    // player two's opponent is player one
    st.board[1][2] = Cell::Player1;
    st.board[2][0] = Cell::Player1;
    st.board[0][0] = Cell::Player2;
    let dm = st.calculate_distance_map();
    for y in 0..3usize {
        for x in 0..4usize {
            let d1 = (x as i32 - 2).abs() + (y as i32 - 1).abs();
            let d2 = (x as i32 - 0).abs() + (y as i32 - 2).abs();
            assert_eq!(dm[y][x], d1.min(d2));
            assert_eq!(dm[y][x] == 0, st.board[y][x] == Cell::Player1);
        }
    }
}

#[test]
fn distance_map_without_opponent_is_all_sentinel() {
    let mut st = state_with_board(Player::One, 3, 2);
    st.board[0][0] = Cell::Player1;
    let dm = st.calculate_distance_map();
    for y in 0..2usize {
        for x in 0..3usize {
            assert_eq!(dm[y][x], -1);
        }
    }
}

#[test]
fn distance_map_is_path_consistent() {
    let mut st = state_with_board(Player::One, 5, 4);
    st.board[3][1] = Cell::Player2;
    st.board[0][4] = Cell::Player2;
    let dm = st.calculate_distance_map();
    for y in 0..4i32 {
        for x in 0..5i32 {
            let d = dm[y as usize][x as usize];
            if d > 0 {
                let mut best = i32::MAX;
                for (ddx, ddy) in [(0, 1), (1, 0), (0, -1), (-1, 0)] {
                    let nx = x + ddx;
                    let ny = y + ddy;
                    if nx >= 0 && ny >= 0 && nx < 5 && ny < 4 {
                        let nd = dm[ny as usize][nx as usize];
                        if nd >= 0 && nd < best {
                            best = nd;
                        }
                    }
                }
                assert_eq!(d, best + 1);
            }
        }
    }
}

#[test]
fn zero_gain_placement_scores_minimum() {
    let mut st = state_with_board(Player::One, 5, 5);
    st.board[0][0] = Cell::Player1;
    let dm = st.calculate_distance_map();
    let offs = offsets(&[(0, 0)]);
    // the single piece cell lands on our own cell: nothing is gained
    assert_eq!(st.score_move(0, 0, &dm, &offs), MIN_SCORE);
}

#[test]
fn gaining_placement_beats_minimum() {
    let mut st = state_with_board(Player::One, 5, 5);
    st.board[0][0] = Cell::Player1;
    st.board[4][4] = Cell::Player2;
    let dm = st.calculate_distance_map();
    let offs = offsets(&[(0, 0)]);
    assert!(st.score_move(1, 0, &dm, &offs) > MIN_SCORE);
}

#[test]
fn greater_gain_scores_higher_all_else_equal() {
    // an empty far corner: a domino claims two cells, a single cell claims one
    let mut st = state_with_board(Player::One, 9, 9);
    st.board[0][0] = Cell::Player1;
    st.board[8][8] = Cell::Player2;
    let dm = st.calculate_distance_map();
    let single = offsets(&[(0, 0)]);
    let domino = offsets(&[(0, 0), (1, 0)]);
    let s1 = st.score_move(1, 0, &dm, &single);
    let s2 = st.score_move(1, 0, &dm, &domino);
    assert!(s2 > s1);
}

#[test]
fn choose_move_picks_lowest_y_then_x_on_tie() {
    // two fully symmetric legal anchors tie exactly; the earlier one in
    // row-major order (lower y, then lower x) must win
    let mut st = state_with_board(Player::One, 5, 5);
    st.board[1][1] = Cell::Player1;
    st.board[1][3] = Cell::Player1;
    st.init_piece(2, 1);
    st.piece[0][0] = PieceCell::Filled;
    st.piece[0][1] = PieceCell::Filled;
    let (offs, ox, oy) = st.trim_piece();
    assert_eq!((ox, oy), (0, 0));
    // anchors (1, 1) and (3, 1) tie: one claimed cell, two liberties, no
    // opponent anywhere, and both anchors sit on own territory
    let mv = st.choose_move(&offs, ox, oy);
    assert_eq!(mv, (1, 1));
}

#[test]
fn choose_move_picks_lowest_y_on_tie() {
    // the vertical twin of the tie scenario: the anchor with the lower y wins
    let mut st = state_with_board(Player::One, 5, 5);
    st.board[1][1] = Cell::Player1;
    st.board[3][1] = Cell::Player1;
    st.init_piece(1, 2);
    st.piece[0][0] = PieceCell::Filled;
    st.piece[1][0] = PieceCell::Filled;
    let (offs, ox, oy) = st.trim_piece();
    assert_eq!((ox, oy), (0, 0));
    let mv = st.choose_move(&offs, ox, oy);
    assert_eq!(mv, (1, 1));
}

#[test]
fn single_cell_piece_can_only_sit_on_own_territory() {
    // a one-cell piece overlaps own territory exactly once only when it is
    // placed on it, so that placement is the single legal move
    let mut st = state_with_board(Player::One, 5, 5);
    st.board[0][0] = Cell::Player1;
    st.board[4][4] = Cell::Player2;
    st.init_piece(1, 1);
    st.piece[0][0] = PieceCell::Filled;
    let (offs, ox, oy) = st.trim_piece();
    let legal = st.find_legal_moves(&offs, ox, oy);
    let got: Vec<(i32, i32)> = legal.clone();
    assert_eq!(got, vec![(0, 0)]);
    assert_eq!(st.choose_move(&offs, ox, oy), (0, 0));
}

#[test]
fn choose_move_passes_on_full_board() {
    let mut st = state_with_board(Player::One, 2, 2);
    st.board[0][0] = Cell::Player1;
    st.board[0][1] = Cell::Player1;
    st.board[1][0] = Cell::Player2;
    st.board[1][1] = Cell::Player2;
    st.init_piece(2, 1);
    st.piece[0][0] = PieceCell::Filled;
    st.piece[0][1] = PieceCell::Filled;
    let (offs, ox, oy) = st.trim_piece();
    let mv = st.choose_move(&offs, ox, oy);
    assert_eq!(mv, (0, 0));
}

#[test]
fn choose_move_passes_on_empty_piece() {
    let mut st = state_with_board(Player::One, 3, 3);
    st.board[0][0] = Cell::Player1;
    st.init_piece(2, 2);
    let (offs, ox, oy) = st.trim_piece();
    assert!(offs.is_empty());
    let mv = st.choose_move(&offs, ox, oy);
    assert_eq!(mv, (0, 0));
}

#[test]
fn choose_move_corrects_anchor_by_trim_offset() {
    // the piece's only filled cell sits at (2, 1) of its declared grid, so
    // the emitted anchor is the board anchor minus that correction
    let mut st = state_with_board(Player::One, 5, 5);
    st.board[2][2] = Cell::Player1;
    st.board[4][4] = Cell::Player2;
    st.init_piece(4, 3);
    st.piece[1][2] = PieceCell::Filled;
    let (offs, ox, oy) = st.trim_piece();
    assert_eq!((ox, oy), (2, 1));
    let mv = st.choose_move(&offs, ox, oy);
    // a one-cell piece fits only on our own cell (2, 2); the output is that
    // anchor translated back by the correction, and never negative
    let board_cell = (mv.0 + ox, mv.1 + oy);
    assert!(st.is_legal_move(board_cell.0, board_cell.1, &offs));
    assert_eq!(board_cell, (2, 2));
    assert_eq!(mv, (0, 1));
}

#[test]
fn score_composes_gain_liberties_heat_and_connectivity() {
    // early phase (2 of 25 cells taken): weights 150/40/15/-5; claiming
    // (1, 0) gains one cell with two liberties, no opponent adjacency, heat 7
    // (the Manhattan distance to (4, 4)), and a connectivity bonus of 90 for
    // anchoring one step from own territory:
    // 150 + 2*40 + 0 - 7*5 + (10 - 1)*10 = 285
    let mut st = state_with_board(Player::One, 5, 5);
    st.board[0][0] = Cell::Player1;
    st.board[4][4] = Cell::Player2;
    let dm = st.calculate_distance_map();
    let offs = offsets(&[(0, 0)]);
    assert_eq!(st.score_move(1, 0, &dm, &offs), 285);
}

#[test]
fn score_adds_catch_up_bonus_when_behind() {
    // the mover owns one cell, the opponent two: claiming (1, 1) gains one
    // cell with three liberties, one opponent neighbor, heat 1, plus the
    // catch-up bonus of 20 per opponent neighbor and a connectivity bonus of
    // 80: 150 + 3*40 + 1*15 - 1*5 + 1*20 + (10 - 2)*10 = 380
    let mut st = state_with_board(Player::One, 5, 5);
    st.board[0][0] = Cell::Player1;
    st.board[4][4] = Cell::Player2;
    st.board[1][2] = Cell::Player2;
    let dm = st.calculate_distance_map();
    let offs = offsets(&[(0, 0)]);
    assert_eq!(st.score_move(1, 1, &dm, &offs), 380);
}

#[test]
fn emergency_scan_reaches_anchors_left_of_the_window() {
    // the piece's only filled cell sits at column 1 of its grid, so the
    // bounded window starts at x = 1 and misses the sole legal anchor (0, 2);
    // the exhaustive full-board scan finds it, and the emitted move is the
    // anchor minus the correction, clamped at zero
    let mut st = state_with_board(Player::One, 5, 5);
    st.board[2][0] = Cell::Player1;
    st.init_piece(2, 1);
    st.piece[0][1] = PieceCell::Filled;
    let (offs, ox, oy) = st.trim_piece();
    assert_eq!((ox, oy), (1, 0));
    assert!(st.find_legal_moves(&offs, ox, oy).is_empty());
    let rescue: Vec<(i32, i32)> = st.emergency_move_search(&offs, ox, oy);
    assert_eq!(rescue, vec![(0, 2)]);
    let mv = st.choose_move(&offs, ox, oy);
    assert_eq!(mv, (0, 2));
}

#[test]
fn gaining_placement_beats_minimum_even_under_extreme_heat() {
    // a distance map filled with the largest representable values drags the
    // heat term far down, yet a placement that claims a cell still outranks
    // the guaranteed minimum
    let mut st = state_with_board(Player::One, 5, 5);
    st.board[0][0] = Cell::Player1;
    let dm: Vec<Vec<i32>> = (0..5).map(|_| vec![i32::MAX; 5]).collect();
    let offs = offsets(&[(0, 0)]);
    assert!(st.score_move(1, 0, &dm, &offs) > MIN_SCORE);
    assert!(st.score_move(1, 0, &dm, &offs) < 0);
}

use filler::game_state::GameState;
use std::cmp::Ordering;
use filler::types::{Cell, PieceOffset, Player, ScoredMove};

fn state_with_board(player: Player, width: usize, height: usize) -> GameState {
    let mut st = GameState::new();
    st.set_player(player);
    st.init_board(width, height);
    st
}

fn offsets(pairs: &[(i32, i32)]) -> Vec<PieceOffset> {
    pairs.iter().map(|&(dx, dy)| PieceOffset { dx, dy }).collect()
}

#[test]
fn territory_counts_match_the_board() {
    let mut st = state_with_board(Player::One, 4, 3);
    st.board[0][0] = Cell::Player1;
    st.board[1][1] = Cell::Player1;
    st.board[2][3] = Cell::Player2;
    assert_eq!(st.count_my_territory(), 2);
    assert_eq!(st.count_opponent_territory(), 1);
    assert_eq!(st.count_total_empty_cells(), 9);
}

#[test]
fn territory_counts_follow_the_player() {
    let mut st = state_with_board(Player::Two, 4, 3);
    st.board[0][0] = Cell::Player1;
    st.board[1][1] = Cell::Player1;
    st.board[2][3] = Cell::Player2;
    assert_eq!(st.count_my_territory(), 1);
    assert_eq!(st.count_opponent_territory(), 2);
}

#[test]
fn empty_neighbor_count_at_corner_and_center() {
    let mut st = state_with_board(Player::One, 3, 3);
    st.board[1][0] = Cell::Player1;
    assert_eq!(st.count_empty_neighbors(0, 0), 1);
    assert_eq!(st.count_empty_neighbors(1, 1), 3);
    assert_eq!(st.count_empty_neighbors(2, 2), 2);
}

#[test]
fn my_neighbor_count_sees_only_my_cells() {
    let mut st = state_with_board(Player::One, 3, 3);
    st.board[0][1] = Cell::Player1;
    st.board[1][0] = Cell::Player2;
    assert_eq!(st.count_my_neighbors(0, 0), 1);
    assert_eq!(st.count_my_neighbors(1, 1), 1);
    assert_eq!(st.count_my_neighbors(2, 2), 0);
}

#[test]
fn territory_positions_come_in_row_major_order() {
    let mut st = state_with_board(Player::One, 3, 3);
    st.board[2][0] = Cell::Player1;
    st.board[0][1] = Cell::Player1;
    st.board[0][2] = Cell::Player1;
    st.board[1][1] = Cell::Player2;
    let pos = st.get_my_territory_positions();
    assert_eq!(pos, vec![(1, 0), (2, 0), (0, 2)]);
}

#[test]
fn scored_move_new_keeps_fields() {
    let m = ScoredMove::new(3, 7, -25);
    assert_eq!(m.x, 3);
    assert_eq!(m.y, 7);
    assert_eq!(m.score, -25);
}

#[test]
fn ranking_prefers_score_then_lower_y_then_lower_x() {
    let a = ScoredMove::new(5, 5, 10);
    let b = ScoredMove::new(0, 0, 9);
    assert!(a.ranks_before(&b));
    assert!(!b.ranks_before(&a));
    let c = ScoredMove::new(4, 1, 10);
    let d = ScoredMove::new(0, 2, 10);
    assert!(c.ranks_before(&d));
    let e = ScoredMove::new(1, 1, 10);
    assert!(e.ranks_before(&c));
    assert!(!e.ranks_before(&e));
}

#[test]
fn candidate_order_is_total() {
    let a = ScoredMove::new(5, 5, 10);
    let b = ScoredMove::new(0, 0, 9);
    assert_eq!(a.partial_cmp(&b), Some(Ordering::Greater));
    assert_eq!(b.partial_cmp(&a), Some(Ordering::Less));
    let c = ScoredMove::new(4, 1, 10);
    assert_eq!(a.partial_cmp(&c), Some(Ordering::Less));
    let d = ScoredMove::new(4, 1, 10);
    assert_eq!(c.partial_cmp(&d), Some(Ordering::Equal));
    assert!(c == d);
    assert!(!(a == b));
}

#[test]
fn early_strategy_prefers_expansion_room() {
    // 2 of 36 cells are taken: the early-game rule compares expansion room
    let mut st = state_with_board(Player::One, 6, 6);
    st.board[0][0] = Cell::Player1;
    st.board[5][5] = Cell::Player2;
    let dm = st.calculate_distance_map();
    let offs = offsets(&[(0, 0)]);
    let moves = vec![ScoredMove::new(1, 0, 100), ScoredMove::new(3, 3, 100)];
    let m = st.select_strategic_move(&moves, &dm, &offs);
    assert_eq!((m.x, m.y), (3, 3));
}

#[test]
fn strategy_defaults_to_first_candidate() {
    // every candidate lands on an occupied cell, so no criterion is positive
    let mut st = state_with_board(Player::One, 6, 6);
    st.board[0][0] = Cell::Player1;
    st.board[5][5] = Cell::Player2;
    let dm = st.calculate_distance_map();
    let offs = offsets(&[(0, 0)]);
    let moves = vec![ScoredMove::new(5, 5, 4), ScoredMove::new(0, 0, 3)];
    let m = st.select_strategic_move(&moves, &dm, &offs);
    assert_eq!((m.x, m.y), (5, 5));
}

#[test]
fn late_strategy_prefers_raw_capture() {
    // 8 of 9 cells are taken: the late-game rule pays most for capture
    let mut st = state_with_board(Player::One, 3, 3);
    for y in 0..3 {
        for x in 0..3 {
            st.board[y][x] = if (x + y) % 2 == 0 {
                Cell::Player1
            } else {
                Cell::Player2
            };
        }
    }
    st.board[1][1] = Cell::Empty;
    let dm = st.calculate_distance_map();
    let offs = offsets(&[(0, 0)]);
    // the first candidate captures nothing, the second captures the hole
    let moves = vec![ScoredMove::new(0, 0, 50), ScoredMove::new(1, 1, 40)];
    let m = st.select_strategic_move(&moves, &dm, &offs);
    assert_eq!((m.x, m.y), (1, 1));
}

#[test]
fn strategy_looks_at_the_top_five_only() {
    let mut st = state_with_board(Player::One, 6, 6);
    st.board[0][0] = Cell::Player1;
    st.board[5][5] = Cell::Player2;
    let dm = st.calculate_distance_map();
    let offs = offsets(&[(0, 0)]);
    // the sixth candidate has the most room but sits past the cut
    let moves = vec![
        ScoredMove::new(1, 0, 100),
        ScoredMove::new(0, 1, 99),
        ScoredMove::new(0, 0, 98),
        ScoredMove::new(5, 5, 97),
        ScoredMove::new(0, 5, 96),
        ScoredMove::new(3, 3, 95),
    ];
    let m = st.select_strategic_move(&moves, &dm, &offs);
    assert!(!(m.x == 3 && m.y == 3));
}

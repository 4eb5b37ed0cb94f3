use filler::game_state::GameState;
use filler::types::{Cell, PieceCell, Player};

#[test]
fn new_state_has_documented_defaults() {
    let st = GameState::new();
    assert_eq!(st.player, Player::One);
    assert_eq!(st.board_width, 0);
    assert_eq!(st.board_height, 0);
    assert_eq!(st.my_symbols, ('@', 'a'));
    assert_eq!(st.opponent_symbols, ('$', 's'));
    assert_eq!(st.heat_weight, 50);
    assert_eq!(st.expansion_weight, 30);
    assert_eq!(st.blocking_weight, 20);
    assert_eq!(st.compactness_weight, -10);
}

#[test]
fn set_player_swaps_symbols() {
    let mut st = GameState::new();
    st.set_player(Player::Two);
    assert_eq!(st.player, Player::Two);
    assert_eq!(st.my_symbols, ('$', 's'));
    assert_eq!(st.opponent_symbols, ('@', 'a'));
    st.set_player(Player::One);
    assert_eq!(st.my_symbols, ('@', 'a'));
    assert_eq!(st.opponent_symbols, ('$', 's'));
}

#[test]
fn init_board_fills_with_empty_cells() {
    let mut st = GameState::new();
    st.init_board(3, 2);
    assert_eq!(st.board.len(), 2);
    for row in &st.board {
        assert_eq!(row.len(), 3);
        for c in row {
            assert_eq!(*c, Cell::Empty);
        }
    }
}

#[test]
fn board_row_decodes_all_symbols() {
    let mut st = GameState::new();
    st.init_board(5, 1);
    let res = st.parse_board_row("000 .@$as", 0);
    assert!(res.is_ok());
    assert_eq!(st.board[0][0], Cell::Empty);
    assert_eq!(st.board[0][1], Cell::Player1);
    assert_eq!(st.board[0][2], Cell::Player2);
    assert_eq!(st.board[0][3], Cell::Player1);
    assert_eq!(st.board[0][4], Cell::Player2);
}

#[test]
fn board_row_without_prefix_is_used_whole() {
    let mut st = GameState::new();
    st.init_board(2, 1);
    // a line shorter than the four-character prefix is taken as it stands
    let res = st.parse_board_row("@.", 0);
    assert!(res.is_ok());
    assert_eq!(st.board[0][0], Cell::Player1);
    assert_eq!(st.board[0][1], Cell::Empty);
}

#[test]
fn short_board_row_is_an_error_and_changes_nothing() {
    let mut st = GameState::new();
    st.init_board(5, 1);
    let res = st.parse_board_row("000 .@", 0);
    assert!(res.is_err());
    for x in 0..5 {
        assert_eq!(st.board[0][x], Cell::Empty);
    }
}

#[test]
fn unknown_board_symbol_is_an_error() {
    let mut st = GameState::new();
    st.init_board(4, 1);
    let res = st.parse_board_row("000 .@?s", 0);
    assert!(res.is_err());
    // the columns before the bad symbol were decoded, the rest kept
    assert_eq!(st.board[0][0], Cell::Empty);
    assert_eq!(st.board[0][1], Cell::Player1);
    assert_eq!(st.board[0][2], Cell::Empty);
    assert_eq!(st.board[0][3], Cell::Empty);
}

#[test]
fn piece_row_decodes_all_symbols() {
    let mut st = GameState::new();
    st.init_piece(5, 1);
    let res = st.parse_piece_row(".#OoX", 0);
    assert!(res.is_err());
    let res2 = st.parse_piece_row(".#Oo.", 0);
    assert!(res2.is_ok());
    assert_eq!(st.piece[0][0], PieceCell::Empty);
    assert_eq!(st.piece[0][1], PieceCell::Filled);
    assert_eq!(st.piece[0][2], PieceCell::Filled);
    assert_eq!(st.piece[0][3], PieceCell::Filled);
    assert_eq!(st.piece[0][4], PieceCell::Empty);
}

#[test]
fn short_piece_row_is_an_error() {
    let mut st = GameState::new();
    st.init_piece(3, 1);
    let res = st.parse_piece_row("..", 0);
    assert!(res.is_err());
    assert_eq!(st.piece[0][0], PieceCell::Empty);
    assert_eq!(st.piece[0][1], PieceCell::Empty);
    assert_eq!(st.piece[0][2], PieceCell::Empty);
}

#[test]
fn piece_rows_fill_the_declared_grid() {
    let mut st = GameState::new();
    st.init_piece(2, 2);
    assert!(st.parse_piece_row("##", 0).is_ok());
    assert!(st.parse_piece_row(".#", 1).is_ok());
    assert_eq!(st.piece[0][0], PieceCell::Filled);
    assert_eq!(st.piece[0][1], PieceCell::Filled);
    assert_eq!(st.piece[1][0], PieceCell::Empty);
    assert_eq!(st.piece[1][1], PieceCell::Filled);
}

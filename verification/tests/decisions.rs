use gomoku::{
    create_game_state, get_best_move, get_best_move_with_difficulty, make_move, AIDifficulty,
    GameState, MoveError, MoveResult,
};

fn empty_board() -> Vec<Vec<i32>> {
    vec![vec![0; 15]; 15]
}

#[test]
fn opening_empty_board_takes_center() {
    let b = empty_board();
    let m = get_best_move_with_difficulty(&b, 1, -1, AIDifficulty::Hard);
    assert_eq!(m, Some(MoveResult { row: 7, col: 7, score: 10000 }));
}

#[test]
fn opening_empty_board_all_difficulties_agree() {
    let b = empty_board();
    for d in [AIDifficulty::Easy, AIDifficulty::Medium, AIDifficulty::Hard] {
        let m = get_best_move_with_difficulty(&b, 1, -1, d);
        assert_eq!(m, Some(MoveResult { row: 7, col: 7, score: 10000 }));
    }
}

#[test]
fn default_best_move_is_hard() {
    let b = empty_board();
    assert_eq!(get_best_move(&b, 1, -1), Some(MoveResult { row: 7, col: 7, score: 10000 }));
}

#[test]
fn opening_reply_beside_center_stone() {
    let mut b = empty_board();
    b[7][7] = -1;
    let m = get_best_move_with_difficulty(&b, 1, -1, AIDifficulty::Hard);
    // up (6, 7) is the first neighbor strictly nearest the center
    assert_eq!(m, Some(MoveResult { row: 6, col: 7, score: 8000 }));
}

#[test]
fn opening_reply_beside_corner_stone() {
    let mut b = empty_board();
    b[0][0] = -1;
    let m = get_best_move_with_difficulty(&b, 1, -1, AIDifficulty::Easy);
    // of the three on-board neighbors, (1, 1) lies nearest the center
    assert_eq!(m, Some(MoveResult { row: 1, col: 1, score: 8000 }));
}

#[test]
fn immediate_win_taken_over_block() {
    let mut b = empty_board();
    // the mover can complete five at (7, 2) or (7, 7) ...
    for c in 3..7 {
        b[7][c] = 1;
    }
    // ... while the opponent threatens five around row 3
    for c in 3..7 {
        b[3][c] = -1;
    }
    let m = get_best_move_with_difficulty(&b, 1, -1, AIDifficulty::Hard);
    assert_eq!(m, Some(MoveResult { row: 7, col: 2, score: 100000 }));
}

#[test]
fn open_four_of_opponent_is_blocked() {
    let mut b = empty_board();
    for c in 3..7 {
        b[7][c] = -1;
    }
    b[0][14] = 1;
    b[1][14] = 1;
    let m = get_best_move_with_difficulty(&b, 1, -1, AIDifficulty::Hard);
    assert_eq!(m, Some(MoveResult { row: 7, col: 2, score: 99999 }));
}

#[test]
fn midgame_move_lands_on_an_empty_cell() {
    let mut b = empty_board();
    b[7][7] = 1;
    b[7][8] = -1;
    b[8][7] = -1;
    let m = get_best_move_with_difficulty(&b, 1, -1, AIDifficulty::Medium).unwrap();
    assert_eq!(b[m.row][m.col], 0);
    assert!(m.row < 15 && m.col < 15);
}

#[test]
fn full_board_has_no_available_move() {
    let mut b = empty_board();
    for r in 0..15 {
        for c in 0..15 {
            b[r][c] = if (r * 15 + c) % 2 == 0 { 1 } else { -1 };
        }
    }
    assert_eq!(get_best_move_with_difficulty(&b, 1, -1, AIDifficulty::Hard), None);
}

#[test]
fn new_game_state_is_empty_with_human_to_move() {
    let gs = create_game_state(1, -1);
    assert_eq!(gs.ai_player, 1);
    assert_eq!(gs.human_player, -1);
    assert_eq!(gs.current_player, -1);
    assert_eq!(gs.board.len(), 15);
    for row in &gs.board {
        assert_eq!(row.len(), 15);
        for &v in row {
            assert_eq!(v, 0);
        }
    }
}

#[test]
fn make_move_rejects_out_of_board() {
    let mut gs = create_game_state(1, -1);
    assert_eq!(make_move(&mut gs, 15, 0), Err(MoveError::InvalidPosition));
    assert_eq!(make_move(&mut gs, 0, 15), Err(MoveError::InvalidPosition));
    assert_eq!(gs.current_player, -1);
}

#[test]
fn make_move_rejects_occupied_cell_and_keeps_board() {
    let mut gs = create_game_state(1, -1);
    assert_eq!(make_move(&mut gs, 7, 7), Ok(false));
    let before_board = gs.board.clone();
    let before_player = gs.current_player;
    assert_eq!(make_move(&mut gs, 7, 7), Err(MoveError::CellOccupied));
    for r in 0..15 {
        for c in 0..15 {
            assert_eq!(gs.board[r][c], before_board[r][c]);
        }
    }
    assert_eq!(gs.current_player, before_player);
}

#[test]
fn make_move_places_stone_and_switches_turn() {
    let mut gs = create_game_state(1, -1);
    // the human moves first
    assert_eq!(make_move(&mut gs, 7, 7), Ok(false));
    assert_eq!(gs.board[7][7], -1);
    assert_eq!(gs.current_player, 1);
    // then the machine
    assert_eq!(make_move(&mut gs, 7, 8), Ok(false));
    assert_eq!(gs.board[7][8], 1);
    assert_eq!(gs.current_player, -1);
}

#[test]
fn make_move_reports_a_completed_five() {
    let mut board = empty_board();
    for c in 3..7 {
        board[7][c] = -1;
    }
    let mut gs = GameState { board, current_player: -1, ai_player: 1, human_player: -1 };
    assert_eq!(make_move(&mut gs, 7, 7), Ok(true));
    assert_eq!(gs.board[7][7], -1);
    assert_eq!(gs.current_player, 1);
}

#[test]
fn difficulty_profiles_are_fixed() {
    assert_eq!(AIDifficulty::Easy.get_max_depth(), 0);
    assert_eq!(AIDifficulty::Medium.get_max_depth(), 1);
    assert_eq!(AIDifficulty::Hard.get_max_depth(), 2);
    assert_eq!(AIDifficulty::Easy.get_max_moves(), 3);
    assert_eq!(AIDifficulty::Medium.get_max_moves(), 5);
    assert_eq!(AIDifficulty::Hard.get_max_moves(), 8);
    assert_eq!(AIDifficulty::Easy.get_parallel_threads(), 1);
    assert_eq!(AIDifficulty::Medium.get_parallel_threads(), 1);
    assert_eq!(AIDifficulty::Hard.get_parallel_threads(), 2);
    assert_eq!(AIDifficulty::Easy.get_time_limit_ms(), 0);
    assert_eq!(AIDifficulty::Medium.get_time_limit_ms(), 0);
    assert_eq!(AIDifficulty::Hard.get_time_limit_ms(), 0);
}

use gomoku::board::clone_board;
use gomoku::eval::{LOSE_SCORE, WIN_SCORE};
use gomoku::{
    check_win, evaluate_board, get_possible_moves, is_valid_position, minimax, parallel_minimax,
    simple_minimax, AIDifficulty,
};

fn empty_board() -> Vec<Vec<i32>> {
    vec![vec![0; 15]; 15]
}

#[test]
fn valid_positions() {
    assert!(is_valid_position(0, 0));
    assert!(is_valid_position(14, 14));
    assert!(is_valid_position(7, 7));
    assert!(!is_valid_position(-1, 0));
    assert!(!is_valid_position(0, -1));
    assert!(!is_valid_position(15, 0));
    assert!(!is_valid_position(0, 15));
}

#[test]
fn win_false_on_empty_cell() {
    let mut b = empty_board();
    for c in 3..8 {
        b[7][c] = 1;
    }
    // (5, 5) is empty: never a win, whatever surrounds it
    assert!(!check_win(&b, 5, 5));
    assert!(!check_win(&b, 0, 0));
}

#[test]
fn win_horizontal_five_at_every_position() {
    let mut b = empty_board();
    for c in 3..8 {
        b[7][c] = 1;
    }
    for c in 3..8 {
        assert!(check_win(&b, 7, c));
    }
}

#[test]
fn win_vertical_five_at_every_position() {
    let mut b = empty_board();
    for r in 2..7 {
        b[r][4] = -1;
    }
    for r in 2..7 {
        assert!(check_win(&b, r, 4));
    }
}

#[test]
fn win_diagonal_five() {
    let mut b = empty_board();
    for i in 0..5 {
        b[5 + i][5 + i] = 1;
    }
    for i in 0..5 {
        assert!(check_win(&b, 5 + i, 5 + i));
    }
}

#[test]
fn win_anti_diagonal_five() {
    let mut b = empty_board();
    for i in 0..5 {
        b[5 + i][9 - i] = 1;
    }
    for i in 0..5 {
        assert!(check_win(&b, 5 + i, 9 - i));
    }
}

#[test]
fn no_win_with_only_four() {
    let mut b = empty_board();
    for c in 3..7 {
        b[7][c] = 1;
    }
    for c in 3..7 {
        assert!(!check_win(&b, 7, c));
    }
}

#[test]
fn win_with_six_in_a_row() {
    let mut b = empty_board();
    for c in 3..9 {
        b[7][c] = 1;
    }
    for c in 3..9 {
        assert!(check_win(&b, 7, c));
    }
}

#[test]
fn evaluate_single_center_stone() {
    let mut b = empty_board();
    b[7][7] = 1;
    // four open singles at 50 each, plus the center bonus
    assert_eq!(evaluate_board(&b, 1), 300);
    assert_eq!(evaluate_board(&b, -1), -300);
}

#[test]
fn evaluate_corner_stone_scores_nothing() {
    let mut b = empty_board();
    b[0][0] = 1;
    // every axis from the corner has a blocked end
    assert_eq!(evaluate_board(&b, 1), 0);
}

#[test]
fn evaluate_adjacent_pair() {
    let mut b = empty_board();
    b[7][7] = 1;
    b[7][8] = 1;
    // per stone: open two 500, three open singles 150, center bonus 100
    assert_eq!(evaluate_board(&b, 1), 1500);
}

#[test]
fn evaluate_capped_pair_at_edge() {
    let mut b = empty_board();
    b[0][0] = 1;
    b[0][1] = 1;
    // each stone: one capped two at 100, nothing else
    assert_eq!(evaluate_board(&b, 1), 200);
}

#[test]
fn evaluate_zero_sum_opposite_ids() {
    let mut b = empty_board();
    b[7][7] = 1;
    b[7][8] = 1;
    b[3][4] = 1;
    b[8][8] = -1;
    b[2][2] = -1;
    assert_eq!(evaluate_board(&b, 1), -evaluate_board(&b, -1));
}

#[test]
fn evaluate_zero_sum_arbitrary_ids() {
    let mut b = empty_board();
    b[7][7] = 1;
    b[6][6] = 2;
    b[6][7] = 2;
    b[9][3] = 1;
    assert_eq!(evaluate_board(&b, 1), -evaluate_board(&b, 2));
}

#[test]
fn moves_on_empty_board_is_center() {
    let b = empty_board();
    assert_eq!(get_possible_moves(&b), vec![(7, 7)]);
}

#[test]
fn moves_ranked_around_single_stone() {
    let mut b = empty_board();
    b[7][7] = 1;
    let expected: Vec<(usize, usize)> = vec![
        (7, 6),
        (7, 8),
        (6, 7),
        (8, 7),
        (6, 6),
        (6, 8),
        (8, 6),
        (8, 8),
        (7, 5),
        (7, 9),
        (5, 7),
        (9, 7),
        (6, 5),
        (6, 9),
        (8, 5),
    ];
    assert_eq!(get_possible_moves(&b), expected);
}

#[test]
fn moves_are_empty_cells_near_stones() {
    let mut b = empty_board();
    b[0][0] = 1;
    b[14][14] = -1;
    let mv = get_possible_moves(&b);
    assert!(!mv.is_empty());
    assert!(mv.len() <= 15);
    for &(r, c) in &mv {
        assert_eq!(b[r][c], 0);
        let mut near = false;
        for dr in -2i32..=2 {
            for dc in -2i32..=2 {
                let rr = r as i32 + dr;
                let cc = c as i32 + dc;
                if (0..15).contains(&rr) && (0..15).contains(&cc) && b[rr as usize][cc as usize] != 0
                {
                    near = true;
                }
            }
        }
        assert!(near);
    }
}

#[test]
fn minimax_depth_zero_is_static_evaluation() {
    let mut b = empty_board();
    b[7][7] = 1;
    let expected = evaluate_board(&b, 1);
    let got = minimax(&mut b, 0, LOSE_SCORE, WIN_SCORE, true, 1, -1);
    assert_eq!(got, expected);
}

#[test]
fn minimax_restores_the_board() {
    let mut b = empty_board();
    b[7][7] = 1;
    b[7][8] = -1;
    let before = clone_board(&b);
    let _ = minimax(&mut b, 2, LOSE_SCORE, WIN_SCORE, true, 1, -1);
    assert_eq!(b, before);
}

#[test]
fn minimax_sees_immediate_win() {
    let mut b = empty_board();
    for c in 3..7 {
        b[7][c] = 1;
    }
    let got = minimax(&mut b, 1, LOSE_SCORE, WIN_SCORE, true, 1, -1);
    assert_eq!(got, WIN_SCORE);
}

#[test]
fn minimax_sees_opponent_win() {
    let mut b = empty_board();
    for c in 3..7 {
        b[7][c] = -1;
    }
    // minimizing ply: the opponent can complete five among the candidates
    let got = minimax(&mut b, 1, LOSE_SCORE, WIN_SCORE, false, 1, -1);
    assert!(got <= LOSE_SCORE);
}

#[test]
fn simple_minimax_detects_opponent_win() {
    let mut b = empty_board();
    for c in 3..7 {
        b[7][c] = -1;
    }
    // (7, 7) ranks first among the candidates and completes the five
    assert_eq!(simple_minimax(&b, 1, 1, -1), LOSE_SCORE);
}

#[test]
fn simple_minimax_depth_zero_is_static_evaluation() {
    let mut b = empty_board();
    b[7][7] = 1;
    b[8][8] = -1;
    assert_eq!(simple_minimax(&b, 0, 1, -1), evaluate_board(&b, 1));
}

#[test]
fn parallel_minimax_depth_zero_is_static_evaluation() {
    let mut b = empty_board();
    b[7][7] = 1;
    assert_eq!(
        parallel_minimax(&b, 0, LOSE_SCORE, WIN_SCORE, true, 1, -1, AIDifficulty::Hard),
        300
    );
}

#[test]
fn parallel_minimax_sees_immediate_win() {
    let mut b = empty_board();
    for c in 3..7 {
        b[7][c] = 1;
    }
    // every child either completes five or keeps the open four alive
    let got = parallel_minimax(&b, 1, LOSE_SCORE, WIN_SCORE, true, 1, -1, AIDifficulty::Hard);
    assert!(got >= WIN_SCORE);
}

#[test]
fn parallel_minimax_deeper_stays_bounded() {
    let mut b = empty_board();
    b[7][7] = 1;
    b[8][8] = -1;
    let got = parallel_minimax(&b, 2, LOSE_SCORE, WIN_SCORE, true, 1, -1, AIDifficulty::Medium);
    assert!((-189022500..=189022500).contains(&got));
}

//! The search engine: depth-bounded minimax with alpha-beta pruning over the
//! generated candidate set, with an immediate-win check before each descent.
//! The parallel variant fans the children of one ply out to a worker pool;
//! each worker owns a copy of the board, and the results are merged in
//! generation order with threshold pruning reapplied at merge time. Each
//! search's result is proved equal to a recursively defined value function,
//! so the searched value is a function of the arguments alone.

use vstd::prelude::*;
use rayon::iter::{IntoParallelRefIterator, ParallelIterator};
use crate::board::{bview, board_ok, in_board, place, clone_board, lemma_empty_cell_not_full,
    lemma_place_restore, set_cell, stone_count};
use crate::difficulty::{spec_max_moves, AIDifficulty};
use crate::eval::{board_score, evaluate_board, BOARD_SCORE_MAX, LOSE_SCORE, WIN_SCORE};
use crate::moves::{candidate_list, cps, get_possible_moves};
use crate::win::{check_win, win_at, win_place};

verus! {

/// Depth bound of the full sequential search.
pub const MAX_DEPTH: i32 = 4;

/// The candidate list truncated to at most `k` entries.
pub open spec fn capped(cl: Seq<(int, int)>, k: int) -> Seq<(int, int)> {
    if cl.len() > k {
        cl.subrange(0, k)
    } else {
        cl
    }
}

/// Some cell among the first `k` candidates completes five for `p`.
pub open spec fn winning_candidate(b: Seq<Seq<i32>>, k: int, p: i32) -> bool {
    exists|i: int|
        0 <= i < candidate_list(b).len() && i < k && win_place(
            b,
            (#[trigger] candidate_list(b)[i]).0,
            candidate_list(b)[i].1,
            p,
        )
}

/// Maximizing fold of the sequential search over candidates from `i` on: an
/// immediate win for the mover ends the whole search with the winning score,
/// otherwise the child value tightens the lower bound, and the fold stops at
/// a cutoff.
pub open spec fn seq_fold_max(
    b: Seq<Seq<i32>>,
    cl: Seq<(int, int)>,
    i: int,
    a: int,
    best: int,
    beta: int,
    depth: int,
    p: i32,
    o: i32,
) -> int
    decreases depth, 0int, cl.len() - i,
{
    if depth < 1 || i < 0 || i >= cl.len() {
        best
    } else {
        let b2 = place(b, cl[i].0, cl[i].1, p);
        if win_at(b2, cl[i].0, cl[i].1) {
            100000
        } else {
            let v = minimax_value(b2, depth - 1, a, beta, false, p, o);
            let best2 = if v > best {
                v
            } else {
                best
            };
            let a2 = if v > a {
                v
            } else {
                a
            };
            if beta <= a2 {
                best2
            } else {
                seq_fold_max(b, cl, i + 1, a2, best2, beta, depth, p, o)
            }
        }
    }
}

/// Minimizing fold of the sequential search: the opponent's immediate win
/// ends the whole search with the losing score.
pub open spec fn seq_fold_min(
    b: Seq<Seq<i32>>,
    cl: Seq<(int, int)>,
    i: int,
    bt: int,
    best: int,
    alpha: int,
    depth: int,
    p: i32,
    o: i32,
) -> int
    decreases depth, 0int, cl.len() - i,
{
    if depth < 1 || i < 0 || i >= cl.len() {
        best
    } else {
        let b2 = place(b, cl[i].0, cl[i].1, o);
        if win_at(b2, cl[i].0, cl[i].1) {
            -100000
        } else {
            let v = minimax_value(b2, depth - 1, alpha, bt, true, p, o);
            let best2 = if v < best {
                v
            } else {
                best
            };
            let bt2 = if v < bt {
                v
            } else {
                bt
            };
            if bt2 <= alpha {
                best2
            } else {
                seq_fold_min(b, cl, i + 1, bt2, best2, alpha, depth, p, o)
            }
        }
    }
}

/// The exact value of the sequential alpha-beta search: the static score at
/// depth zero or with no candidate, else the fold over the first twelve
/// ranked candidates.
pub open spec fn minimax_value(
    b: Seq<Seq<i32>>,
    depth: int,
    alpha: int,
    beta: int,
    maxi: bool,
    p: i32,
    o: i32,
) -> int
    decreases depth, 1int, 0int,
{
    if depth <= 0 {
        board_score(b, p)
    } else {
        let cl = candidate_list(b);
        if cl.len() == 0 {
            board_score(b, p)
        } else {
            let cls = capped(cl, 12);
            if maxi {
                seq_fold_max(b, cls, 0, alpha, -100000, beta, depth, p, o)
            } else {
                seq_fold_min(b, cls, 0, beta, 100000, alpha, depth, p, o)
            }
        }
    }
}

/// Depth-bounded minimax with alpha-beta pruning. Candidates come from the
/// move generator, capped at twelve per node; placing a stone that wins
/// immediately returns the extremal score without descending. The board is
/// used as scratch space and handed back exactly as it was, and the score is
/// exactly the value function's.
#[verifier::rlimit(60)]
pub fn minimax(
    board: &mut Vec<Vec<i32>>,
    depth: i32,
    alpha: i32,
    beta: i32,
    is_maximizing: bool,
    player: i32,
    opponent: i32,
) -> (score: i32)
    requires
        board_ok(bview(old(board))),
        depth >= 0,
    ensures
        board_ok(bview(final(board))),
        bview(final(board)) == bview(old(board)),
        score == minimax_value(
            bview(old(board)),
            depth as int,
            alpha as int,
            beta as int,
            is_maximizing,
            player,
            opponent,
        ),
        depth == 0 ==> score == board_score(bview(old(board)), player),
        stone_count(bview(old(board))) == 225 ==> score == board_score(bview(old(board)), player),
        depth >= 1 && is_maximizing && alpha == LOSE_SCORE && beta == WIN_SCORE
            && winning_candidate(bview(old(board)), 12, player) ==> score >= WIN_SCORE,
        depth >= 1 && !is_maximizing && alpha == LOSE_SCORE && beta == WIN_SCORE
            && winning_candidate(bview(old(board)), 12, opponent) ==> score <= LOSE_SCORE,
        -BOARD_SCORE_MAX <= score <= BOARD_SCORE_MAX,
    decreases depth,
{
    if depth == 0 {
        return evaluate_board(&*board, player);
    }
    let moves = get_possible_moves(&*board);
    let ghost mseq = moves@;
    if moves.len() == 0 {
        proof {
            assert(candidate_list(bview(board)).len() == 0);
        }
        return evaluate_board(&*board, player);
    }
    let mut search_moves = moves;
    if search_moves.len() > 12 {
        search_moves.truncate(12);
    }
    let ghost b0 = bview(board);
    let ghost cl = candidate_list(b0);
    let ghost cls = capped(cl, 12);
    proof {
        assert(cps(search_moves@) =~= cls);
        assert forall|i: int| 0 <= i < search_moves@.len() implies in_board(
            (#[trigger] search_moves@[i]).0 as int,
            search_moves@[i].1 as int,
        ) && b0[search_moves@[i].0 as int][search_moves@[i].1 as int] == 0 by {
            assert(mseq[i] == search_moves@[i]);
        }
        lemma_empty_cell_not_full(b0, search_moves@[0].0 as int, search_moves@[0].1 as int);
    }
    if is_maximizing {
        let ghost vm = minimax_value(b0, depth as int, alpha as int, beta as int, true, player, opponent);
        let mut max_eval: i32 = LOSE_SCORE;
        let mut a: i32 = alpha;
        let mut idx: usize = 0;
        let mut cut = false;
        proof {
            assert(vm == seq_fold_max(b0, cls, 0, alpha as int, -100000, beta as int, depth as int, player, opponent));
        }
        while idx < search_moves.len() && !cut
            invariant
                board_ok(bview(board)),
                bview(board) == b0,
                b0 == bview(old(board)),
                stone_count(b0) < 225,
                depth >= 1,
                is_maximizing,
                cl == candidate_list(b0),
                cl.len() > 0,
                cls == capped(cl, 12),
                cps(search_moves@) == cls,
                vm == minimax_value(b0, depth as int, alpha as int, beta as int, true, player, opponent),
                idx <= search_moves@.len(),
                -BOARD_SCORE_MAX <= max_eval <= BOARD_SCORE_MAX,
                forall|i: int|
                    0 <= i < search_moves@.len() ==> in_board(
                        (#[trigger] search_moves@[i]).0 as int,
                        search_moves@[i].1 as int,
                    ) && b0[search_moves@[i].0 as int][search_moves@[i].1 as int] == 0,
                !cut ==> seq_fold_max(
                    b0,
                    cls,
                    idx as int,
                    a as int,
                    max_eval as int,
                    beta as int,
                    depth as int,
                    player,
                    opponent,
                ) == vm,
                cut ==> max_eval == vm,
                alpha == LOSE_SCORE ==> a == max_eval,
                cut ==> beta <= a,
                !cut ==> forall|i: int|
                    0 <= i < idx ==> !win_place(b0, (#[trigger] cls[i]).0, cls[i].1, player),
            decreases search_moves@.len() - idx,
        {
            let (row, col) = search_moves[idx];
            proof {
                assert(cls[idx as int] == cps(search_moves@)[idx as int]);
            }
            set_cell(board, row, col, player);
            if check_win(&*board, row, col) {
                set_cell(board, row, col, 0);
                proof {
                    lemma_place_restore(b0, row as int, col as int, player);
                    assert(seq_fold_max(
                        b0,
                        cls,
                        idx as int,
                        a as int,
                        max_eval as int,
                        beta as int,
                        depth as int,
                        player,
                        opponent,
                    ) == 100000);
                }
                return WIN_SCORE;
            }
            let eval = minimax(board, depth - 1, a, beta, false, player, opponent);
            set_cell(board, row, col, 0);
            let ghost a0 = a as int;
            let ghost max0 = max_eval as int;
            proof {
                lemma_place_restore(b0, row as int, col as int, player);
            }
            if eval > max_eval {
                max_eval = eval;
            }
            if eval > a {
                a = eval;
            }
            proof {
                assert(!win_place(b0, cls[idx as int].0, cls[idx as int].1, player));
                assert(seq_fold_max(b0, cls, idx as int, a0, max0, beta as int, depth as int, player, opponent)
                    == (if beta as int <= a as int {
                    max_eval as int
                } else {
                    seq_fold_max(
                        b0,
                        cls,
                        idx as int + 1,
                        a as int,
                        max_eval as int,
                        beta as int,
                        depth as int,
                        player,
                        opponent,
                    )
                }));
            }
            if beta <= a {
                cut = true;
            }
            idx = idx + 1;
        }
        proof {
            if !cut {
                assert(seq_fold_max(
                    b0,
                    cls,
                    cls.len() as int,
                    a as int,
                    max_eval as int,
                    beta as int,
                    depth as int,
                    player,
                    opponent,
                ) == max_eval);
            }
            if alpha == LOSE_SCORE && beta == WIN_SCORE && winning_candidate(b0, 12, player) {
                if !cut {
                    let i = choose|i: int|
                        0 <= i < candidate_list(b0).len() && i < 12 && win_place(
                            b0,
                            (#[trigger] candidate_list(b0)[i]).0,
                            candidate_list(b0)[i].1,
                            player,
                        );
                    assert(cls[i] == cl[i]);
                    assert(i < cls.len());
                    assert(false);
                }
            }
        }
        max_eval
    } else {
        let ghost vm = minimax_value(b0, depth as int, alpha as int, beta as int, false, player, opponent);
        let mut min_eval: i32 = WIN_SCORE;
        let mut bt: i32 = beta;
        let mut idx: usize = 0;
        let mut cut = false;
        proof {
            assert(vm == seq_fold_min(b0, cls, 0, beta as int, 100000, alpha as int, depth as int, player, opponent));
        }
        while idx < search_moves.len() && !cut
            invariant
                board_ok(bview(board)),
                bview(board) == b0,
                b0 == bview(old(board)),
                stone_count(b0) < 225,
                depth >= 1,
                !is_maximizing,
                cl == candidate_list(b0),
                cl.len() > 0,
                cls == capped(cl, 12),
                cps(search_moves@) == cls,
                vm == minimax_value(b0, depth as int, alpha as int, beta as int, false, player, opponent),
                idx <= search_moves@.len(),
                -BOARD_SCORE_MAX <= min_eval <= BOARD_SCORE_MAX,
                forall|i: int|
                    0 <= i < search_moves@.len() ==> in_board(
                        (#[trigger] search_moves@[i]).0 as int,
                        search_moves@[i].1 as int,
                    ) && b0[search_moves@[i].0 as int][search_moves@[i].1 as int] == 0,
                !cut ==> seq_fold_min(
                    b0,
                    cls,
                    idx as int,
                    bt as int,
                    min_eval as int,
                    alpha as int,
                    depth as int,
                    player,
                    opponent,
                ) == vm,
                cut ==> min_eval == vm,
                beta == WIN_SCORE ==> bt == min_eval,
                cut ==> bt <= alpha,
                !cut ==> forall|i: int|
                    0 <= i < idx ==> !win_place(b0, (#[trigger] cls[i]).0, cls[i].1, opponent),
            decreases search_moves@.len() - idx,
        {
            let (row, col) = search_moves[idx];
            proof {
                assert(cls[idx as int] == cps(search_moves@)[idx as int]);
            }
            set_cell(board, row, col, opponent);
            if check_win(&*board, row, col) {
                set_cell(board, row, col, 0);
                proof {
                    lemma_place_restore(b0, row as int, col as int, opponent);
                    assert(seq_fold_min(
                        b0,
                        cls,
                        idx as int,
                        bt as int,
                        min_eval as int,
                        alpha as int,
                        depth as int,
                        player,
                        opponent,
                    ) == -100000);
                }
                return LOSE_SCORE;
            }
            let eval = minimax(board, depth - 1, alpha, bt, true, player, opponent);
            set_cell(board, row, col, 0);
            let ghost bt0 = bt as int;
            let ghost min0 = min_eval as int;
            proof {
                lemma_place_restore(b0, row as int, col as int, opponent);
            }
            if eval < min_eval {
                min_eval = eval;
            }
            if eval < bt {
                bt = eval;
            }
            proof {
                assert(!win_place(b0, cls[idx as int].0, cls[idx as int].1, opponent));
                assert(seq_fold_min(b0, cls, idx as int, bt0, min0, alpha as int, depth as int, player, opponent)
                    == (if bt as int <= alpha as int {
                    min_eval as int
                } else {
                    seq_fold_min(
                        b0,
                        cls,
                        idx as int + 1,
                        bt as int,
                        min_eval as int,
                        alpha as int,
                        depth as int,
                        player,
                        opponent,
                    )
                }));
            }
            if bt <= alpha {
                cut = true;
            }
            idx = idx + 1;
        }
        proof {
            if !cut {
                assert(seq_fold_min(
                    b0,
                    cls,
                    cls.len() as int,
                    bt as int,
                    min_eval as int,
                    alpha as int,
                    depth as int,
                    player,
                    opponent,
                ) == min_eval);
            }
            if alpha == LOSE_SCORE && beta == WIN_SCORE && winning_candidate(b0, 12, opponent) {
                if !cut {
                    let i = choose|i: int|
                        0 <= i < candidate_list(b0).len() && i < 12 && win_place(
                            b0,
                            (#[trigger] candidate_list(b0)[i]).0,
                            candidate_list(b0)[i].1,
                            opponent,
                        );
                    assert(cls[i] == cl[i]);
                    assert(i < cls.len());
                    assert(false);
                }
            }
        }
        min_eval
    }
}

/// Fold of the shallow fallback search over candidates from `i` on: the
/// opponent replies on each candidate; an immediate opponent win ends the
/// whole search with the losing score, else scores negate down a ply.
pub open spec fn simple_fold(
    b: Seq<Seq<i32>>,
    cl: Seq<(int, int)>,
    i: int,
    best: int,
    depth: int,
    ai: i32,
    hu: i32,
) -> int
    decreases depth, 0int, cl.len() - i,
{
    if depth < 1 || i < 0 || i >= cl.len() {
        best
    } else {
        let b2 = place(b, cl[i].0, cl[i].1, hu);
        if win_at(b2, cl[i].0, cl[i].1) {
            -100000
        } else {
            let v = -simple_value(b2, depth - 1, ai, hu);
            simple_fold(
                b,
                cl,
                i + 1,
                if v > best {
                    v
                } else {
                    best
                },
                depth,
                ai,
                hu,
            )
        }
    }
}

/// The exact value of the shallow fallback search: the static score at depth
/// zero or with no candidate, else the fold over the top three candidates.
pub open spec fn simple_value(b: Seq<Seq<i32>>, depth: int, ai: i32, hu: i32) -> int
    decreases depth, 1int, 0int,
{
    if depth <= 0 {
        board_score(b, ai)
    } else {
        let cl = candidate_list(b);
        if cl.len() == 0 {
            board_score(b, ai)
        } else {
            simple_fold(b, capped(cl, 3), 0, -100000, depth, ai, hu)
        }
    }
}

/// The shallow search behind the decision pipeline's fallback layer: at each
/// ply the opponent replies on one of the top three candidates, scores are
/// negated down the recursion, and an immediate opponent win scores lowest.
/// The score is exactly the value function's.
pub fn simple_minimax(board: &Vec<Vec<i32>>, depth: i32, ai_player: i32, human_player: i32) -> (score:
    i32)
    requires
        board_ok(bview(board)),
        depth >= 0,
    ensures
        score == simple_value(bview(board), depth as int, ai_player, human_player),
        depth == 0 ==> score == board_score(bview(board), ai_player),
        stone_count(bview(board)) == 225 ==> score == board_score(bview(board), ai_player),
        depth >= 1 && winning_candidate(bview(board), 3, human_player) ==> score == LOSE_SCORE,
        -BOARD_SCORE_MAX <= score <= BOARD_SCORE_MAX,
    decreases depth,
{
    if depth == 0 {
        return evaluate_board(board, ai_player);
    }
    let moves = get_possible_moves(board);
    let ghost mseq = moves@;
    if moves.len() == 0 {
        proof {
            assert(candidate_list(bview(board)).len() == 0);
        }
        return evaluate_board(board, ai_player);
    }
    let mut search_moves = moves;
    if search_moves.len() > 3 {
        search_moves.truncate(3);
    }
    let ghost b0 = bview(board);
    let ghost cl = candidate_list(b0);
    let ghost cls = capped(cl, 3);
    let ghost sv = simple_value(b0, depth as int, ai_player, human_player);
    proof {
        assert(cps(search_moves@) =~= cls);
        assert forall|i: int| 0 <= i < search_moves@.len() implies in_board(
            (#[trigger] search_moves@[i]).0 as int,
            search_moves@[i].1 as int,
        ) && b0[search_moves@[i].0 as int][search_moves@[i].1 as int] == 0 by {
            assert(mseq[i] == search_moves@[i]);
        }
        lemma_empty_cell_not_full(b0, search_moves@[0].0 as int, search_moves@[0].1 as int);
        assert(sv == simple_fold(b0, cls, 0, -100000, depth as int, ai_player, human_player));
    }
    let mut work = clone_board(board);
    let mut best_score: i32 = LOSE_SCORE;
    let mut idx: usize = 0;
    while idx < search_moves.len()
        invariant
            board_ok(bview(&work)),
            bview(&work) == b0,
            b0 == bview(board),
            stone_count(b0) < 225,
            depth >= 1,
            cl == candidate_list(b0),
            cl.len() > 0,
            cls == capped(cl, 3),
            cps(search_moves@) == cls,
            sv == simple_value(b0, depth as int, ai_player, human_player),
            idx <= search_moves@.len(),
            -BOARD_SCORE_MAX <= best_score <= BOARD_SCORE_MAX,
            forall|i: int|
                0 <= i < search_moves@.len() ==> in_board(
                    (#[trigger] search_moves@[i]).0 as int,
                    search_moves@[i].1 as int,
                ) && b0[search_moves@[i].0 as int][search_moves@[i].1 as int] == 0,
            simple_fold(b0, cls, idx as int, best_score as int, depth as int, ai_player, human_player)
                == sv,
            forall|i: int|
                0 <= i < idx ==> !win_place(b0, (#[trigger] cls[i]).0, cls[i].1, human_player),
        decreases search_moves@.len() - idx,
    {
        let (row, col) = search_moves[idx];
        proof {
            assert(cls[idx as int] == cps(search_moves@)[idx as int]);
        }
        set_cell(&mut work, row, col, human_player);
        if check_win(&work, row, col) {
            proof {
                assert(simple_fold(
                    b0,
                    cls,
                    idx as int,
                    best_score as int,
                    depth as int,
                    ai_player,
                    human_player,
                ) == -100000);
            }
            return LOSE_SCORE;
        }
        let sub = simple_minimax(&work, depth - 1, ai_player, human_player);
        let score = -sub;
        set_cell(&mut work, row, col, 0);
        let ghost best0 = best_score as int;
        proof {
            lemma_place_restore(b0, row as int, col as int, human_player);
        }
        if score > best_score {
            best_score = score;
        }
        proof {
            assert(!win_place(b0, cls[idx as int].0, cls[idx as int].1, human_player));
            assert(simple_fold(b0, cls, idx as int, best0, depth as int, ai_player, human_player)
                == simple_fold(
                b0,
                cls,
                idx as int + 1,
                best_score as int,
                depth as int,
                ai_player,
                human_player,
            ));
        }
        idx = idx + 1;
    }
    proof {
        assert(simple_fold(
            b0,
            cls,
            cls.len() as int,
            best_score as int,
            depth as int,
            ai_player,
            human_player,
        ) == best_score);
        if winning_candidate(b0, 3, human_player) {
            let i = choose|i: int|
                0 <= i < candidate_list(b0).len() && i < 3 && win_place(
                    b0,
                    (#[trigger] candidate_list(b0)[i]).0,
                    candidate_list(b0)[i].1,
                    human_player,
                );
            assert(cls[i] == cl[i]);
            assert(i < cls.len());
            assert(false);
        }
    }
    best_score
}

/// One parallel branch's exact value: the worker's board after the mover's
/// stone is placed, the extremal score on an immediate win, and otherwise
/// the parallel search value of the subtree.
pub open spec fn par_child_value(
    b: Seq<Seq<i32>>,
    r: int,
    c: int,
    depth: int,
    alpha: int,
    beta: int,
    maxi: bool,
    p: i32,
    o: i32,
    diff: AIDifficulty,
) -> int
    decreases depth, 0int, 0int,
{
    let b2 = place(
        b,
        r,
        c,
        if maxi {
            p
        } else {
            o
        },
    );
    if win_at(b2, r, c) {
        if maxi {
            100000
        } else {
            -100000
        }
    } else if depth >= 1 {
        par_value(b2, depth - 1, alpha, beta, !maxi, p, o, diff)
    } else {
        board_score(b2, p)
    }
}

/// Maximizing merge of the parallel results in generation order, with
/// threshold pruning reapplied: every child was searched with the bounds
/// valid at fan-out time.
pub open spec fn par_merge_max(
    b: Seq<Seq<i32>>,
    cl: Seq<(int, int)>,
    i: int,
    a: int,
    best: int,
    alpha0: int,
    beta: int,
    depth: int,
    p: i32,
    o: i32,
    diff: AIDifficulty,
) -> int
    decreases depth, 1int, cl.len() - i,
{
    if i < 0 || i >= cl.len() {
        best
    } else {
        let v = par_child_value(b, cl[i].0, cl[i].1, depth, alpha0, beta, true, p, o, diff);
        let best2 = if v > best {
            v
        } else {
            best
        };
        let a2 = if v > a {
            v
        } else {
            a
        };
        if beta <= a2 {
            best2
        } else {
            par_merge_max(b, cl, i + 1, a2, best2, alpha0, beta, depth, p, o, diff)
        }
    }
}

/// Minimizing merge of the parallel results in generation order.
pub open spec fn par_merge_min(
    b: Seq<Seq<i32>>,
    cl: Seq<(int, int)>,
    i: int,
    bt: int,
    best: int,
    alpha0: int,
    beta: int,
    depth: int,
    p: i32,
    o: i32,
    diff: AIDifficulty,
) -> int
    decreases depth, 1int, cl.len() - i,
{
    if i < 0 || i >= cl.len() {
        best
    } else {
        let v = par_child_value(b, cl[i].0, cl[i].1, depth, alpha0, beta, false, p, o, diff);
        let best2 = if v < best {
            v
        } else {
            best
        };
        let bt2 = if v < bt {
            v
        } else {
            bt
        };
        if bt2 <= alpha0 {
            best2
        } else {
            par_merge_min(b, cl, i + 1, bt2, best2, alpha0, beta, depth, p, o, diff)
        }
    }
}

/// The exact value of the parallel search: a deterministic function of the
/// board and search parameters alone, independent of worker scheduling.
pub open spec fn par_value(
    b: Seq<Seq<i32>>,
    depth: int,
    alpha: int,
    beta: int,
    maxi: bool,
    p: i32,
    o: i32,
    diff: AIDifficulty,
) -> int
    decreases depth, 2int, 0int,
{
    if depth <= 0 {
        board_score(b, p)
    } else {
        let cl = candidate_list(b);
        if cl.len() == 0 {
            board_score(b, p)
        } else {
            let cls = capped(cl, spec_max_moves(diff));
            if maxi {
                par_merge_max(b, cls, 0, alpha, -100000, alpha, beta, depth, p, o, diff)
            } else {
                par_merge_min(b, cls, 0, beta, 100000, alpha, beta, depth, p, o, diff)
            }
        }
    }
}

/// Runs `parallel_child` on every candidate across rayon's worker pool.
///
/// Relies on rayon's `par_iter().map(..).collect::<Vec<_>>()`: it yields
/// exactly one element per input, in input order, each the value returned by
/// the mapped closure, which here only calls the verified `parallel_child` on
/// that input. Each element therefore satisfies `parallel_child`'s
/// postcondition for its own candidate; the two clauses below are exactly
/// that postcondition, stated per index (naming the child's contract through
/// `call_ensures` would make this contract depend cyclically on the child,
/// whose subtree search comes back through this wrapper).
#[verifier::external_body]
fn par_children(
    board: &Vec<Vec<i32>>,
    moves: &Vec<(usize, usize)>,
    depth: i32,
    alpha: i32,
    beta: i32,
    is_maximizing: bool,
    player: i32,
    opponent: i32,
    difficulty: AIDifficulty,
) -> (r: Vec<i32>)
    requires
        board_ok(bview(board)),
        depth >= 1,
        forall|i: int|
            0 <= i < moves@.len() ==> in_board(
                (#[trigger] moves@[i]).0 as int,
                moves@[i].1 as int,
            ) && bview(board)[moves@[i].0 as int][moves@[i].1 as int] == 0,
    ensures
        r@.len() == moves@.len(),
        forall|i: int|
            0 <= i < r@.len() ==> #[trigger] r@[i] as int == par_child_value(
                bview(board),
                moves@[i].0 as int,
                moves@[i].1 as int,
                depth as int,
                alpha as int,
                beta as int,
                is_maximizing,
                player,
                opponent,
                difficulty,
            ),
        forall|i: int| 0 <= i < r@.len() ==> -BOARD_SCORE_MAX <= #[trigger] r@[i] <= BOARD_SCORE_MAX,
{
    moves.par_iter().map(|&(row, col)| {
        parallel_child(board, row, col, depth, alpha, beta, is_maximizing, player, opponent, difficulty)
    }).collect()
}

/// One parallel branch: the worker copies the board, places the mover's
/// stone, returns the extremal score on an immediate win, and otherwise
/// searches its subtree with the bounds valid at fan-out time. The score is
/// exactly the child value function's.
fn parallel_child(
    board: &Vec<Vec<i32>>,
    row: usize,
    col: usize,
    depth: i32,
    alpha: i32,
    beta: i32,
    is_maximizing: bool,
    player: i32,
    opponent: i32,
    difficulty: AIDifficulty,
) -> (score: i32)
    requires
        board_ok(bview(board)),
        row < 15,
        col < 15,
        bview(board)[row as int][col as int] == 0,
        depth >= 1,
    ensures
        score == par_child_value(
            bview(board),
            row as int,
            col as int,
            depth as int,
            alpha as int,
            beta as int,
            is_maximizing,
            player,
            opponent,
            difficulty,
        ),
        -BOARD_SCORE_MAX <= score <= BOARD_SCORE_MAX,
{
    let mut work = clone_board(board);
    let mover = if is_maximizing {
        player
    } else {
        opponent
    };
    set_cell(&mut work, row, col, mover);
    if check_win(&work, row, col) {
        if is_maximizing {
            return WIN_SCORE;
        } else {
            return LOSE_SCORE;
        }
    }
    parallel_minimax(&work, depth - 1, alpha, beta, !is_maximizing, player, opponent, difficulty)
}

/// The parallel minimax variant: distributes the children of this ply across
/// the worker pool, then merges the results in generation order, reapplying
/// alpha-beta threshold pruning at merge time. In-flight pruning across
/// branches is deliberately given up for wall-clock speed. The score is
/// exactly the parallel value function's, so it does not depend on worker
/// scheduling.
#[verifier::rlimit(60)]
pub fn parallel_minimax(
    board: &Vec<Vec<i32>>,
    depth: i32,
    alpha: i32,
    beta: i32,
    is_maximizing: bool,
    player: i32,
    opponent: i32,
    difficulty: AIDifficulty,
) -> (score: i32)
    requires
        board_ok(bview(board)),
        depth >= 0,
    ensures
        score == par_value(
            bview(board),
            depth as int,
            alpha as int,
            beta as int,
            is_maximizing,
            player,
            opponent,
            difficulty,
        ),
        depth == 0 ==> score == board_score(bview(board), player),
        stone_count(bview(board)) == 225 ==> score == board_score(bview(board), player),
        depth >= 1 && is_maximizing && alpha == LOSE_SCORE && beta == WIN_SCORE
            && winning_candidate(bview(board), spec_max_moves(difficulty), player) ==> score
            >= WIN_SCORE,
        depth >= 1 && !is_maximizing && alpha == LOSE_SCORE && beta == WIN_SCORE
            && winning_candidate(bview(board), spec_max_moves(difficulty), opponent) ==> score
            <= LOSE_SCORE,
        -BOARD_SCORE_MAX <= score <= BOARD_SCORE_MAX,
{
    if depth == 0 {
        return evaluate_board(board, player);
    }
    let moves = get_possible_moves(board);
    let ghost mseq = moves@;
    if moves.len() == 0 {
        proof {
            assert(candidate_list(bview(board)).len() == 0);
        }
        return evaluate_board(board, player);
    }
    let max_moves = difficulty.get_max_moves();
    let mut search_moves = moves;
    if search_moves.len() > max_moves {
        search_moves.truncate(max_moves);
    }
    let ghost b = bview(board);
    let ghost cl = candidate_list(b);
    let ghost cls = capped(cl, spec_max_moves(difficulty));
    proof {
        assert(cps(search_moves@) =~= cls);
        assert forall|i: int| 0 <= i < search_moves@.len() implies in_board(
            (#[trigger] search_moves@[i]).0 as int,
            search_moves@[i].1 as int,
        ) && b[search_moves@[i].0 as int][search_moves@[i].1 as int] == 0 by {
            assert(mseq[i] == search_moves@[i]);
        }
        lemma_empty_cell_not_full(b, search_moves@[0].0 as int, search_moves@[0].1 as int);
    }
    let results = par_children(
        board,
        &search_moves,
        depth,
        alpha,
        beta,
        is_maximizing,
        player,
        opponent,
        difficulty,
    );
    proof {
        assert forall|i: int| 0 <= i < results@.len() implies results@[i] as int
            == par_child_value(
            b,
            cls[i].0,
            cls[i].1,
            depth as int,
            alpha as int,
            beta as int,
            is_maximizing,
            player,
            opponent,
            difficulty,
        ) && -BOARD_SCORE_MAX <= results@[i] <= BOARD_SCORE_MAX by {
            assert(cls[i] == cps(search_moves@)[i]);
        }
    }
    if is_maximizing {
        let ghost pv = par_value(b, depth as int, alpha as int, beta as int, true, player, opponent, difficulty);
        proof {
            assert(pv == par_merge_max(
                b,
                cls,
                0,
                alpha as int,
                -100000,
                alpha as int,
                beta as int,
                depth as int,
                player,
                opponent,
                difficulty,
            ));
        }
        let mut max_eval: i32 = LOSE_SCORE;
        let mut a: i32 = alpha;
        let mut idx: usize = 0;
        let mut cut = false;
        while idx < results.len() && !cut
            invariant
                idx <= results@.len(),
                results@.len() == cls.len(),
                depth >= 1,
                b == bview(board),
                cl == candidate_list(b),
                cl.len() > 0,
                cls == capped(cl, spec_max_moves(difficulty)),
                pv == par_value(b, depth as int, alpha as int, beta as int, true, player, opponent, difficulty),
                -BOARD_SCORE_MAX <= max_eval <= BOARD_SCORE_MAX,
                forall|i: int|
                    0 <= i < results@.len() ==> #[trigger] results@[i] as int == par_child_value(
                        b,
                        cls[i].0,
                        cls[i].1,
                        depth as int,
                        alpha as int,
                        beta as int,
                        true,
                        player,
                        opponent,
                        difficulty,
                    ) && -BOARD_SCORE_MAX <= results@[i] <= BOARD_SCORE_MAX,
                !cut ==> par_merge_max(
                    b,
                    cls,
                    idx as int,
                    a as int,
                    max_eval as int,
                    alpha as int,
                    beta as int,
                    depth as int,
                    player,
                    opponent,
                    difficulty,
                ) == pv,
                cut ==> max_eval == pv,
                alpha == LOSE_SCORE ==> a == max_eval,
                cut ==> beta <= a,
                !cut ==> forall|i: int| 0 <= i < idx ==> max_eval >= #[trigger] results@[i],
            decreases results@.len() - idx,
        {
            let eval = results[idx];
            let ghost a0 = a as int;
            let ghost max0 = max_eval as int;
            if eval > max_eval {
                max_eval = eval;
            }
            if eval > a {
                a = eval;
            }
            proof {
                assert(par_merge_max(
                    b,
                    cls,
                    idx as int,
                    a0,
                    max0,
                    alpha as int,
                    beta as int,
                    depth as int,
                    player,
                    opponent,
                    difficulty,
                ) == (if beta as int <= a as int {
                    max_eval as int
                } else {
                    par_merge_max(
                        b,
                        cls,
                        idx as int + 1,
                        a as int,
                        max_eval as int,
                        alpha as int,
                        beta as int,
                        depth as int,
                        player,
                        opponent,
                        difficulty,
                    )
                }));
            }
            if beta <= a {
                cut = true;
            }
            idx = idx + 1;
        }
        proof {
            if !cut {
                assert(par_merge_max(
                    b,
                    cls,
                    cls.len() as int,
                    a as int,
                    max_eval as int,
                    alpha as int,
                    beta as int,
                    depth as int,
                    player,
                    opponent,
                    difficulty,
                ) == max_eval);
            }
            if alpha == LOSE_SCORE && beta == WIN_SCORE && winning_candidate(
                b,
                spec_max_moves(difficulty),
                player,
            ) {
                let i = choose|i: int|
                    0 <= i < candidate_list(b).len() && i < spec_max_moves(difficulty) && win_place(
                        b,
                        (#[trigger] candidate_list(b)[i]).0,
                        candidate_list(b)[i].1,
                        player,
                    );
                assert(cls[i] == cl[i]);
                assert(i < cls.len());
                assert(results@[i] == 100000);
                if !cut {
                    assert(max_eval >= results@[i]);
                }
            }
        }
        max_eval
    } else {
        let ghost pv = par_value(b, depth as int, alpha as int, beta as int, false, player, opponent, difficulty);
        proof {
            assert(pv == par_merge_min(
                b,
                cls,
                0,
                beta as int,
                100000,
                alpha as int,
                beta as int,
                depth as int,
                player,
                opponent,
                difficulty,
            ));
        }
        let mut min_eval: i32 = WIN_SCORE;
        let mut bt: i32 = beta;
        let mut idx: usize = 0;
        let mut cut = false;
        while idx < results.len() && !cut
            invariant
                idx <= results@.len(),
                results@.len() == cls.len(),
                depth >= 1,
                b == bview(board),
                cl == candidate_list(b),
                cl.len() > 0,
                cls == capped(cl, spec_max_moves(difficulty)),
                pv == par_value(b, depth as int, alpha as int, beta as int, false, player, opponent, difficulty),
                -BOARD_SCORE_MAX <= min_eval <= BOARD_SCORE_MAX,
                forall|i: int|
                    0 <= i < results@.len() ==> #[trigger] results@[i] as int == par_child_value(
                        b,
                        cls[i].0,
                        cls[i].1,
                        depth as int,
                        alpha as int,
                        beta as int,
                        false,
                        player,
                        opponent,
                        difficulty,
                    ) && -BOARD_SCORE_MAX <= results@[i] <= BOARD_SCORE_MAX,
                !cut ==> par_merge_min(
                    b,
                    cls,
                    idx as int,
                    bt as int,
                    min_eval as int,
                    alpha as int,
                    beta as int,
                    depth as int,
                    player,
                    opponent,
                    difficulty,
                ) == pv,
                cut ==> min_eval == pv,
                beta == WIN_SCORE ==> bt == min_eval,
                cut ==> bt <= alpha,
                !cut ==> forall|i: int| 0 <= i < idx ==> min_eval <= #[trigger] results@[i],
            decreases results@.len() - idx,
        {
            let eval = results[idx];
            let ghost bt0 = bt as int;
            let ghost min0 = min_eval as int;
            if eval < min_eval {
                min_eval = eval;
            }
            if eval < bt {
                bt = eval;
            }
            proof {
                assert(par_merge_min(
                    b,
                    cls,
                    idx as int,
                    bt0,
                    min0,
                    alpha as int,
                    beta as int,
                    depth as int,
                    player,
                    opponent,
                    difficulty,
                ) == (if bt as int <= alpha as int {
                    min_eval as int
                } else {
                    par_merge_min(
                        b,
                        cls,
                        idx as int + 1,
                        bt as int,
                        min_eval as int,
                        alpha as int,
                        beta as int,
                        depth as int,
                        player,
                        opponent,
                        difficulty,
                    )
                }));
            }
            if bt <= alpha {
                cut = true;
            }
            idx = idx + 1;
        }
        proof {
            if !cut {
                assert(par_merge_min(
                    b,
                    cls,
                    cls.len() as int,
                    bt as int,
                    min_eval as int,
                    alpha as int,
                    beta as int,
                    depth as int,
                    player,
                    opponent,
                    difficulty,
                ) == min_eval);
            }
            if alpha == LOSE_SCORE && beta == WIN_SCORE && winning_candidate(
                b,
                spec_max_moves(difficulty),
                opponent,
            ) {
                let i = choose|i: int|
                    0 <= i < candidate_list(b).len() && i < spec_max_moves(difficulty) && win_place(
                        b,
                        (#[trigger] candidate_list(b)[i]).0,
                        candidate_list(b)[i].1,
                        opponent,
                    );
                assert(cls[i] == cl[i]);
                assert(i < cls.len());
                assert(results@[i] == -100000);
                if !cut {
                    assert(min_eval <= results@[i]);
                }
            }
        }
        min_eval
    }
}

} // verus!

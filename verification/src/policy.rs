//! The decision pipeline: an ordered chain of layers, the first of which to
//! produce a move wins. Opening moves come first, then the immediate win and
//! immediate block scans, then the threat balance over every empty cell, and
//! last a capped shallow search that is unreachable while an empty cell
//! remains but is kept to preserve the pipeline's full layer order.

use vstd::prelude::*;
use crate::board::{bview, board_ok, center_dist, clone_board, in_board, place, cell_at,
    count_moves, is_valid_position, lemma_all_empty_no_stones, lemma_empty_cell_not_full,
    lemma_no_empty_full, lemma_no_stones_all_empty, lemma_place_restore, lemma_two_stones,
    set_cell, stone_count};
use crate::difficulty::AIDifficulty;
use crate::eval::{axis_blocked, axis_count, board_score, evaluate_board, ray_len, ray_open,
    BOARD_SCORE_MAX, LOSE_SCORE, WIN_SCORE};
use crate::moves::{dist7, get_possible_moves};
use crate::search::simple_minimax;
use crate::win::{check_win, lemma_axis_five_gives_window, lemma_line_injective, lemma_run_at_least,
    lemma_run_cells, line_c, line_r, stride, win_at, win_place};

verus! {

/// A chosen move: the cell and the heuristic or search value that chose it.
#[derive(Debug, Clone, Copy, PartialEq, Eq, Structural)]
pub struct MoveResult {
    pub row: usize,
    pub col: usize,
    pub score: i32,
}

/// Row-major scan for the first cell where `p` would complete five, from
/// (r, c) onward.
pub open spec fn first_win_from(b: Seq<Seq<i32>>, p: i32, r: int, c: int) -> Option<(int, int)>
    decreases 15 - r, 15 - c,
{
    if r < 0 || c < 0 || r >= 15 {
        None
    } else if c >= 15 {
        first_win_from(b, p, r + 1, 0)
    } else if win_place(b, r, c, p) {
        Some((r, c))
    } else {
        first_win_from(b, p, r, c + 1)
    }
}

/// The first cell where `p` would complete five, if any.
pub open spec fn first_win(b: Seq<Seq<i32>>, p: i32) -> Option<(int, int)> {
    first_win_from(b, p, 0, 0)
}

/// Row-major scan for the first occupied cell, from (r, c) onward.
pub open spec fn first_stone_from(b: Seq<Seq<i32>>, r: int, c: int) -> Option<(int, int)>
    decreases 15 - r, 15 - c,
{
    if r < 0 || c < 0 || r >= 15 {
        None
    } else if c >= 15 {
        first_stone_from(b, r + 1, 0)
    } else if b[r][c] != 0 {
        Some((r, c))
    } else {
        first_stone_from(b, r, c + 1)
    }
}

/// The first occupied cell in row-major order, if any.
pub open spec fn first_stone(b: Seq<Seq<i32>>) -> Option<(int, int)> {
    first_stone_from(b, 0, 0)
}

/// The eight neighbor offsets in the opening layer's fixed enumeration
/// order: up-left, up, up-right, left, right, down-left, down, down-right.
pub open spec fn nbr_off(k: int) -> (int, int) {
    if k == 0 {
        (-1, -1)
    } else if k == 1 {
        (-1, 0)
    } else if k == 2 {
        (-1, 1)
    } else if k == 3 {
        (0, -1)
    } else if k == 4 {
        (0, 1)
    } else if k == 5 {
        (1, -1)
    } else if k == 6 {
        (1, 0)
    } else {
        (1, 1)
    }
}

/// Scan of the eight neighbors of (sr, sc) from offset `k` on, keeping the
/// empty valid neighbor strictly nearest the center; earlier offsets win
/// ties. The accumulator carries (row, col, center distance).
pub open spec fn scan_open(
    b: Seq<Seq<i32>>,
    sr: int,
    sc: int,
    k: int,
    cur: Option<(int, int, int)>,
) -> Option<(int, int, int)>
    decreases 8 - k,
{
    if k < 0 || k >= 8 {
        cur
    } else {
        let rr = sr + nbr_off(k).0;
        let cc = sc + nbr_off(k).1;
        let take = in_board(rr, cc) && b[rr][cc] == 0 && (match cur {
            Option::None => true,
            Option::Some(t) => center_dist(rr, cc) < t.2,
        });
        let cur2 = if take {
            Some((rr, cc, center_dist(rr, cc)))
        } else {
            cur
        };
        scan_open(b, sr, sc, k + 1, cur2)
    }
}

/// The opening layer's reply to a lone stone at (sr, sc).
pub open spec fn opening_pick(b: Seq<Seq<i32>>, sr: int, sc: int) -> Option<(int, int, int)> {
    scan_open(b, sr, sc, 0, None)
}

/// The post-move board score for `p` if `p` takes the empty cell (r, c).
pub open spec fn atk(b: Seq<Seq<i32>>, p: i32, r: int, c: int) -> int {
    board_score(place(b, r, c, p), p)
}

/// Row-major scan over the empty cells keeping the last cell whose threat
/// score for `p` is maximal (later equal scores replace earlier ones). The
/// accumulator carries (row, col, score).
pub open spec fn scan_last(
    b: Seq<Seq<i32>>,
    p: i32,
    r: int,
    c: int,
    cur: Option<(int, int, int)>,
) -> Option<(int, int, int)>
    decreases 15 - r, 15 - c,
{
    if r < 0 || c < 0 || r >= 15 {
        cur
    } else if c >= 15 {
        scan_last(b, p, r + 1, 0, cur)
    } else {
        let take = b[r][c] == 0 && (match cur {
            Option::None => true,
            Option::Some(t) => atk(b, p, r, c) >= t.2,
        });
        let cur2 = if take {
            Some((r, c, atk(b, p, r, c)))
        } else {
            cur
        };
        scan_last(b, p, r, c + 1, cur2)
    }
}

/// The cell the defensive and offensive branches play for player `p`.
pub open spec fn threat_pick(b: Seq<Seq<i32>>, p: i32) -> Option<(int, int, int)> {
    scan_last(b, p, 0, 0, None)
}

/// The best threat score `p` can reach in one move, 0 with no empty cell.
pub open spec fn max_threat(b: Seq<Seq<i32>>, p: i32) -> int {
    match threat_pick(b, p) {
        Option::None => 0,
        Option::Some(t) => t.2,
    }
}

/// Row-major scan over the empty cells keeping the first cell maximizing
/// the mover's threat minus the opponent's (strict improvement replaces).
pub open spec fn scan_diff(
    b: Seq<Seq<i32>>,
    ai: i32,
    hu: i32,
    r: int,
    c: int,
    cur: Option<(int, int, int)>,
) -> Option<(int, int, int)>
    decreases 15 - r, 15 - c,
{
    if r < 0 || c < 0 || r >= 15 {
        cur
    } else if c >= 15 {
        scan_diff(b, ai, hu, r + 1, 0, cur)
    } else {
        let d = atk(b, ai, r, c) - atk(b, hu, r, c);
        let take = b[r][c] == 0 && (match cur {
            Option::None => true,
            Option::Some(t) => d > t.2,
        });
        let cur2 = if take {
            Some((r, c, d))
        } else {
            cur
        };
        scan_diff(b, ai, hu, r, c + 1, cur2)
    }
}

/// The balanced layer's pick: first maximizer of (mover - opponent) threat.
pub open spec fn balance_pick(b: Seq<Seq<i32>>, ai: i32, hu: i32) -> Option<(int, int, int)> {
    scan_diff(b, ai, hu, 0, 0, None)
}

/// What the decision pipeline promises of its result, layer by layer.
pub open spec fn decision_ok(b: Seq<Seq<i32>>, ai: i32, hu: i32, r: Option<MoveResult>) -> bool {
    &&& (stone_count(b) == 0 ==> r == Some(MoveResult { row: 7, col: 7, score: 10000 }))
    &&& (stone_count(b) == 1 ==> (first_stone(b) matches Some(fs) && (opening_pick(b, fs.0, fs.1)
        matches Some(t) && r == Some(
        MoveResult { row: t.0 as usize, col: t.1 as usize, score: 8000 },
    ))))
    &&& (stone_count(b) >= 2 ==> (first_win(b, ai) matches Some(w) ==> r == Some(
        MoveResult { row: w.0 as usize, col: w.1 as usize, score: 100000 },
    )))
    &&& (stone_count(b) >= 2 && first_win(b, ai) is None ==> (first_win(b, hu) matches Some(w)
        ==> r == Some(MoveResult { row: w.0 as usize, col: w.1 as usize, score: 99999 })))
    &&& (stone_count(b) >= 2 && first_win(b, ai) is None && first_win(b, hu) is None ==> {
        if max_threat(b, hu) > 5000 {
            threat_pick(b, hu) matches Some(t) && r == Some(
                MoveResult { row: t.0 as usize, col: t.1 as usize, score: t.2 as i32 },
            )
        } else if max_threat(b, ai) > 1000 && max_threat(b, ai) > max_threat(b, hu) {
            threat_pick(b, ai) matches Some(t) && r == Some(
                MoveResult { row: t.0 as usize, col: t.1 as usize, score: t.2 as i32 },
            )
        } else if stone_count(b) < 225 {
            balance_pick(b, ai, hu) matches Some(t) && r == Some(
                MoveResult { row: t.0 as usize, col: t.1 as usize, score: t.2 as i32 },
            )
        } else {
            r is None
        }
    })
    &&& (r is Some <==> stone_count(b) < 225)
}

/// A `None` neighbor scan means no valid empty neighbor remained.
proof fn lemma_scan_open_none(b: Seq<Seq<i32>>, sr: int, sc: int, k: int, cur: Option<(int, int, int)>)
    requires
        0 <= k <= 8,
        scan_open(b, sr, sc, k, cur) is None,
    ensures
        cur is None,
        forall|kk: int|
            k <= kk < 8 ==> !(in_board(sr + (#[trigger] nbr_off(kk)).0, sc + nbr_off(kk).1) && b[sr
                + nbr_off(kk).0][sc + nbr_off(kk).1] == 0),
    decreases 8 - k,
{
    if k < 8 {
        let rr = sr + nbr_off(k).0;
        let cc = sc + nbr_off(k).1;
        let take = in_board(rr, cc) && b[rr][cc] == 0 && (match cur {
            Option::None => true,
            Option::Some(t) => center_dist(rr, cc) < t.2,
        });
        let cur2 = if take {
            Some((rr, cc, center_dist(rr, cc)))
        } else {
            cur
        };
        lemma_scan_open_none(b, sr, sc, k + 1, cur2);
        assert(!take);
    }
}

/// A lone stone always has a valid empty neighbor, so the opening scan
/// returns one.
proof fn lemma_opening_pick_some(b: Seq<Seq<i32>>, sr: int, sc: int)
    requires
        board_ok(b),
        in_board(sr, sc),
        forall|r: int, c: int|
            in_board(r, c) && (r, c) != (sr, sc) ==> #[trigger] b[r][c] == 0,
    ensures
        opening_pick(b, sr, sc) is Some,
{
    if opening_pick(b, sr, sc) is None {
        lemma_scan_open_none(b, sr, sc, 0, None);
        if sc >= 1 {
            assert(nbr_off(3) == (0int, -1int));
            assert(in_board(sr + nbr_off(3).0, sc + nbr_off(3).1));
            assert(b[sr][sc - 1] == 0);
            assert(false);
        } else {
            assert(nbr_off(4) == (0int, 1int));
            assert(in_board(sr + nbr_off(4).0, sc + nbr_off(4).1));
            assert(b[sr][sc + 1] == 0);
            assert(false);
        }
    }
}

/// A `None` balance scan means no empty cell remained at or after (r, c).
proof fn lemma_scan_diff_none(
    b: Seq<Seq<i32>>,
    ai: i32,
    hu: i32,
    r: int,
    c: int,
    cur: Option<(int, int, int)>,
)
    requires
        0 <= r <= 15,
        0 <= c <= 15,
        scan_diff(b, ai, hu, r, c, cur) is None,
    ensures
        cur is None,
        forall|rr: int, cc: int|
            in_board(rr, cc) && (rr > r || (rr == r && cc >= c)) ==> #[trigger] b[rr][cc] != 0,
    decreases 15 - r, 16 - c,
{
    if r < 15 {
        if c >= 15 {
            lemma_scan_diff_none(b, ai, hu, r + 1, 0, cur);
        } else {
            let d = atk(b, ai, r, c) - atk(b, hu, r, c);
            let take = b[r][c] == 0 && (match cur {
                Option::None => true,
                Option::Some(t) => d > t.2,
            });
            let cur2 = if take {
                Some((r, c, d))
            } else {
                cur
            };
            lemma_scan_diff_none(b, ai, hu, r, c + 1, cur2);
            assert(!take);
            assert(b[r][c] != 0);
        }
    }
}

/// A `None` win scan means no cell at or after (r, c) completes five.
proof fn lemma_first_win_none(b: Seq<Seq<i32>>, p: i32, r: int, c: int)
    requires
        0 <= r <= 15,
        0 <= c <= 15,
        first_win_from(b, p, r, c) is None,
    ensures
        forall|rr: int, cc: int|
            in_board(rr, cc) && (rr > r || (rr == r && cc >= c)) ==> !win_place(b, rr, cc, p),
    decreases 15 - r, 16 - c,
{
    if r < 15 {
        if c >= 15 {
            lemma_first_win_none(b, p, r + 1, 0);
        } else {
            lemma_first_win_none(b, p, r, c + 1);
            assert(!win_place(b, r, c, p));
        }
    }
}

/// A `Some` win scan names a cell that does complete five.
proof fn lemma_first_win_is_win(b: Seq<Seq<i32>>, p: i32, r: int, c: int, w: (int, int))
    requires
        0 <= r <= 15,
        0 <= c <= 15,
        first_win_from(b, p, r, c) == Some(w),
    ensures
        win_place(b, w.0, w.1, p),
    decreases 15 - r, 16 - c,
{
    if r < 15 {
        if c >= 15 {
            lemma_first_win_is_win(b, p, r + 1, 0, w);
        } else if win_place(b, r, c, p) {
        } else {
            lemma_first_win_is_win(b, p, r, c + 1, w);
        }
    }
}

/// A `None` stone scan means no stone at or after (r, c).
proof fn lemma_first_stone_none(b: Seq<Seq<i32>>, r: int, c: int)
    requires
        0 <= r <= 15,
        0 <= c <= 15,
        first_stone_from(b, r, c) is None,
    ensures
        forall|rr: int, cc: int|
            in_board(rr, cc) && (rr > r || (rr == r && cc >= c)) ==> #[trigger] b[rr][cc] == 0,
    decreases 15 - r, 16 - c,
{
    if r < 15 {
        if c >= 15 {
            lemma_first_stone_none(b, r + 1, 0);
        } else {
            lemma_first_stone_none(b, r, c + 1);
            assert(b[r][c] == 0);
        }
    }
}

/// A `Some` stone scan names an occupied board cell.
proof fn lemma_first_stone_is_stone(b: Seq<Seq<i32>>, r: int, c: int, w: (int, int))
    requires
        0 <= r <= 15,
        0 <= c <= 15,
        first_stone_from(b, r, c) == Some(w),
    ensures
        in_board(w.0, w.1),
        b[w.0][w.1] != 0,
    decreases 15 - r, 16 - c,
{
    if r < 15 {
        if c >= 15 {
            lemma_first_stone_is_stone(b, r + 1, 0, w);
        } else if b[r][c] != 0 {
        } else {
            lemma_first_stone_is_stone(b, r, c + 1, w);
        }
    }
}

/// The integers an opening-scan tracker denotes.
pub open spec fn optd_view(o: Option<(usize, usize, u32)>) -> Option<(int, int, int)> {
    match o {
        Option::None => None,
        Option::Some(t) => Some((t.0 as int, t.1 as int, t.2 as int)),
    }
}

/// The integers a threat-scan tracker denotes.
pub open spec fn opt3_view(o: Option<(usize, usize, i32)>) -> Option<(int, int, int)> {
    match o {
        Option::None => None,
        Option::Some(t) => Some((t.0 as int, t.1 as int, t.2 as int)),
    }
}

/// The eight neighbor offsets as executable code, in enumeration order.
fn nbr_off_at(k: usize) -> (o: (i32, i32))
    requires
        k < 8,
    ensures
        o.0 == nbr_off(k as int).0,
        o.1 == nbr_off(k as int).1,
        -1 <= o.0 <= 1,
        -1 <= o.1 <= 1,
{
    match k {
        0 => (-1, -1),
        1 => (-1, 0),
        2 => (-1, 1),
        3 => (0, -1),
        4 => (0, 1),
        5 => (1, -1),
        6 => (1, 0),
        _ => (1, 1),
    }
}

/// Scans the board row-major for the first empty cell where placing a
/// `p`-stone completes five in a row, restoring the scratch board.
fn find_win_cell(work: &mut Vec<Vec<i32>>, p: i32) -> (res: Option<(usize, usize)>)
    requires
        board_ok(bview(old(work))),
    ensures
        board_ok(bview(final(work))),
        bview(final(work)) == bview(old(work)),
        match res {
            Option::Some(e) => e.0 < 15 && e.1 < 15 && first_win(bview(old(work)), p) == Some(
                (e.0 as int, e.1 as int),
            ),
            Option::None => first_win(bview(old(work)), p) is None,
        },
{
    let ghost b0 = bview(work);
    let mut r: usize = 0;
    while r < 15
        invariant
            board_ok(bview(work)),
            bview(work) == b0,
            b0 == bview(old(work)),
            r <= 15,
            first_win_from(b0, p, r as int, 0) == first_win(b0, p),
        decreases 15 - r,
    {
        let mut c: usize = 0;
        while c < 15
            invariant
                board_ok(bview(work)),
                bview(work) == b0,
                b0 == bview(old(work)),
                r < 15,
                c <= 15,
                first_win_from(b0, p, r as int, c as int) == first_win(b0, p),
            decreases 15 - c,
        {
            if cell_at(&*work, r, c) == 0 {
                set_cell(work, r, c, p);
                let won = check_win(&*work, r, c);
                set_cell(work, r, c, 0);
                proof {
                    lemma_place_restore(b0, r as int, c as int, p);
                }
                if won {
                    proof {
                        assert(win_place(b0, r as int, c as int, p));
                        assert(first_win_from(b0, p, r as int, c as int) == Some(
                            (r as int, c as int),
                        ));
                    }
                    return Some((r, c));
                }
                proof {
                    assert(!win_place(b0, r as int, c as int, p));
                }
            }
            proof {
                assert(first_win_from(b0, p, r as int, c as int) == first_win_from(
                    b0,
                    p,
                    r as int,
                    c as int + 1,
                ));
            }
            c = c + 1;
        }
        proof {
            assert(first_win_from(b0, p, r as int, 15) == first_win_from(b0, p, r as int + 1, 0));
        }
        r = r + 1;
    }
    proof {
        assert(first_win_from(b0, p, 15, 0) is None);
    }
    None
}

/// Chooses the move for `ai_player` by the layered policy: the fixed opening
/// replies, then an immediate win, then an immediate block, then the threat
/// balance over every empty cell, and last the capped shallow search, which
/// no board with an empty cell reaches. Returns `None` only on a full board.
pub fn get_best_move_with_difficulty(
    board: &Vec<Vec<i32>>,
    ai_player: i32,
    human_player: i32,
    difficulty: AIDifficulty,
) -> (r: Option<MoveResult>)
    requires
        board_ok(bview(board)),
        ai_player != 0,
        human_player != 0,
    ensures
        decision_ok(bview(board), ai_player, human_player, r),
{
    let ghost b = bview(board);
    let move_count = count_moves(board);

    // Opening, move 0: an empty board gets the center.
    if move_count == 0 {
        proof {
            lemma_no_stones_all_empty(b);
        }
        if cell_at(board, 7, 7) == 0 {
            return Some(MoveResult { row: 7, col: 7, score: 10000 });
        }
        proof {
            // the center of an empty board is always empty
            assert(in_board(7, 7));
            assert(b[7][7] == 0);
            assert(false);
        }
    }

    // Opening, move 1: reply next to the lone stone, nearest the center.
    if move_count == 1 {
        let mut sr: usize = 0;
        let mut sc: usize = 0;
        let mut found = false;
        let mut fr: usize = 0;
        while fr < 15
            invariant
                board_ok(b),
                b == bview(board),
                fr <= 15,
                found ==> sr < 15 && sc < 15 && b[sr as int][sc as int] != 0,
                !found ==> forall|rr: int, cc: int|
                    0 <= rr < fr && 0 <= cc < 15 ==> #[trigger] b[rr][cc] == 0,
            decreases 15 - fr,
        {
            let mut fc: usize = 0;
            while fc < 15
                invariant
                    board_ok(b),
                    b == bview(board),
                    fr < 15,
                    fc <= 15,
                    found ==> sr < 15 && sc < 15 && b[sr as int][sc as int] != 0,
                    !found ==> forall|rr: int, cc: int|
                        0 <= rr < fr && 0 <= cc < 15 ==> #[trigger] b[rr][cc] == 0,
                    !found ==> forall|cc: int| 0 <= cc < fc ==> #[trigger] b[fr as int][cc] == 0,
                decreases 15 - fc,
            {
                if cell_at(board, fr, fc) != 0 {
                    sr = fr;
                    sc = fc;
                    found = true;
                }
                fc = fc + 1;
            }
            fr = fr + 1;
        }
        if !found {
            proof {
                lemma_all_empty_no_stones(b);
                assert(false);
            }
        }
        proof {
            // the lone stone leaves every other cell empty
            assert forall|rr: int, cc: int|
                in_board(rr, cc) && (rr, cc) != (sr as int, sc as int) implies #[trigger] b[rr][cc]
                == 0 by {
                if b[rr][cc] != 0 {
                    lemma_two_stones(b, sr as int, sc as int, rr, cc);
                }
            }
            if first_stone(b) is None {
                lemma_first_stone_none(b, 0, 0);
                assert(false);
            }
            if let Some(fs) = first_stone(b) {
                lemma_first_stone_is_stone(b, 0, 0, fs);
                assert(fs == (sr as int, sc as int));
            }
        }
        let mut best: Option<(usize, usize, u32)> = None;
        let mut k: usize = 0;
        while k < 8
            invariant
                board_ok(b),
                b == bview(board),
                sr < 15,
                sc < 15,
                k <= 8,
                scan_open(b, sr as int, sc as int, k as int, optd_view(best)) == opening_pick(
                    b,
                    sr as int,
                    sc as int,
                ),
                best matches Some(e) ==> e.0 < 15 && e.1 < 15,
            decreases 8 - k,
        {
            let ghost prev = optd_view(best);
            let (dr, dc) = nbr_off_at(k);
            let rr = sr as i32 + dr;
            let cc = sc as i32 + dc;
            if is_valid_position(rr, cc) {
                if cell_at(board, rr as usize, cc as usize) == 0 {
                    let dist = dist7(rr as usize) + dist7(cc as usize);
                    proof {
                        assert(dist == center_dist(rr as int, cc as int));
                    }
                    let take = match best {
                        Option::None => true,
                        Option::Some(e) => dist < e.2,
                    };
                    if take {
                        best = Some((rr as usize, cc as usize, dist));
                    }
                }
            }
            proof {
                assert(scan_open(b, sr as int, sc as int, k as int, prev) == scan_open(
                    b,
                    sr as int,
                    sc as int,
                    k as int + 1,
                    optd_view(best),
                ));
            }
            k = k + 1;
        }
        proof {
            assert(opening_pick(b, sr as int, sc as int) == optd_view(best));
        }
        match best {
            Option::Some(e) => {
                return Some(MoveResult { row: e.0, col: e.1, score: 8000 });
            },
            Option::None => {
                proof {
                    lemma_opening_pick_some(b, sr as int, sc as int);
                    assert(false);
                }
            },
        }
    }

    let mut work = clone_board(board);

    // Immediate win: any empty cell completing five for the mover.
    let ai_win = find_win_cell(&mut work, ai_player);
    if let Some(w) = ai_win {
        proof {
            lemma_first_win_is_win(b, ai_player, 0, 0, (w.0 as int, w.1 as int));
            lemma_empty_cell_not_full(b, w.0 as int, w.1 as int);
        }
        return Some(MoveResult { row: w.0, col: w.1, score: WIN_SCORE });
    }

    // Immediate block: any empty cell completing five for the opponent.
    let hu_win = find_win_cell(&mut work, human_player);
    if let Some(w) = hu_win {
        proof {
            lemma_first_win_is_win(b, human_player, 0, 0, (w.0 as int, w.1 as int));
            lemma_empty_cell_not_full(b, w.0 as int, w.1 as int);
        }
        return Some(MoveResult { row: w.0, col: w.1, score: WIN_SCORE - 1 });
    }

    // Threat balance: score every empty cell for both sides in one pass.
    let mut cur_d: Option<(usize, usize, i32)> = None;
    let mut cur_o: Option<(usize, usize, i32)> = None;
    let mut cur_b: Option<(usize, usize, i32)> = None;
    let mut tr: usize = 0;
    while tr < 15
        invariant
            board_ok(b),
            b == bview(board),
            board_ok(bview(&work)),
            bview(&work) == b,
            tr <= 15,
            scan_last(b, human_player, tr as int, 0, opt3_view(cur_d)) == threat_pick(
                b,
                human_player,
            ),
            scan_last(b, ai_player, tr as int, 0, opt3_view(cur_o)) == threat_pick(b, ai_player),
            scan_diff(b, ai_player, human_player, tr as int, 0, opt3_view(cur_b)) == balance_pick(
                b,
                ai_player,
                human_player,
            ),
            cur_d matches Some(t) ==> t.0 < 15 && t.1 < 15 && b[t.0 as int][t.1 as int] == 0,
            cur_o matches Some(t) ==> t.0 < 15 && t.1 < 15 && b[t.0 as int][t.1 as int] == 0,
            cur_b matches Some(t) ==> t.0 < 15 && t.1 < 15 && b[t.0 as int][t.1 as int] == 0,
        decreases 15 - tr,
    {
        let mut tc: usize = 0;
        while tc < 15
            invariant
                board_ok(b),
                b == bview(board),
                board_ok(bview(&work)),
                bview(&work) == b,
                tr < 15,
                tc <= 15,
                scan_last(b, human_player, tr as int, tc as int, opt3_view(cur_d)) == threat_pick(
                    b,
                    human_player,
                ),
                scan_last(b, ai_player, tr as int, tc as int, opt3_view(cur_o)) == threat_pick(
                    b,
                    ai_player,
                ),
                scan_diff(b, ai_player, human_player, tr as int, tc as int, opt3_view(cur_b))
                    == balance_pick(b, ai_player, human_player),
                cur_d matches Some(t) ==> t.0 < 15 && t.1 < 15 && b[t.0 as int][t.1 as int] == 0,
                cur_o matches Some(t) ==> t.0 < 15 && t.1 < 15 && b[t.0 as int][t.1 as int] == 0,
                cur_b matches Some(t) ==> t.0 < 15 && t.1 < 15 && b[t.0 as int][t.1 as int] == 0,
            decreases 15 - tc,
        {
            let ghost pd = opt3_view(cur_d);
            let ghost po = opt3_view(cur_o);
            let ghost pb = opt3_view(cur_b);
            if cell_at(board, tr, tc) == 0 {
                set_cell(&mut work, tr, tc, ai_player);
                let ai_score = evaluate_board(&work, ai_player);
                set_cell(&mut work, tr, tc, 0);
                proof {
                    lemma_place_restore(b, tr as int, tc as int, ai_player);
                }
                set_cell(&mut work, tr, tc, human_player);
                let human_score = evaluate_board(&work, human_player);
                set_cell(&mut work, tr, tc, 0);
                proof {
                    lemma_place_restore(b, tr as int, tc as int, human_player);
                    assert(ai_score == atk(b, ai_player, tr as int, tc as int));
                    assert(human_score == atk(b, human_player, tr as int, tc as int));
                }
                let dtake = match cur_d {
                    Option::None => true,
                    Option::Some(t) => human_score >= t.2,
                };
                if dtake {
                    cur_d = Some((tr, tc, human_score));
                }
                let otake = match cur_o {
                    Option::None => true,
                    Option::Some(t) => ai_score >= t.2,
                };
                if otake {
                    cur_o = Some((tr, tc, ai_score));
                }
                let diff = ai_score - human_score;
                let btake = match cur_b {
                    Option::None => true,
                    Option::Some(t) => diff > t.2,
                };
                if btake {
                    cur_b = Some((tr, tc, diff));
                }
            }
            proof {
                assert(scan_last(b, human_player, tr as int, tc as int, pd) == scan_last(
                    b,
                    human_player,
                    tr as int,
                    tc as int + 1,
                    opt3_view(cur_d),
                ));
                assert(scan_last(b, ai_player, tr as int, tc as int, po) == scan_last(
                    b,
                    ai_player,
                    tr as int,
                    tc as int + 1,
                    opt3_view(cur_o),
                ));
                assert(scan_diff(b, ai_player, human_player, tr as int, tc as int, pb)
                    == scan_diff(
                    b,
                    ai_player,
                    human_player,
                    tr as int,
                    tc as int + 1,
                    opt3_view(cur_b),
                ));
            }
            tc = tc + 1;
        }
        proof {
            assert(scan_last(b, human_player, tr as int, 15, opt3_view(cur_d)) == scan_last(
                b,
                human_player,
                tr as int + 1,
                0,
                opt3_view(cur_d),
            ));
            assert(scan_last(b, ai_player, tr as int, 15, opt3_view(cur_o)) == scan_last(
                b,
                ai_player,
                tr as int + 1,
                0,
                opt3_view(cur_o),
            ));
            assert(scan_diff(b, ai_player, human_player, tr as int, 15, opt3_view(cur_b))
                == scan_diff(b, ai_player, human_player, tr as int + 1, 0, opt3_view(cur_b)));
        }
        tr = tr + 1;
    }
    proof {
        assert(threat_pick(b, human_player) == opt3_view(cur_d));
        assert(threat_pick(b, ai_player) == opt3_view(cur_o));
        assert(balance_pick(b, ai_player, human_player) == opt3_view(cur_b));
    }
    let max_human_threat: i32 = match cur_d {
        Option::None => 0,
        Option::Some(t) => t.2,
    };
    let max_ai_threat: i32 = match cur_o {
        Option::None => 0,
        Option::Some(t) => t.2,
    };
    if max_human_threat > 5000 {
        // The opponent threatens too much: defend on their best cell.
        match cur_d {
            Option::Some(t) => {
                proof {
                    lemma_empty_cell_not_full(b, t.0 as int, t.1 as int);
                }
                return Some(MoveResult { row: t.0, col: t.1, score: t.2 });
            },
            Option::None => {
                proof {
                    assert(false);
                }
            },
        }
    } else if max_ai_threat > 1000 && max_ai_threat > max_human_threat {
        // The mover has the stronger prospect: attack on its best cell.
        match cur_o {
            Option::Some(t) => {
                proof {
                    lemma_empty_cell_not_full(b, t.0 as int, t.1 as int);
                }
                return Some(MoveResult { row: t.0, col: t.1, score: t.2 });
            },
            Option::None => {
                proof {
                    assert(false);
                }
            },
        }
    } else {
        // Balanced: the first cell maximizing (mover - opponent) threat.
        match cur_b {
            Option::Some(t) => {
                proof {
                    lemma_empty_cell_not_full(b, t.0 as int, t.1 as int);
                }
                return Some(MoveResult { row: t.0, col: t.1, score: t.2 });
            },
            Option::None => {},
        }
    }

    // No empty cell remained, so the board is full; the search fallback is
    // kept to preserve the pipeline's layer order, but no board with an
    // empty cell reaches it.
    proof {
        lemma_scan_diff_none(b, ai_player, human_player, 0, 0, None);
        assert forall|rr: int, cc: int| in_board(rr, cc) implies #[trigger] b[rr][cc] != 0 by {
            assert(rr > 0 || (rr == 0 && cc >= 0));
        }
        lemma_no_empty_full(b);
    }
    let moves = get_possible_moves(board);
    if moves.len() == 0 {
        return None;
    }
    proof {
        assert(in_board(moves@[0].0 as int, moves@[0].1 as int) && b[moves@[0].0 as int][moves@[0].1 as int]
            == 0);
        assert(false);
    }
    let max_moves_cap = difficulty.get_max_moves();
    let mut search_moves = moves;
    if search_moves.len() > max_moves_cap {
        search_moves.truncate(max_moves_cap);
    }
    proof {
        assert forall|i: int| 0 <= i < search_moves@.len() implies in_board(
            (#[trigger] search_moves@[i]).0 as int,
            search_moves@[i].1 as int,
        ) && b[search_moves@[i].0 as int][search_moves@[i].1 as int] == 0 by {}
    }
    let mut best_move: Option<MoveResult> = None;
    let mut best_score: i32 = LOSE_SCORE;
    let mut idx: usize = 0;
    while idx < search_moves.len()
        invariant
            board_ok(b),
            b == bview(board),
            board_ok(bview(&work)),
            bview(&work) == b,
            idx <= search_moves@.len(),
            -BOARD_SCORE_MAX <= best_score <= BOARD_SCORE_MAX,
            forall|i: int|
                0 <= i < search_moves@.len() ==> in_board(
                    (#[trigger] search_moves@[i]).0 as int,
                    search_moves@[i].1 as int,
                ) && b[search_moves@[i].0 as int][search_moves@[i].1 as int] == 0,
        decreases search_moves@.len() - idx,
    {
        let (row, col) = search_moves[idx];
        set_cell(&mut work, row, col, ai_player);
        let mut score = evaluate_board(&work, ai_player);
        if difficulty != AIDifficulty::Easy {
            score = simple_minimax(&work, difficulty.get_max_depth(), ai_player, human_player);
        }
        set_cell(&mut work, row, col, 0);
        proof {
            lemma_place_restore(b, row as int, col as int, ai_player);
        }
        let take = match best_move {
            Option::None => true,
            Option::Some(_) => score > best_score,
        };
        if take {
            best_score = score;
            best_move = Some(MoveResult { row, col, score });
        }
        idx = idx + 1;
    }
    best_move
}

/// Chooses the move for `ai_player` at the hardest difficulty.
pub fn get_best_move(board: &Vec<Vec<i32>>, ai_player: i32, human_player: i32) -> (r: Option<
    MoveResult,
>)
    requires
        board_ok(bview(board)),
        ai_player != 0,
        human_player != 0,
    ensures
        decision_ok(bview(board), ai_player, human_player, r),
{
    get_best_move_with_difficulty(board, ai_player, human_player, AIDifficulty::Hard)
}

/// A completable five for the mover is always taken, even when a block is
/// also available elsewhere: the win scan precedes the block scan.
pub proof fn lemma_win_precedes_block(b: Seq<Seq<i32>>, ai: i32, hu: i32, r: Option<MoveResult>)
    requires
        board_ok(b),
        decision_ok(b, ai, hu, r),
        stone_count(b) >= 2,
        exists|rr: int, cc: int| #[trigger] win_place(b, rr, cc, ai),
    ensures
        r matches Some(m) && win_place(b, m.row as int, m.col as int, ai) && m.score == 100000,
{
    if first_win(b, ai) is None {
        lemma_first_win_none(b, ai, 0, 0);
        let (rr, cc) = choose|rr: int, cc: int| #[trigger] win_place(b, rr, cc, ai);
        assert(in_board(rr, cc));
        assert(rr > 0 || (rr == 0 && cc >= 0));
        assert(false);
    }
    if let Some(w) = first_win(b, ai) {
        lemma_first_win_is_win(b, ai, 0, 0, w);
    }
}

/// A `Some` neighbor scan names an empty board cell one step from the stone,
/// unless it only hands its accumulator through.
proof fn lemma_scan_open_some(
    b: Seq<Seq<i32>>,
    sr: int,
    sc: int,
    k: int,
    cur: Option<(int, int, int)>,
    t: (int, int, int),
)
    requires
        0 <= k <= 8,
        scan_open(b, sr, sc, k, cur) == Some(t),
    ensures
        cur == Some(t) || (in_board(t.0, t.1) && b[t.0][t.1] == 0 && exists|kk: int|
            k <= kk < 8 && t.0 == sr + (#[trigger] nbr_off(kk)).0 && t.1 == sc + nbr_off(kk).1),
    decreases 8 - k,
{
    if k < 8 {
        let rr = sr + nbr_off(k).0;
        let cc = sc + nbr_off(k).1;
        let take = in_board(rr, cc) && b[rr][cc] == 0 && (match cur {
            Option::None => true,
            Option::Some(t2) => center_dist(rr, cc) < t2.2,
        });
        let cur2 = if take {
            Some((rr, cc, center_dist(rr, cc)))
        } else {
            cur
        };
        lemma_scan_open_some(b, sr, sc, k + 1, cur2, t);
        if cur2 == Some(t) && cur != Some(t) {
            assert(t.0 == sr + nbr_off(k).0 && t.1 == sc + nbr_off(k).1);
        }
    }
}

/// A `Some` threat scan names an empty board cell, unless it only hands its
/// accumulator through.
proof fn lemma_scan_last_some(
    b: Seq<Seq<i32>>,
    p: i32,
    r: int,
    c: int,
    cur: Option<(int, int, int)>,
    t: (int, int, int),
)
    requires
        0 <= r <= 15,
        0 <= c <= 15,
        scan_last(b, p, r, c, cur) == Some(t),
    ensures
        cur == Some(t) || (in_board(t.0, t.1) && b[t.0][t.1] == 0),
    decreases 15 - r, 16 - c,
{
    if r < 15 {
        if c >= 15 {
            lemma_scan_last_some(b, p, r + 1, 0, cur, t);
        } else {
            let take = b[r][c] == 0 && (match cur {
                Option::None => true,
                Option::Some(t2) => atk(b, p, r, c) >= t2.2,
            });
            let cur2 = if take {
                Some((r, c, atk(b, p, r, c)))
            } else {
                cur
            };
            lemma_scan_last_some(b, p, r, c + 1, cur2, t);
        }
    }
}

/// A `Some` balance scan names an empty board cell, unless it only hands its
/// accumulator through.
proof fn lemma_scan_diff_some(
    b: Seq<Seq<i32>>,
    ai: i32,
    hu: i32,
    r: int,
    c: int,
    cur: Option<(int, int, int)>,
    t: (int, int, int),
)
    requires
        0 <= r <= 15,
        0 <= c <= 15,
        scan_diff(b, ai, hu, r, c, cur) == Some(t),
    ensures
        cur == Some(t) || (in_board(t.0, t.1) && b[t.0][t.1] == 0),
    decreases 15 - r, 16 - c,
{
    if r < 15 {
        if c >= 15 {
            lemma_scan_diff_some(b, ai, hu, r + 1, 0, cur, t);
        } else {
            let d = atk(b, ai, r, c) - atk(b, hu, r, c);
            let take = b[r][c] == 0 && (match cur {
                Option::None => true,
                Option::Some(t2) => d > t2.2,
            });
            let cur2 = if take {
                Some((r, c, d))
            } else {
                cur
            };
            lemma_scan_diff_some(b, ai, hu, r, c + 1, cur2, t);
        }
    }
}

/// Whichever layer resolves, the pipeline's move always lands on an empty
/// board cell: the engine never proposes an occupied or off-board position.
pub proof fn lemma_choice_is_legal(b: Seq<Seq<i32>>, ai: i32, hu: i32, r: Option<MoveResult>)
    requires
        board_ok(b),
        decision_ok(b, ai, hu, r),
    ensures
        r matches Some(m) ==> in_board(m.row as int, m.col as int) && b[m.row as int][m.col as int]
            == 0,
{
    crate::board::lemma_stone_count_nonneg(b);
    if let Some(m) = r {
        if stone_count(b) == 0 {
            lemma_no_stones_all_empty(b);
            assert(in_board(7, 7));
        } else if stone_count(b) == 1 {
            if let Some(fs) = first_stone(b) {
                if let Some(t) = opening_pick(b, fs.0, fs.1) {
                    lemma_scan_open_some(b, fs.0, fs.1, 0, None, t);
                }
            }
        } else {
            if let Some(w) = first_win(b, ai) {
                lemma_first_win_is_win(b, ai, 0, 0, w);
            } else if let Some(w) = first_win(b, hu) {
                lemma_first_win_is_win(b, hu, 0, 0, w);
            } else {
                if max_threat(b, hu) > 5000 {
                    if let Some(t) = threat_pick(b, hu) {
                        lemma_scan_last_some(b, hu, 0, 0, None, t);
                    }
                } else if max_threat(b, ai) > 1000 && max_threat(b, ai) > max_threat(b, hu) {
                    if let Some(t) = threat_pick(b, ai) {
                        lemma_scan_last_some(b, ai, 0, 0, None, t);
                    }
                } else {
                    assert(stone_count(b) < 225);
                    if let Some(t) = balance_pick(b, ai, hu) {
                        lemma_scan_diff_some(b, ai, hu, 0, 0, None, t);
                    }
                }
            }
        }
    }
}

/// The reply to a lone stone stands on one of its eight immediate neighbors.
pub proof fn lemma_opening_reply_is_neighbor(b: Seq<Seq<i32>>, ai: i32, hu: i32, r: Option<MoveResult>)
    requires
        board_ok(b),
        decision_ok(b, ai, hu, r),
        stone_count(b) == 1,
    ensures
        r matches Some(m) && (first_stone(b) matches Some(fs) && {
            let dr = m.row as int - fs.0;
            let dc = m.col as int - fs.1;
            &&& -1 <= dr <= 1
            &&& -1 <= dc <= 1
            &&& !(dr == 0 && dc == 0)
            &&& b[m.row as int][m.col as int] == 0
        }),
{
    if let Some(fs) = first_stone(b) {
        if let Some(t) = opening_pick(b, fs.0, fs.1) {
            lemma_scan_open_some(b, fs.0, fs.1, 0, None, t);
            let kk = choose|kk: int|
                0 <= kk < 8 && t.0 == fs.0 + (#[trigger] nbr_off(kk)).0 && t.1 == fs.1 + nbr_off(
                    kk,
                ).1;
            assert(-1 <= nbr_off(kk).0 <= 1 && -1 <= nbr_off(kk).1 <= 1 && !(nbr_off(kk).0 == 0
                && nbr_off(kk).1 == 0));
        }
    }
}

/// An open four — a run of exactly four stones whose two ends are both open
/// — always leaves a cell whose occupation completes five: its forward open
/// end. Together with the block law below, a player facing an opponent's
/// open four therefore always blocks a completing cell (or wins outright).
pub proof fn lemma_open_four_completable(b: Seq<Seq<i32>>, r: int, c: int, d: int, p: i32)
    requires
        board_ok(b),
        in_board(r, c),
        p != 0,
        b[r][c] == p,
        0 <= d < 4,
        axis_count(b, r, c, d, p) == 4,
        axis_blocked(b, r, c, d, p) == 0,
    ensures
        exists|rr: int, cc: int| #[trigger] win_place(b, rr, cc, p),
{
    let nf = ray_len(b, r, c, d, 1, p);
    let nb = ray_len(b, r, c, d, -1, p);
    lemma_run_cells(b, r, c, d, 1, p, 15);
    lemma_run_cells(b, r, c, d, -1, p, 15);
    assert(ray_open(b, r, c, d, 1, p));
    let er = line_r(r, d, stride(1, nf + 1));
    let ec = line_c(c, d, stride(1, nf + 1));
    assert(in_board(er, ec) && b[er][ec] == 0);
    let b2 = place(b, er, ec, p);
    assert forall|x: int, y: int|
        in_board(x, y) && (x, y) != (er, ec) implies #[trigger] b2[x][y] == b[x][y] by {
        if x == er {
            assert(b2[x] == b[er].update(ec, p));
        }
    }
    assert(b2[er][ec] == p);
    assert forall|i: int| 1 <= i <= 4 implies in_board(
        #[trigger] line_r(er, d, stride(-1, i)),
        line_c(ec, d, stride(-1, i)),
    ) && b2[line_r(er, d, stride(-1, i))][line_c(ec, d, stride(-1, i))] == p by {
        let o = nf + 1 - i;
        assert(line_r(er, d, stride(-1, i)) == line_r(r, d, o));
        assert(line_c(ec, d, stride(-1, i)) == line_c(c, d, o));
        if o == 0 {
            assert(line_r(r, d, 0) == r && line_c(c, d, 0) == c);
            if (r, c) == (er, ec) {
                lemma_line_injective(r, c, d, 0, nf + 1);
            }
        } else if o > 0 {
            assert(o <= nf);
            assert(stride(1, o) == o);
            assert(in_board(line_r(r, d, stride(1, o)), line_c(c, d, stride(1, o)))
                && b[line_r(r, d, stride(1, o))][line_c(c, d, stride(1, o))] == p);
            if (line_r(r, d, o), line_c(c, d, o)) == (er, ec) {
                lemma_line_injective(r, c, d, o, nf + 1);
            }
        } else {
            assert(1 <= -o <= nb);
            assert(stride(-1, -o) == o);
            assert(in_board(line_r(r, d, stride(-1, -o)), line_c(c, d, stride(-1, -o)))
                && b[line_r(r, d, stride(-1, -o))][line_c(c, d, stride(-1, -o))] == p);
            if (line_r(r, d, o), line_c(c, d, o)) == (er, ec) {
                lemma_line_injective(r, c, d, o, nf + 1);
            }
        }
    }
    lemma_run_at_least(b2, er, ec, d, -1, p, 4, 4);
    lemma_run_cells(b2, er, ec, d, 1, p, 4);
    lemma_axis_five_gives_window(b2, er, ec, d, p);
    assert(win_place(b, er, ec, p));
}

/// A cell that completes five for the opponent is blocked whenever the mover
/// has no completing cell of its own, regardless of any other scoring.
pub proof fn lemma_block_when_no_win(b: Seq<Seq<i32>>, ai: i32, hu: i32, r: Option<MoveResult>)
    requires
        board_ok(b),
        decision_ok(b, ai, hu, r),
        stone_count(b) >= 2,
        forall|rr: int, cc: int| !(#[trigger] win_place(b, rr, cc, ai)),
        exists|rr: int, cc: int| #[trigger] win_place(b, rr, cc, hu),
    ensures
        r matches Some(m) && win_place(b, m.row as int, m.col as int, hu) && m.score == 99999,
{
    if let Some(w) = first_win(b, ai) {
        lemma_first_win_is_win(b, ai, 0, 0, w);
        assert(false);
    }
    if first_win(b, hu) is None {
        lemma_first_win_none(b, hu, 0, 0);
        let (rr, cc) = choose|rr: int, cc: int| #[trigger] win_place(b, rr, cc, hu);
        assert(in_board(rr, cc));
        assert(rr > 0 || (rr == 0 && cc >= 0));
        assert(false);
    }
    if let Some(w) = first_win(b, hu) {
        lemma_first_win_is_win(b, hu, 0, 0, w);
    }
}

} // verus!

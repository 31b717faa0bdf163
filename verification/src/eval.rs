//! The pattern evaluator: scores a board from one player's perspective by
//! classifying, for every stone and axis, the contiguous run through it and
//! whether its two ends are open or blocked.

use vstd::prelude::*;
use crate::board::{bview, board_ok, in_board, center_dist, cell_at, is_valid_position};
use crate::win::{line_r, line_c, stride, run_from, pos_at, run_len};

verus! {

/// Score of a completed five-in-a-row pattern, and the winning search value.
pub const WIN_SCORE: i32 = 100000;

/// The losing search value.
pub const LOSE_SCORE: i32 = -100000;

/// Largest score the evaluator can assign to a single cell.
pub const POSITION_SCORE_MAX: i32 = 840100;

/// Largest magnitude `evaluate_board` can return (225 cells at most).
pub const BOARD_SCORE_MAX: i32 = 189022500;

/// Length of the run of `p`-stones extending from (r, c) in direction `s`
/// along axis `d`, not counting (r, c) itself.
pub open spec fn ray_len(b: Seq<Seq<i32>>, r: int, c: int, d: int, s: int, p: i32) -> int {
    run_from(b, r, c, d, s, p, 15)
}

/// The end of that run is open: the next cell exists and is empty.
pub open spec fn ray_open(b: Seq<Seq<i32>>, r: int, c: int, d: int, s: int, p: i32) -> bool {
    let j = stride(s, ray_len(b, r, c, d, s, p) + 1);
    in_board(line_r(r, d, j), line_c(c, d, j)) && b[line_r(r, d, j)][line_c(c, d, j)] == 0
}

/// Stones in the contiguous run through (r, c) along axis `d`, inclusive.
pub open spec fn axis_count(b: Seq<Seq<i32>>, r: int, c: int, d: int, p: i32) -> int {
    1 + ray_len(b, r, c, d, 1, p) + ray_len(b, r, c, d, -1, p)
}

/// How many of the run's two ends are blocked (board edge or foreign stone).
pub open spec fn axis_blocked(b: Seq<Seq<i32>>, r: int, c: int, d: int, p: i32) -> int {
    (if ray_open(b, r, c, d, 1, p) {
        0int
    } else {
        1int
    }) + (if ray_open(b, r, c, d, -1, p) {
        0int
    } else {
        1int
    })
}

/// The fixed (run length, blocked ends) -> points table.
pub open spec fn pattern_points(cnt: int, blocked: int) -> int {
    if cnt == 5 {
        100000
    } else if cnt == 4 && blocked == 0 {
        50000
    } else if cnt == 4 && blocked == 1 {
        10000
    } else if cnt == 3 && blocked == 0 {
        5000
    } else if cnt == 3 && blocked == 1 {
        1000
    } else if cnt == 2 && blocked == 0 {
        500
    } else if cnt == 2 && blocked == 1 {
        100
    } else if cnt == 1 && blocked == 0 {
        50
    } else {
        0
    }
}

pub open spec fn b2i(x: bool) -> int {
    if x {
        1
    } else {
        0
    }
}

/// Number of axes through (r, c) whose pattern is exactly (n stones, k
/// blocked ends).
pub open spec fn axes_matching(b: Seq<Seq<i32>>, r: int, c: int, p: i32, n: int, k: int) -> int {
    b2i(axis_count(b, r, c, 0, p) == n && axis_blocked(b, r, c, 0, p) == k) + b2i(
        axis_count(b, r, c, 1, p) == n && axis_blocked(b, r, c, 1, p) == k,
    ) + b2i(axis_count(b, r, c, 2, p) == n && axis_blocked(b, r, c, 2, p) == k) + b2i(
        axis_count(b, r, c, 3, p) == n && axis_blocked(b, r, c, 3, p) == k,
    )
}

/// The double-threat bonus: only the highest-ranking combination applies.
pub open spec fn combo_bonus(lf: int, lt: int, l2: int) -> int {
    if lf >= 2 {
        100000
    } else if lf >= 1 && lt >= 1 {
        80000
    } else if lt >= 2 {
        30000
    } else if lt >= 1 && l2 >= 2 {
        15000
    } else {
        0
    }
}

/// Flat bonus for cells within Manhattan distance 2 of the center.
pub open spec fn center_bonus(r: int, c: int) -> int {
    if center_dist(r, c) <= 2 {
        100
    } else {
        0
    }
}

/// The evaluator's score for player `p` at cell (r, c): the per-axis pattern
/// points, the per-pattern threat bonuses, the best combination bonus, and
/// the center bonus.
pub open spec fn position_score(b: Seq<Seq<i32>>, r: int, c: int, p: i32) -> int {
    let base = pattern_points(axis_count(b, r, c, 0, p), axis_blocked(b, r, c, 0, p))
        + pattern_points(axis_count(b, r, c, 1, p), axis_blocked(b, r, c, 1, p))
        + pattern_points(axis_count(b, r, c, 2, p), axis_blocked(b, r, c, 2, p))
        + pattern_points(axis_count(b, r, c, 3, p), axis_blocked(b, r, c, 3, p));
    let lf = axes_matching(b, r, c, p, 4, 0);
    let sf = axes_matching(b, r, c, p, 4, 1);
    let lt = axes_matching(b, r, c, p, 3, 0);
    let st = axes_matching(b, r, c, p, 3, 1);
    let l2 = axes_matching(b, r, c, p, 2, 0);
    base + lt * 8000 + st * 2000 + lf * 60000 + sf * 15000 + combo_bonus(lf, lt, l2)
        + center_bonus(r, c)
}

/// Signed contribution of cell (r, c) to `p`'s board score: its own score if
/// `p` owns it, minus the owner's score if another player owns it.
pub open spec fn cell_contrib(b: Seq<Seq<i32>>, r: int, c: int, p: i32) -> int {
    if b[r][c] == p {
        position_score(b, r, c, p)
    } else if b[r][c] != 0 {
        -position_score(b, r, c, b[r][c])
    } else {
        0
    }
}

/// Contribution of the first `n` cells of row `r`.
pub open spec fn row_score(b: Seq<Seq<i32>>, p: i32, r: int, n: int) -> int
    decreases n,
{
    if n <= 0 {
        0
    } else {
        row_score(b, p, r, n - 1) + cell_contrib(b, r, n - 1, p)
    }
}

/// Contribution of the first `m` full rows.
pub open spec fn rows_score(b: Seq<Seq<i32>>, p: i32, m: int) -> int
    decreases m,
{
    if m <= 0 {
        0
    } else {
        rows_score(b, p, m - 1) + row_score(b, p, m - 1, 15)
    }
}

/// The whole-board score for player `p`.
pub open spec fn board_score(b: Seq<Seq<i32>>, p: i32) -> int {
    rows_score(b, p, 15)
}

/// Walks outward from (row, col) in both directions along axis `d` and
/// returns the run length through the cell and its blocked-end count.
pub fn analyze_direction(board: &Vec<Vec<i32>>, row: usize, col: usize, d: usize, player: i32) -> (pat: (
    u32,
    u32,
))
    requires
        board_ok(bview(board)),
        row < 15,
        col < 15,
        d < 4,
    ensures
        pat.0 == axis_count(bview(board), row as int, col as int, d as int, player),
        pat.1 == axis_blocked(bview(board), row as int, col as int, d as int, player),
        1 <= pat.0 <= 31,
        pat.1 <= 2,
{
    let ghost b = bview(board);
    let fwd = run_len(board, row as i32, col as i32, d, 1, player, 15);
    let bwd = run_len(board, row as i32, col as i32, d, -1, player, 15);
    let mut blocked: u32 = 0;
    let jf: i32 = fwd as i32 + 1;
    let (fr, fc) = pos_at(row as i32, col as i32, d, jf);
    proof {
        assert(stride(1, ray_len(b, row as int, col as int, d as int, 1, player) + 1) == jf as int);
    }
    if !(is_valid_position(fr, fc) && cell_at_checked(board, fr, fc) == 0) {
        blocked = blocked + 1;
    }
    let jb: i32 = -(bwd as i32 + 1);
    let (br, bc) = pos_at(row as i32, col as i32, d, jb);
    proof {
        assert(stride(-1, ray_len(b, row as int, col as int, d as int, -1, player) + 1)
            == jb as int);
    }
    if !(is_valid_position(br, bc) && cell_at_checked(board, br, bc) == 0) {
        blocked = blocked + 1;
    }
    (1 + fwd + bwd, blocked)
}

/// Reads a cell addressed with signed coordinates known to be on the board.
fn cell_at_checked(board: &Vec<Vec<i32>>, r: i32, c: i32) -> (v: i32)
    requires
        board_ok(bview(board)),
        in_board(r as int, c as int),
    ensures
        v == bview(board)[r as int][c as int],
{
    cell_at(board, r as usize, c as usize)
}

/// The fixed pattern table as executable code.
fn pattern_points_of(cnt: u32, blocked: u32) -> (pts: i32)
    ensures
        pts == pattern_points(cnt as int, blocked as int),
        0 <= pts <= 100000,
{
    if cnt == 5 {
        100000
    } else if cnt == 4 && blocked == 0 {
        50000
    } else if cnt == 4 && blocked == 1 {
        10000
    } else if cnt == 3 && blocked == 0 {
        5000
    } else if cnt == 3 && blocked == 1 {
        1000
    } else if cnt == 2 && blocked == 0 {
        500
    } else if cnt == 2 && blocked == 1 {
        100
    } else if cnt == 1 && blocked == 0 {
        50
    } else {
        0
    }
}

/// Counts how many of the four analyzed axis patterns equal (n, k).
fn axes_matching_of(
    c0: u32,
    k0: u32,
    c1: u32,
    k1: u32,
    c2: u32,
    k2: u32,
    c3: u32,
    k3: u32,
    n: u32,
    k: u32,
) -> (m: i32)
    ensures
        m == b2i(c0 == n && k0 == k) + b2i(c1 == n && k1 == k) + b2i(c2 == n && k2 == k) + b2i(
            c3 == n && k3 == k,
        ),
        0 <= m <= 4,
{
    ((c0 == n && k0 == k) as i32) + ((c1 == n && k1 == k) as i32) + ((c2 == n && k2 == k) as i32)
        + ((c3 == n && k3 == k) as i32)
}

/// Scores player `p`'s position at (row, col) across all four axes,
/// including threat, combination, and center bonuses.
#[verifier::rlimit(60)]
pub fn evaluate_position(board: &Vec<Vec<i32>>, row: usize, col: usize, player: i32) -> (score: i32)
    requires
        board_ok(bview(board)),
        row < 15,
        col < 15,
    ensures
        score == position_score(bview(board), row as int, col as int, player),
        0 <= score <= POSITION_SCORE_MAX,
{
    let ghost b = bview(board);
    let (c0, k0) = analyze_direction(board, row, col, 0, player);
    let (c1, k1) = analyze_direction(board, row, col, 1, player);
    let (c2, k2) = analyze_direction(board, row, col, 2, player);
    let (c3, k3) = analyze_direction(board, row, col, 3, player);
    let base: i32 = pattern_points_of(c0, k0) + pattern_points_of(c1, k1) + pattern_points_of(
        c2,
        k2,
    ) + pattern_points_of(c3, k3);
    let lf: i32 = axes_matching_of(c0, k0, c1, k1, c2, k2, c3, k3, 4, 0);
    let sf: i32 = axes_matching_of(c0, k0, c1, k1, c2, k2, c3, k3, 4, 1);
    let lt: i32 = axes_matching_of(c0, k0, c1, k1, c2, k2, c3, k3, 3, 0);
    let st: i32 = axes_matching_of(c0, k0, c1, k1, c2, k2, c3, k3, 3, 1);
    let l2: i32 = axes_matching_of(c0, k0, c1, k1, c2, k2, c3, k3, 2, 0);
    proof {
        assert(lf == axes_matching(b, row as int, col as int, player, 4, 0));
        assert(sf == axes_matching(b, row as int, col as int, player, 4, 1));
        assert(lt == axes_matching(b, row as int, col as int, player, 3, 0));
        assert(st == axes_matching(b, row as int, col as int, player, 3, 1));
        assert(l2 == axes_matching(b, row as int, col as int, player, 2, 0));
    }
    let mut score: i32 = base + lt * 8000 + st * 2000 + lf * 60000 + sf * 15000;
    let combo: i32 = if lf >= 2 {
        100000
    } else if lf >= 1 && lt >= 1 {
        80000
    } else if lt >= 2 {
        30000
    } else if lt >= 1 && l2 >= 2 {
        15000
    } else {
        0
    };
    proof {
        assert(combo == combo_bonus(lf as int, lt as int, l2 as int));
    }
    score = score + combo;
    let rd: i32 = if row as i32 >= 7 {
        row as i32 - 7
    } else {
        7 - row as i32
    };
    let cd: i32 = if col as i32 >= 7 {
        col as i32 - 7
    } else {
        7 - col as i32
    };
    if rd + cd <= 2 {
        score = score + 100;
    }
    proof {
        assert(rd + cd == center_dist(row as int, col as int));
        assert(score == position_score(b, row as int, col as int, player));
    }
    score
}

/// Sums `position_score` over every stone: positively for `player`'s stones,
/// negatively (from the owner's own perspective) for every other stone.
pub fn evaluate_board(board: &Vec<Vec<i32>>, player: i32) -> (score: i32)
    requires
        board_ok(bview(board)),
    ensures
        score == board_score(bview(board), player),
        -BOARD_SCORE_MAX <= score <= BOARD_SCORE_MAX,
{
    let ghost b = bview(board);
    let mut score: i32 = 0;
    let mut r: usize = 0;
    while r < 15
        invariant
            board_ok(b),
            b == bview(board),
            r <= 15,
            score == rows_score(b, player, r as int),
            -(r as int) * 15 * 840100 <= score <= (r as int) * 15 * 840100,
        decreases 15 - r,
    {
        let mut c: usize = 0;
        while c < 15
            invariant
                board_ok(b),
                b == bview(board),
                r < 15,
                c <= 15,
                score == rows_score(b, player, r as int) + row_score(b, player, r as int, c as int),
                -((r as int) * 15 + c as int) * 840100 <= score <= ((r as int) * 15 + c as int)
                    * 840100,
            decreases 15 - c,
        {
            let v = cell_at(board, r, c);
            if v == player {
                let pts = evaluate_position(board, r, c, player);
                score = score + pts;
            } else if v != 0 {
                let pts = evaluate_position(board, r, c, v);
                score = score - pts;
            }
            c = c + 1;
        }
        r = r + 1;
    }
    score
}

/// A cell holding one of two players contributes opposite amounts to the two
/// players' scores.
proof fn lemma_cell_contrib_opposite(b: Seq<Seq<i32>>, r: int, c: int, pa: i32, pb: i32)
    requires
        pa != 0,
        pb != 0,
        pa != pb,
        b[r][c] == 0 || b[r][c] == pa || b[r][c] == pb,
    ensures
        cell_contrib(b, r, c, pa) == -cell_contrib(b, r, c, pb),
{
}

proof fn lemma_row_zero_sum(b: Seq<Seq<i32>>, pa: i32, pb: i32, r: int, n: int)
    requires
        pa != 0,
        pb != 0,
        pa != pb,
        in_board(r, 0),
        n <= 15,
        forall|rr: int, cc: int|
            in_board(rr, cc) ==> b[rr][cc] == 0 || b[rr][cc] == pa || #[trigger] b[rr][cc] == pb,
    ensures
        row_score(b, pa, r, n) == -row_score(b, pb, r, n),
    decreases n,
{
    if n > 0 {
        lemma_row_zero_sum(b, pa, pb, r, n - 1);
        assert(b[r][n - 1] == 0 || b[r][n - 1] == pa || b[r][n - 1] == pb);
        lemma_cell_contrib_opposite(b, r, n - 1, pa, pb);
    }
}

proof fn lemma_rows_zero_sum(b: Seq<Seq<i32>>, pa: i32, pb: i32, m: int)
    requires
        pa != 0,
        pb != 0,
        pa != pb,
        m <= 15,
        forall|rr: int, cc: int|
            in_board(rr, cc) ==> b[rr][cc] == 0 || b[rr][cc] == pa || #[trigger] b[rr][cc] == pb,
    ensures
        rows_score(b, pa, m) == -rows_score(b, pb, m),
    decreases m,
{
    if m > 0 {
        lemma_rows_zero_sum(b, pa, pb, m - 1);
        lemma_row_zero_sum(b, pa, pb, m - 1, 15);
    }
}

/// The evaluator is zero-sum: on a board whose stones all belong to players
/// `pa` and `pb`, the score for `pa` is the negation of the score for `pb`.
pub proof fn lemma_evaluate_zero_sum(b: Seq<Seq<i32>>, pa: i32, pb: i32)
    requires
        board_ok(b),
        pa != 0,
        pb != 0,
        pa != pb,
        forall|rr: int, cc: int|
            in_board(rr, cc) ==> b[rr][cc] == 0 || b[rr][cc] == pa || #[trigger] b[rr][cc] == pb,
    ensures
        board_score(b, pa) == -board_score(b, pb),
{
    lemma_rows_zero_sum(b, pa, pb, 15);
}

} // verus!

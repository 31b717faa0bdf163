//! The board model: a 15x15 grid of cells, each 0 (empty) or a nonzero
//! player identifier, stored row-major as a `Vec` of rows.

use vstd::prelude::*;

verus! {

/// Side length of the square board.
pub const BOARD_SIZE: usize = 15;

/// Number of contiguous same-player stones that win the game.
pub const WIN_LENGTH: usize = 5;

/// The mathematical value of a board: the sequence of its rows' contents.
pub open spec fn bview(b: &Vec<Vec<i32>>) -> Seq<Seq<i32>> {
    Seq::new(b@.len(), |i: int| b@[i]@)
}

/// A well-formed board is a 15x15 grid.
pub open spec fn board_ok(b: Seq<Seq<i32>>) -> bool {
    b.len() == 15 && forall|r: int| 0 <= r < 15 ==> (#[trigger] b[r]).len() == 15
}

/// Both coordinates lie on the board.
pub open spec fn in_board(r: int, c: int) -> bool {
    0 <= r < 15 && 0 <= c < 15
}

/// The board after a stone of value `p` is written at (r, c).
pub open spec fn place(b: Seq<Seq<i32>>, r: int, c: int, p: i32) -> Seq<Seq<i32>> {
    b.update(r, b[r].update(c, p))
}

/// How many of the first `n` cells of `row` hold a stone.
pub open spec fn row_stones(row: Seq<i32>, n: int) -> int
    decreases n,
{
    if n <= 0 {
        0
    } else {
        row_stones(row, n - 1) + if row[n - 1] != 0 { 1int } else { 0int }
    }
}

/// How many stones the first `m` rows hold in total.
pub open spec fn stones_in_rows(b: Seq<Seq<i32>>, m: int) -> int
    decreases m,
{
    if m <= 0 {
        0
    } else {
        stones_in_rows(b, m - 1) + row_stones(b[m - 1], 15)
    }
}

/// Total number of stones on the board.
pub open spec fn stone_count(b: Seq<Seq<i32>>) -> int {
    stones_in_rows(b, 15)
}

/// Manhattan distance from (r, c) to the board center (7, 7).
pub open spec fn center_dist(r: int, c: int) -> int {
    (if r >= 7 {
        r - 7
    } else {
        7 - r
    }) + (if c >= 7 {
        c - 7
    } else {
        7 - c
    })
}

/// True iff both coordinates lie in [0, 15).
pub fn is_valid_position(row: i32, col: i32) -> (r: bool)
    ensures
        r == in_board(row as int, col as int),
{
    row >= 0 && row < 15 && col >= 0 && col < 15
}

/// Reads the cell at (row, col).
pub fn cell_at(board: &Vec<Vec<i32>>, row: usize, col: usize) -> (v: i32)
    requires
        board_ok(bview(board)),
        row < 15,
        col < 15,
    ensures
        v == bview(board)[row as int][col as int],
{
    proof {
        assert(bview(board)[row as int] == board@[row as int]@);
    }
    board[row][col]
}

/// Writes `v` into the cell at (row, col).
pub fn set_cell(board: &mut Vec<Vec<i32>>, row: usize, col: usize, v: i32)
    requires
        board_ok(bview(old(board))),
        row < 15,
        col < 15,
    ensures
        bview(final(board)) == place(bview(old(board)), row as int, col as int, v),
        board_ok(bview(final(board))),
{
    let ghost b0 = bview(board);
    proof {
        assert(bview(board)[row as int] == board@[row as int]@);
    }
    let row_ref = &mut board[row];
    row_ref[col] = v;
    proof {
        assert(bview(board) =~~= place(b0, row as int, col as int, v));
    }
}

/// An independently owned copy of the board.
pub fn clone_board(board: &Vec<Vec<i32>>) -> (r: Vec<Vec<i32>>)
    requires
        board_ok(bview(board)),
    ensures
        bview(&r) == bview(board),
        board_ok(bview(&r)),
{
    let mut out: Vec<Vec<i32>> = Vec::new();
    let mut i: usize = 0;
    while i < 15
        invariant
            board_ok(bview(board)),
            i <= 15,
            out@.len() == i,
            forall|k: int| 0 <= k < i ==> bview(&out)[k] == bview(board)[k],
        decreases 15 - i,
    {
        let mut row: Vec<i32> = Vec::new();
        let mut j: usize = 0;
        while j < 15
            invariant
                board_ok(bview(board)),
                i < 15,
                j <= 15,
                row@.len() == j,
                forall|k: int| 0 <= k < j ==> row@[k] == bview(board)[i as int][k],
            decreases 15 - j,
        {
            let v = cell_at(board, i, j);
            row.push(v);
            j = j + 1;
        }
        proof {
            assert(row@ =~= bview(board)[i as int]);
        }
        out.push(row);
        i = i + 1;
    }
    proof {
        assert(bview(&out) =~~= bview(board));
    }
    out
}

/// Counts the stones on the board.
pub fn count_moves(board: &Vec<Vec<i32>>) -> (n: usize)
    requires
        board_ok(bview(board)),
    ensures
        n == stone_count(bview(board)),
        n <= 225,
{
    let ghost b = bview(board);
    let mut n: usize = 0;
    let mut r: usize = 0;
    while r < 15
        invariant
            board_ok(b),
            b == bview(board),
            r <= 15,
            n == stones_in_rows(b, r as int),
            n <= 15 * r,
        decreases 15 - r,
    {
        let mut c: usize = 0;
        while c < 15
            invariant
                board_ok(b),
                b == bview(board),
                r < 15,
                c <= 15,
                n == stones_in_rows(b, r as int) + row_stones(b[r as int], c as int),
                n <= 15 * r + c,
            decreases 15 - c,
        {
            if cell_at(board, r, c) != 0 {
                n = n + 1;
            }
            c = c + 1;
        }
        r = r + 1;
    }
    n
}

/// Restoring an empty cell after a trial placement gives back the original board.
pub proof fn lemma_place_restore(b: Seq<Seq<i32>>, r: int, c: int, p: i32)
    requires
        board_ok(b),
        in_board(r, c),
        b[r][c] == 0,
    ensures
        place(place(b, r, c, p), r, c, 0) == b,
{
    assert(place(place(b, r, c, p), r, c, 0) =~~= b);
}

/// The stone count is never negative.
pub proof fn lemma_stone_count_nonneg(b: Seq<Seq<i32>>)
    ensures
        stone_count(b) >= 0,
{
    lemma_rows_nonneg(b, 15);
}

/// A board with no stones is empty at every cell.
pub proof fn lemma_no_stones_all_empty(b: Seq<Seq<i32>>)
    requires
        board_ok(b),
        stone_count(b) == 0,
    ensures
        forall|r: int, c: int| in_board(r, c) ==> b[r][c] == 0,
{
    assert forall|r: int, c: int| in_board(r, c) implies b[r][c] == 0 by {
        lemma_row_prefix_monotone(b, r, c);
    }
}

proof fn lemma_rows_nonneg(b: Seq<Seq<i32>>, m: int)
    requires
        0 <= m <= 15,
    ensures
        stones_in_rows(b, m) >= 0,
    decreases m,
{
    if m > 0 {
        lemma_rows_nonneg(b, m - 1);
        lemma_row_stones_nonneg(b[m - 1], 15);
    }
}

proof fn lemma_row_stones_nonneg(row: Seq<i32>, n: int)
    ensures
        row_stones(row, n) >= 0,
    decreases n,
{
    if n > 0 {
        lemma_row_stones_nonneg(row, n - 1);
    }
}

/// If the whole board holds no stones, then no prefix does, so any one
/// nonzero cell is a contradiction.
proof fn lemma_row_prefix_monotone(b: Seq<Seq<i32>>, r: int, c: int)
    requires
        board_ok(b),
        in_board(r, c),
        stone_count(b) == 0,
    ensures
        b[r][c] == 0,
{
    if b[r][c] != 0 {
        lemma_stone_counted(b, r, c);
        assert(false);
    }
}

/// A nonzero cell contributes at least 1 to the stone count.
proof fn lemma_stone_counted(b: Seq<Seq<i32>>, r: int, c: int)
    requires
        board_ok(b),
        in_board(r, c),
        b[r][c] != 0,
    ensures
        stone_count(b) >= 1,
{
    lemma_row_stones_step(b[r], c + 1, 15);
    lemma_row_stones_cell(b[r], c);
    lemma_rows_step(b, r + 1, 15);
    lemma_rows_cell(b, r);
    lemma_row_stones_nonneg(b[r], c);
    lemma_rows_nonneg(b, r);
}

proof fn lemma_row_stones_cell(row: Seq<i32>, c: int)
    requires
        0 <= c,
        row[c] != 0,
    ensures
        row_stones(row, c + 1) >= row_stones(row, c) + 1,
{
}

proof fn lemma_row_stones_step(row: Seq<i32>, from: int, to: int)
    requires
        from <= to,
    ensures
        row_stones(row, to) >= row_stones(row, from),
    decreases to - from,
{
    if from < to {
        lemma_row_stones_step(row, from, to - 1);
    }
}

proof fn lemma_rows_cell(b: Seq<Seq<i32>>, r: int)
    requires
        0 <= r,
    ensures
        stones_in_rows(b, r + 1) == stones_in_rows(b, r) + row_stones(b[r], 15),
{
}

proof fn lemma_rows_step(b: Seq<Seq<i32>>, from: int, to: int)
    requires
        from <= to,
    ensures
        stones_in_rows(b, to) >= stones_in_rows(b, from),
    decreases to - from,
{
    if from < to {
        lemma_rows_step(b, from, to - 1);
        lemma_row_stones_nonneg(b[to - 1], 15);
    }
}

proof fn lemma_row_stones_le(row: Seq<i32>, n: int)
    requires
        0 <= n,
    ensures
        row_stones(row, n) <= n,
    decreases n,
{
    if n > 0 {
        lemma_row_stones_le(row, n - 1);
    }
}

proof fn lemma_row_stones_window(row: Seq<i32>, from: int, to: int)
    requires
        from <= to,
    ensures
        row_stones(row, to) <= row_stones(row, from) + (to - from),
    decreases to - from,
{
    if from < to {
        lemma_row_stones_window(row, from, to - 1);
    }
}

proof fn lemma_rows_window(b: Seq<Seq<i32>>, from: int, to: int)
    requires
        from <= to,
    ensures
        stones_in_rows(b, to) <= stones_in_rows(b, from) + 15 * (to - from),
    decreases to - from,
{
    if from < to {
        lemma_rows_window(b, from, to - 1);
        lemma_row_stones_le(b[to - 1], 15);
        lemma_row_stones_nonneg(b[to - 1], 15);
    }
}

/// An empty cell keeps the board strictly below full.
pub proof fn lemma_empty_cell_not_full(b: Seq<Seq<i32>>, r: int, c: int)
    requires
        board_ok(b),
        in_board(r, c),
        b[r][c] == 0,
    ensures
        stone_count(b) <= 224,
{
    lemma_row_stones_le(b[r], c);
    lemma_row_stones_window(b[r], c + 1, 15);
    assert(row_stones(b[r], c + 1) == row_stones(b[r], c));
    assert(row_stones(b[r], 15) <= 14);
    lemma_rows_window(b, 0, r);
    lemma_rows_cell(b, r);
    lemma_rows_window(b, r + 1, 15);
}

proof fn lemma_full_row(b: Seq<Seq<i32>>, r: int, n: int)
    requires
        board_ok(b),
        0 <= r < 15,
        0 <= n <= 15,
        forall|rr: int, cc: int| in_board(rr, cc) ==> #[trigger] b[rr][cc] != 0,
    ensures
        row_stones(b[r], n) == n,
    decreases n,
{
    if n > 0 {
        lemma_full_row(b, r, n - 1);
        assert(b[r][n - 1] != 0);
    }
}

proof fn lemma_full_rows(b: Seq<Seq<i32>>, m: int)
    requires
        board_ok(b),
        0 <= m <= 15,
        forall|rr: int, cc: int| in_board(rr, cc) ==> #[trigger] b[rr][cc] != 0,
    ensures
        stones_in_rows(b, m) == 15 * m,
    decreases m,
{
    if m > 0 {
        lemma_full_rows(b, m - 1);
        lemma_full_row(b, m - 1, 15);
    }
}

/// A board with no empty cell holds exactly 225 stones.
pub proof fn lemma_no_empty_full(b: Seq<Seq<i32>>)
    requires
        board_ok(b),
        forall|rr: int, cc: int| in_board(rr, cc) ==> #[trigger] b[rr][cc] != 0,
    ensures
        stone_count(b) == 225,
{
    lemma_full_rows(b, 15);
}

proof fn lemma_empty_row_zero(b: Seq<Seq<i32>>, r: int, n: int)
    requires
        board_ok(b),
        0 <= r < 15,
        0 <= n <= 15,
        forall|rr: int, cc: int| in_board(rr, cc) ==> #[trigger] b[rr][cc] == 0,
    ensures
        row_stones(b[r], n) == 0,
    decreases n,
{
    if n > 0 {
        lemma_empty_row_zero(b, r, n - 1);
        assert(b[r][n - 1] == 0);
    }
}

/// A board whose every cell is empty holds no stones.
pub proof fn lemma_all_empty_no_stones(b: Seq<Seq<i32>>)
    requires
        board_ok(b),
        forall|rr: int, cc: int| in_board(rr, cc) ==> #[trigger] b[rr][cc] == 0,
    ensures
        stone_count(b) == 0,
{
    lemma_empty_rows_zero(b, 15);
}

proof fn lemma_empty_rows_zero(b: Seq<Seq<i32>>, m: int)
    requires
        board_ok(b),
        0 <= m <= 15,
        forall|rr: int, cc: int| in_board(rr, cc) ==> #[trigger] b[rr][cc] == 0,
    ensures
        stones_in_rows(b, m) == 0,
    decreases m,
{
    if m > 0 {
        lemma_empty_rows_zero(b, m - 1);
        lemma_empty_row_zero(b, m - 1, 15);
    }
}

/// Two stones on distinct cells put the stone count at two or more.
pub proof fn lemma_two_stones(b: Seq<Seq<i32>>, r1: int, c1: int, r2: int, c2: int)
    requires
        board_ok(b),
        in_board(r1, c1),
        in_board(r2, c2),
        b[r1][c1] != 0,
        b[r2][c2] != 0,
        (r1, c1) != (r2, c2),
    ensures
        stone_count(b) >= 2,
{
    if r1 == r2 {
        let cl = if c1 < c2 {
            c1
        } else {
            c2
        };
        let ch = if c1 < c2 {
            c2
        } else {
            c1
        };
        lemma_row_stones_nonneg(b[r1], cl);
        lemma_row_stones_cell(b[r1], cl);
        lemma_row_stones_step(b[r1], cl + 1, ch);
        lemma_row_stones_cell(b[r1], ch);
        lemma_row_stones_step(b[r1], ch + 1, 15);
        lemma_rows_nonneg(b, r1);
        lemma_rows_cell(b, r1);
        lemma_rows_step(b, r1 + 1, 15);
    } else {
        let rl = if r1 < r2 {
            r1
        } else {
            r2
        };
        let rh = if r1 < r2 {
            r2
        } else {
            r1
        };
        let cl = if r1 < r2 {
            c1
        } else {
            c2
        };
        let ch = if r1 < r2 {
            c2
        } else {
            c1
        };
        lemma_row_stones_nonneg(b[rl], cl);
        lemma_row_stones_cell(b[rl], cl);
        lemma_row_stones_step(b[rl], cl + 1, 15);
        lemma_rows_nonneg(b, rl);
        lemma_rows_cell(b, rl);
        lemma_rows_step(b, rl + 1, rh);
        lemma_row_stones_nonneg(b[rh], ch);
        lemma_row_stones_cell(b[rh], ch);
        lemma_row_stones_step(b[rh], ch + 1, 15);
        lemma_rows_cell(b, rh);
        lemma_rows_step(b, rh + 1, 15);
    }
}

} // verus!

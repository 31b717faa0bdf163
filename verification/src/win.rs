//! Win detection: a just-placed stone wins iff it lies on a window of five
//! contiguous same-player cells along one of the four board axes.

use vstd::prelude::*;
use crate::board::{bview, board_ok, in_board, place, cell_at, is_valid_position};

verus! {

/// Row coordinate `j` steps from `r` along axis `d`
/// (0 = horizontal, 1 = vertical, 2 = main diagonal, 3 = anti-diagonal).
pub open spec fn line_r(r: int, d: int, j: int) -> int {
    if d == 0 {
        r
    } else {
        r + j
    }
}

/// Column coordinate `j` steps from `c` along axis `d`.
pub open spec fn line_c(c: int, d: int, j: int) -> int {
    if d == 0 {
        c + j
    } else if d == 1 {
        c
    } else if d == 2 {
        c + j
    } else {
        c - j
    }
}

/// Offset of the `i`-th step in direction `s` (+1 forward, -1 backward).
pub open spec fn stride(s: int, i: int) -> int {
    if s == 1 {
        i
    } else {
        -i
    }
}

/// Five contiguous cells of value `p` along axis `d`, starting at (r0, c0).
pub open spec fn window5(b: Seq<Seq<i32>>, r0: int, c0: int, d: int, p: i32) -> bool {
    forall|j: int|
        0 <= j < 5 ==> in_board(#[trigger] line_r(r0, d, j), line_c(c0, d, j))
            && b[line_r(r0, d, j)][line_c(c0, d, j)] == p
}

/// The stone at (r, c) completes five in a row: the cell is occupied and lies
/// on some window of five same-valued cells along some axis.
pub open spec fn win_at(b: Seq<Seq<i32>>, r: int, c: int) -> bool {
    b[r][c] != 0 && exists|d: int, k: int|
        0 <= d < 4 && 0 <= k < 5 && #[trigger] window5(
            b,
            line_r(r, d, -k),
            line_c(c, d, -k),
            d,
            b[r][c],
        )
}

/// Length of the contiguous run of `p`-cells strictly beyond (r, c) in
/// direction `s` along axis `d`, counting at most `cap` cells.
pub open spec fn run_from(
    b: Seq<Seq<i32>>,
    r: int,
    c: int,
    d: int,
    s: int,
    p: i32,
    cap: nat,
) -> int
    decreases cap,
{
    if cap == 0 {
        0
    } else {
        let r1 = line_r(r, d, s);
        let c1 = line_c(c, d, s);
        if in_board(r1, c1) && b[r1][c1] == p {
            1 + run_from(b, r1, c1, d, s, p, (cap - 1) as nat)
        } else {
            0
        }
    }
}

/// The counted run consists of `p`-cells, and it stops at the first cell that
/// is off the board or not `p` (unless the cap was reached).
pub(crate) proof fn lemma_run_cells(b: Seq<Seq<i32>>, r: int, c: int, d: int, s: int, p: i32, cap: nat)
    requires
        s == 1 || s == -1,
    ensures
        0 <= run_from(b, r, c, d, s, p, cap) <= cap,
        forall|i: int|
            1 <= i <= run_from(b, r, c, d, s, p, cap) ==> in_board(
                #[trigger] line_r(r, d, stride(s, i)),
                line_c(c, d, stride(s, i)),
            ) && b[line_r(r, d, stride(s, i))][line_c(c, d, stride(s, i))] == p,
        run_from(b, r, c, d, s, p, cap) < cap ==> !(in_board(
            line_r(r, d, stride(s, run_from(b, r, c, d, s, p, cap) + 1)),
            line_c(c, d, stride(s, run_from(b, r, c, d, s, p, cap) + 1)),
        ) && b[line_r(r, d, stride(s, run_from(b, r, c, d, s, p, cap) + 1))][line_c(
            c,
            d,
            stride(s, run_from(b, r, c, d, s, p, cap) + 1),
        )] == p),
    decreases cap,
{
    if cap > 0 {
        let r1 = line_r(r, d, s);
        let c1 = line_c(c, d, s);
        if in_board(r1, c1) && b[r1][c1] == p {
            lemma_run_cells(b, r1, c1, d, s, p, (cap - 1) as nat);
            let n = run_from(b, r, c, d, s, p, cap);
            assert forall|i: int| 1 <= i <= n implies in_board(
                #[trigger] line_r(r, d, stride(s, i)),
                line_c(c, d, stride(s, i)),
            ) && b[line_r(r, d, stride(s, i))][line_c(c, d, stride(s, i))] == p by {
                if i == 1 {
                    assert(line_r(r, d, stride(s, 1)) == r1);
                    assert(line_c(c, d, stride(s, 1)) == c1);
                } else {
                    assert(line_r(r1, d, stride(s, i - 1)) == line_r(r, d, stride(s, i)));
                    assert(line_c(c1, d, stride(s, i - 1)) == line_c(c, d, stride(s, i)));
                }
            }
            if n < cap {
                assert(line_r(r1, d, stride(s, n)) == line_r(r, d, stride(s, n + 1)));
                assert(line_c(c1, d, stride(s, n)) == line_c(c, d, stride(s, n + 1)));
            }
        }
    }
}

/// If the `m` cells beyond (r, c) in direction `s` are all `p`, the counted
/// run reaches at least `m`.
pub(crate) proof fn lemma_run_at_least(
    b: Seq<Seq<i32>>,
    r: int,
    c: int,
    d: int,
    s: int,
    p: i32,
    cap: nat,
    m: int,
)
    requires
        s == 1 || s == -1,
        0 <= m <= cap,
        forall|i: int|
            1 <= i <= m ==> in_board(#[trigger] line_r(r, d, stride(s, i)), line_c(c, d, stride(s, i)))
                && b[line_r(r, d, stride(s, i))][line_c(c, d, stride(s, i))] == p,
    ensures
        run_from(b, r, c, d, s, p, cap) >= m,
    decreases m,
{
    if m > 0 {
        let r1 = line_r(r, d, s);
        let c1 = line_c(c, d, s);
        assert(line_r(r, d, stride(s, 1)) == r1);
        assert(line_c(c, d, stride(s, 1)) == c1);
        assert forall|i: int| 1 <= i <= m - 1 implies in_board(
            #[trigger] line_r(r1, d, stride(s, i)),
            line_c(c1, d, stride(s, i)),
        ) && b[line_r(r1, d, stride(s, i))][line_c(c1, d, stride(s, i))] == p by {
            assert(line_r(r1, d, stride(s, i)) == line_r(r, d, stride(s, i + 1)));
            assert(line_c(c1, d, stride(s, i)) == line_c(c, d, stride(s, i + 1)));
            assert(in_board(line_r(r, d, stride(s, i + 1)), line_c(c, d, stride(s, i + 1)))
                && b[line_r(r, d, stride(s, i + 1))][line_c(c, d, stride(s, i + 1))] == p);
        }
        assert(in_board(r1, c1) && b[r1][c1] == p);
        lemma_run_at_least(b, r1, c1, d, s, p, (cap - 1) as nat, m - 1);
        assert(run_from(b, r, c, d, s, p, cap) == 1 + run_from(
            b,
            r1,
            c1,
            d,
            s,
            p,
            (cap - 1) as nat,
        ));
    } else {
        lemma_run_cells(b, r, c, d, s, p, cap);
    }
}

/// The run total the win check computes for axis `d`: the stone itself plus
/// the runs counted outward in both directions, each capped at four.
pub open spec fn axis_total(b: Seq<Seq<i32>>, r: int, c: int, d: int, p: i32) -> int {
    1 + run_from(b, r, c, d, 1, p, 4) + run_from(b, r, c, d, -1, p, 4)
}

/// One step from (r, c) along axis `d` in direction `s`.
fn pos_step(r: i32, c: i32, d: usize, s: i32) -> (rc: (i32, i32))
    requires
        d < 4,
        s == 1 || s == -1,
        -16 <= r <= 16,
        -16 <= c <= 16,
    ensures
        rc.0 == line_r(r as int, d as int, s as int),
        rc.1 == line_c(c as int, d as int, s as int),
{
    match d {
        0 => (r, c + s),
        1 => (r + s, c),
        2 => (r + s, c + s),
        _ => (r + s, c - s),
    }
}

/// The cell `j` steps from (r, c) along axis `d`.
pub(crate) fn pos_at(r: i32, c: i32, d: usize, j: i32) -> (rc: (i32, i32))
    requires
        d < 4,
        -16 <= r <= 16,
        -16 <= c <= 16,
        -16 <= j <= 16,
    ensures
        rc.0 == line_r(r as int, d as int, j as int),
        rc.1 == line_c(c as int, d as int, j as int),
{
    match d {
        0 => (r, c + j),
        1 => (r + j, c),
        2 => (r + j, c + j),
        _ => (r + j, c - j),
    }
}

/// Counts the contiguous `p`-cells beyond (r, c) in direction `s` along axis
/// `d`, stopping at the first mismatch, board edge, or after `cap` cells.
pub(crate) fn run_len(
    board: &Vec<Vec<i32>>,
    r: i32,
    c: i32,
    d: usize,
    s: i32,
    p: i32,
    cap: u32,
) -> (n: u32)
    requires
        board_ok(bview(board)),
        in_board(r as int, c as int),
        d < 4,
        s == 1 || s == -1,
        cap <= 15,
    ensures
        n == run_from(bview(board), r as int, c as int, d as int, s as int, p, cap as nat),
        n <= cap,
    decreases cap,
{
    if cap == 0 {
        return 0;
    }
    let (r1, c1) = pos_step(r, c, d, s);
    if is_valid_position(r1, c1) {
        if cell_at(board, r1 as usize, c1 as usize) == p {
            return 1 + run_len(board, r1, c1, d, s, p, cap - 1);
        }
    }
    0
}

/// True iff the stone at (row, col) completes five in a row. Always false for
/// an empty cell.
pub fn check_win(board: &Vec<Vec<i32>>, row: usize, col: usize) -> (won: bool)
    requires
        board_ok(bview(board)),
        row < 15,
        col < 15,
    ensures
        won == win_at(bview(board), row as int, col as int),
        bview(board)[row as int][col as int] == 0 ==> !won,
{
    let ghost b = bview(board);
    let p = cell_at(board, row, col);
    if p == 0 {
        return false;
    }
    let mut d: usize = 0;
    while d < 4
        invariant
            board_ok(b),
            b == bview(board),
            row < 15,
            col < 15,
            p == b[row as int][col as int],
            p != 0,
            d <= 4,
            forall|dd: int| 0 <= dd < d ==> #[trigger] axis_total(b, row as int, col as int, dd, p) < 5,
        decreases 4 - d,
    {
        let fwd = run_len(board, row as i32, col as i32, d, 1, p, 4);
        let bwd = run_len(board, row as i32, col as i32, d, -1, p, 4);
        if 1 + fwd + bwd >= 5 {
            proof {
                lemma_axis_five_gives_window(b, row as int, col as int, d as int, p);
            }
            return true;
        }
        d = d + 1;
    }
    proof {
        if win_at(b, row as int, col as int) {
            let (dw, k) = choose|dw: int, k: int|
                0 <= dw < 4 && 0 <= k < 5 && #[trigger] window5(
                    b,
                    line_r(row as int, dw, -k),
                    line_c(col as int, dw, -k),
                    dw,
                    p,
                );
            lemma_window_gives_axis_five(b, row as int, col as int, dw, k, p);
            assert(axis_total(b, row as int, col as int, dw, p) < 5);
            assert(false);
        }
    }
    false
}

/// If the capped runs around (r, c) total at least five, the stone lies on a
/// five-window and wins.
pub(crate) proof fn lemma_axis_five_gives_window(b: Seq<Seq<i32>>, r: int, c: int, d: int, p: i32)
    requires
        board_ok(b),
        in_board(r, c),
        0 <= d < 4,
        p != 0,
        b[r][c] == p,
        axis_total(b, r, c, d, p) >= 5,
    ensures
        win_at(b, r, c),
{
    let nf = run_from(b, r, c, d, 1, p, 4);
    let nb = run_from(b, r, c, d, -1, p, 4);
    lemma_run_cells(b, r, c, d, 1, p, 4);
    lemma_run_cells(b, r, c, d, -1, p, 4);
    let k = nb;
    let sr = line_r(r, d, -k);
    let sc = line_c(c, d, -k);
    assert forall|j: int| 0 <= j < 5 implies in_board(
        #[trigger] line_r(sr, d, j),
        line_c(sc, d, j),
    ) && b[line_r(sr, d, j)][line_c(sc, d, j)] == p by {
        let o = j - k;
        assert(line_r(sr, d, j) == line_r(r, d, o));
        assert(line_c(sc, d, j) == line_c(c, d, o));
        if o == 0 {
            assert(line_r(r, d, 0) == r);
            assert(line_c(c, d, 0) == c);
        } else if o > 0 {
            assert(o <= nf);
            assert(stride(1, o) == o);
            assert(in_board(line_r(r, d, stride(1, o)), line_c(c, d, stride(1, o)))
                && b[line_r(r, d, stride(1, o))][line_c(c, d, stride(1, o))] == p);
        } else {
            assert(1 <= -o <= nb);
            assert(stride(-1, -o) == o);
            assert(in_board(line_r(r, d, stride(-1, -o)), line_c(c, d, stride(-1, -o)))
                && b[line_r(r, d, stride(-1, -o))][line_c(c, d, stride(-1, -o))] == p);
        }
    }
    assert(window5(b, line_r(r, d, -k), line_c(c, d, -k), d, b[r][c]));
}

/// Conversely, a five-window through (r, c) forces the capped runs along its
/// axis to total at least five.
proof fn lemma_window_gives_axis_five(b: Seq<Seq<i32>>, r: int, c: int, d: int, k: int, p: i32)
    requires
        board_ok(b),
        in_board(r, c),
        0 <= d < 4,
        0 <= k < 5,
        b[r][c] == p,
        window5(b, line_r(r, d, -k), line_c(c, d, -k), d, p),
    ensures
        axis_total(b, r, c, d, p) >= 5,
{
    let sr = line_r(r, d, -k);
    let sc = line_c(c, d, -k);
    assert forall|i: int| 1 <= i <= 4 - k implies in_board(
        #[trigger] line_r(r, d, stride(1, i)),
        line_c(c, d, stride(1, i)),
    ) && b[line_r(r, d, stride(1, i))][line_c(c, d, stride(1, i))] == p by {
        let j = i + k;
        assert(0 <= j < 5);
        assert(line_r(sr, d, j) == line_r(r, d, i));
        assert(line_c(sc, d, j) == line_c(c, d, i));
        assert(in_board(line_r(sr, d, j), line_c(sc, d, j))
            && b[line_r(sr, d, j)][line_c(sc, d, j)] == p);
        assert(stride(1, i) == i);
    }
    lemma_run_at_least(b, r, c, d, 1, p, 4, 4 - k);
    assert forall|i: int| 1 <= i <= k implies in_board(
        #[trigger] line_r(r, d, stride(-1, i)),
        line_c(c, d, stride(-1, i)),
    ) && b[line_r(r, d, stride(-1, i))][line_c(c, d, stride(-1, i))] == p by {
        let j = k - i;
        assert(0 <= j < 5);
        assert(line_r(sr, d, j) == line_r(r, d, -i));
        assert(line_c(sc, d, j) == line_c(c, d, -i));
        assert(in_board(line_r(sr, d, j), line_c(sc, d, j))
            && b[line_r(sr, d, j)][line_c(sc, d, j)] == p);
        assert(stride(-1, i) == -i);
    }
    lemma_run_at_least(b, r, c, d, -1, p, 4, k);
}

/// Placing a `p`-stone on the empty cell (r, c) completes five in a row.
pub open spec fn win_place(b: Seq<Seq<i32>>, r: int, c: int, p: i32) -> bool {
    in_board(r, c) && b[r][c] == 0 && win_at(place(b, r, c, p), r, c)
}

/// A win needs a stone: an empty examined cell never wins.
pub proof fn lemma_win_needs_stone(b: Seq<Seq<i32>>, r: int, c: int)
    requires
        b[r][c] == 0,
    ensures
        !win_at(b, r, c),
{
}

/// A run of exactly five contiguous same-player stones along an axis wins at
/// every one of its five positions.
pub proof fn lemma_five_in_row_wins(b: Seq<Seq<i32>>, r0: int, c0: int, d: int, p: i32)
    requires
        board_ok(b),
        p != 0,
        0 <= d < 4,
        forall|j: int|
            0 <= j < 5 ==> in_board(#[trigger] line_r(r0, d, j), line_c(c0, d, j))
                && b[line_r(r0, d, j)][line_c(c0, d, j)] == p,
    ensures
        forall|m: int| 0 <= m < 5 ==> #[trigger] win_at(b, line_r(r0, d, m), line_c(c0, d, m)),
{
    assert forall|m: int| 0 <= m < 5 implies #[trigger] win_at(b, line_r(r0, d, m), line_c(c0, d, m)) by {
        let rm = line_r(r0, d, m);
        let cm = line_c(c0, d, m);
        assert(in_board(rm, cm) && b[rm][cm] == p);
        assert(line_r(rm, d, -m) == r0);
        assert(line_c(cm, d, -m) == c0);
        assert(window5(b, line_r(rm, d, -m), line_c(cm, d, -m), d, b[rm][cm]));
    }
}

/// Positions along one axis are distinct for distinct step counts.
pub(crate) proof fn lemma_line_injective(sr: int, sc: int, d: int, a: int, j: int)
    requires
        0 <= d < 4,
        line_r(sr, d, a) == line_r(sr, d, j),
        line_c(sc, d, a) == line_c(sc, d, j),
    ensures
        a == j,
{
}

/// If the only `p`-stones on the board are a run of exactly four contiguous
/// cells along one axis, no cell of that run wins: four stones cannot cover a
/// five-window.
pub proof fn lemma_four_in_row_no_win(b: Seq<Seq<i32>>, r0: int, c0: int, d: int, p: i32)
    requires
        board_ok(b),
        p != 0,
        0 <= d < 4,
        forall|j: int|
            0 <= j < 4 ==> in_board(#[trigger] line_r(r0, d, j), line_c(c0, d, j))
                && b[line_r(r0, d, j)][line_c(c0, d, j)] == p,
        forall|rr: int, cc: int|
            in_board(rr, cc) && b[rr][cc] == p ==> exists|j: int|
                0 <= j < 4 && rr == #[trigger] line_r(r0, d, j) && cc == line_c(c0, d, j),
    ensures
        forall|m: int| 0 <= m < 4 ==> !win_at(b, #[trigger] line_r(r0, d, m), line_c(c0, d, m)),
{
    assert forall|m: int| 0 <= m < 4 implies !win_at(b, #[trigger] line_r(r0, d, m), line_c(c0, d, m)) by {
        let rm = line_r(r0, d, m);
        let cm = line_c(c0, d, m);
        assert(b[rm][cm] == p);
        if win_at(b, rm, cm) {
            let (dw, k) = choose|dw: int, k: int|
                0 <= dw < 4 && 0 <= k < 5 && #[trigger] window5(
                    b,
                    line_r(rm, dw, -k),
                    line_c(cm, dw, -k),
                    dw,
                    p,
                );
            let sr = line_r(rm, dw, -k);
            let sc = line_c(cm, dw, -k);
            let f = |i: int| choose|j: int|
                0 <= j < 4 && line_r(sr, dw, i) == line_r(r0, d, j) && line_c(sc, dw, i)
                    == line_c(c0, d, j);
            assert forall|i: int| 0 <= i < 5 implies 0 <= #[trigger] f(i) < 4 && line_r(sr, dw, i)
                == line_r(r0, d, f(i)) && line_c(sc, dw, i) == line_c(c0, d, f(i)) by {
                assert(in_board(line_r(sr, dw, i), line_c(sc, dw, i))
                    && b[line_r(sr, dw, i)][line_c(sc, dw, i)] == p);
            }
            assert(f(0) == f(1) || f(0) == f(2) || f(0) == f(3) || f(0) == f(4) || f(1) == f(2)
                || f(1) == f(3) || f(1) == f(4) || f(2) == f(3) || f(2) == f(4) || f(3) == f(4));
            lemma_same_image_same_step(sr, sc, dw, r0, c0, d, f, 0, 1);
            lemma_same_image_same_step(sr, sc, dw, r0, c0, d, f, 0, 2);
            lemma_same_image_same_step(sr, sc, dw, r0, c0, d, f, 0, 3);
            lemma_same_image_same_step(sr, sc, dw, r0, c0, d, f, 0, 4);
            lemma_same_image_same_step(sr, sc, dw, r0, c0, d, f, 1, 2);
            lemma_same_image_same_step(sr, sc, dw, r0, c0, d, f, 1, 3);
            lemma_same_image_same_step(sr, sc, dw, r0, c0, d, f, 1, 4);
            lemma_same_image_same_step(sr, sc, dw, r0, c0, d, f, 2, 3);
            lemma_same_image_same_step(sr, sc, dw, r0, c0, d, f, 2, 4);
            lemma_same_image_same_step(sr, sc, dw, r0, c0, d, f, 3, 4);
            assert(false);
        }
    }
}

/// Two distinct window steps cannot land on the same run cell.
proof fn lemma_same_image_same_step(
    sr: int,
    sc: int,
    dw: int,
    r0: int,
    c0: int,
    d: int,
    f: spec_fn(int) -> int,
    a: int,
    i: int,
)
    requires
        0 <= dw < 4,
        0 <= d < 4,
        0 <= a < 5,
        0 <= i < 5,
        a != i,
        line_r(sr, dw, a) == line_r(r0, d, f(a)),
        line_c(sc, dw, a) == line_c(c0, d, f(a)),
        line_r(sr, dw, i) == line_r(r0, d, f(i)),
        line_c(sc, dw, i) == line_c(c0, d, f(i)),
    ensures
        f(a) != f(i),
{
    if f(a) == f(i) {
        lemma_line_injective(sr, sc, dw, a, i);
    }
}

} // verus!

//! The move generator: collects the empty cells within two cells of any
//! stone, ranks them (center distance, then local density, then axis offsets
//! from center), and truncates to a fixed cap. An empty board yields the
//! center; a board with stones but no nearby empty cell falls back to every
//! empty cell in row-major order.

use vstd::prelude::*;
use crate::board::{bview, board_ok, center_dist, in_board, stone_count, cell_at, count_moves,
    is_valid_position, lemma_no_stones_all_empty};

verus! {

/// Hard cap on the number of candidates returned.
pub const MAX_MOVES: usize = 15;

/// An empty cell within Chebyshev distance 2 of some stone.
pub open spec fn near_stone(b: Seq<Seq<i32>>, r: int, c: int) -> bool {
    &&& in_board(r, c)
    &&& b[r][c] == 0
    &&& exists|rr: int, cc: int|
        r - 2 <= rr <= r + 2 && c - 2 <= cc <= c + 2 && in_board(rr, cc) && #[trigger] b[rr][cc]
            != 0
}

/// 1 if (r, c) is an occupied board cell, else 0.
pub open spec fn occ(b: Seq<Seq<i32>>, r: int, c: int) -> int {
    if in_board(r, c) && b[r][c] != 0 {
        1
    } else {
        0
    }
}

/// Number of occupied cells among the eight neighbors of (r, c).
pub open spec fn nbr_count(b: Seq<Seq<i32>>, r: int, c: int) -> int {
    occ(b, r - 1, c - 1) + occ(b, r - 1, c) + occ(b, r - 1, c + 1) + occ(b, r, c - 1) + occ(
        b,
        r,
        c + 1,
    ) + occ(b, r + 1, c - 1) + occ(b, r + 1, c) + occ(b, r + 1, c + 1)
}

/// Distance of `x` from the center coordinate 7.
pub open spec fn off_center(x: int) -> int {
    if x >= 7 {
        x - 7
    } else {
        7 - x
    }
}

/// The strict ranking of candidate cells: nearer the center first, then
/// denser neighborhoods, then smaller row and column offsets from center,
/// with row-major order as the final tie-break (a total order).
pub open spec fn key_lt(b: Seq<Seq<i32>>, p: (int, int), q: (int, int)) -> bool {
    let dp = center_dist(p.0, p.1);
    let dq = center_dist(q.0, q.1);
    let np = nbr_count(b, p.0, p.1);
    let nq = nbr_count(b, q.0, q.1);
    let rp = off_center(p.0);
    let rq = off_center(q.0);
    let cp = off_center(p.1);
    let cq = off_center(q.1);
    if dp != dq {
        dp < dq
    } else if np != nq {
        np > nq
    } else if rp != rq {
        rp < rq
    } else if cp != cq {
        cp < cq
    } else if p.0 != q.0 {
        p.0 < q.0
    } else {
        p.1 < q.1
    }
}

/// The ranking is a strict total order on cells.
pub proof fn lemma_key_total(b: Seq<Seq<i32>>, p: (int, int), q: (int, int))
    ensures
        p == q || key_lt(b, p, q) || key_lt(b, q, p),
        !(key_lt(b, p, q) && key_lt(b, q, p)),
{
}

pub proof fn lemma_key_trans(b: Seq<Seq<i32>>, p: (int, int), q: (int, int), t: (int, int))
    requires
        key_lt(b, p, q),
        key_lt(b, q, t),
    ensures
        key_lt(b, p, t),
{
}

/// The integer pair a candidate denotes.
pub open spec fn cp(e: (usize, usize)) -> (int, int) {
    (e.0 as int, e.1 as int)
}

/// The integer pairs a candidate vector denotes.
pub open spec fn cps(s: Seq<(usize, usize)>) -> Seq<(int, int)> {
    Seq::new(s.len(), |i: int| cp(s[i]))
}

/// The integer pair an optional candidate denotes.
pub open spec fn opt_cp(o: Option<(usize, usize)>) -> Option<(int, int)> {
    match o {
        Option::None => None,
        Option::Some(e) => Some(cp(e)),
    }
}

/// The last already-chosen candidate, if any.
pub open spec fn last_pick(s: Seq<(usize, usize)>) -> Option<(int, int)> {
    if s.len() == 0 {
        None
    } else {
        Some(cp(s[s.len() - 1]))
    }
}

/// Whether the near cell (r, c) is still selectable once `last` was chosen.
pub open spec fn selectable(b: Seq<Seq<i32>>, last: Option<(int, int)>, r: int, c: int) -> bool {
    near_stone(b, r, c) && (match last {
        Option::None => true,
        Option::Some(l) => key_lt(b, l, (r, c)),
    })
}

/// Row-major scan for the lowest-ranked selectable cell after `last`,
/// from (r, c) on, with the best cell found so far in `cur`.
pub open spec fn scan_min(
    b: Seq<Seq<i32>>,
    last: Option<(int, int)>,
    r: int,
    c: int,
    cur: Option<(int, int)>,
) -> Option<(int, int)>
    decreases 15 - r, 16 - c,
{
    if r < 0 || c < 0 || r >= 15 {
        cur
    } else if c >= 15 {
        scan_min(b, last, r + 1, 0, cur)
    } else {
        let take = selectable(b, last, r, c) && (match cur {
            Option::None => true,
            Option::Some(q) => key_lt(b, (r, c), q),
        });
        let cur2 = if take {
            Some((r, c))
        } else {
            cur
        };
        scan_min(b, last, r, c + 1, cur2)
    }
}

/// The ranked near-cell candidates: repeated minimum selection, at most
/// `fuel` many.
pub open spec fn sel_list(b: Seq<Seq<i32>>, last: Option<(int, int)>, fuel: nat) -> Seq<(int, int)>
    decreases fuel,
{
    if fuel == 0 {
        Seq::empty()
    } else {
        match scan_min(b, last, 0, 0, None) {
            Option::None => Seq::empty(),
            Option::Some(q) => seq![q] + sel_list(b, Some(q), (fuel - 1) as nat),
        }
    }
}

/// Every empty cell from (r, c) on, in row-major order.
pub open spec fn empties_from(b: Seq<Seq<i32>>, r: int, c: int) -> Seq<(int, int)>
    decreases 15 - r, 16 - c,
{
    if r < 0 || c < 0 || r >= 15 {
        Seq::empty()
    } else if c >= 15 {
        empties_from(b, r + 1, 0)
    } else if b[r][c] == 0 {
        seq![(r, c)] + empties_from(b, r, c + 1)
    } else {
        empties_from(b, r, c + 1)
    }
}

/// The exact candidate list the generator returns, as integer pairs: the
/// center on an empty board, the ranked near cells otherwise, and all empty
/// cells when no near cell exists.
pub open spec fn candidate_list(b: Seq<Seq<i32>>) -> Seq<(int, int)> {
    if stone_count(b) == 0 {
        seq![(7int, 7int)]
    } else {
        let near = sel_list(b, None, 15);
        if near.len() > 0 {
            near
        } else {
            empties_from(b, 0, 0)
        }
    }
}

/// 1 if (r, c) is an occupied board cell, else 0 (signed coordinates).
fn occ_at(board: &Vec<Vec<i32>>, r: i32, c: i32) -> (n: u32)
    requires
        board_ok(bview(board)),
        -16 <= r <= 16,
        -16 <= c <= 16,
    ensures
        n == occ(bview(board), r as int, c as int),
{
    if is_valid_position(r, c) {
        if cell_at(board, r as usize, c as usize) != 0 {
            1
        } else {
            0
        }
    } else {
        0
    }
}

/// Counts the occupied cells among the eight neighbors of (row, col).
fn neighbor_count(board: &Vec<Vec<i32>>, row: usize, col: usize) -> (n: u32)
    requires
        board_ok(bview(board)),
        row < 15,
        col < 15,
    ensures
        n == nbr_count(bview(board), row as int, col as int),
        n <= 8,
{
    let r = row as i32;
    let c = col as i32;
    occ_at(board, r - 1, c - 1) + occ_at(board, r - 1, c) + occ_at(board, r - 1, c + 1) + occ_at(
        board,
        r,
        c - 1,
    ) + occ_at(board, r, c + 1) + occ_at(board, r + 1, c - 1) + occ_at(board, r + 1, c) + occ_at(
        board,
        r + 1,
        c + 1,
    )
}

/// True iff `p` ranks strictly before `q`.
fn key_less(board: &Vec<Vec<i32>>, p: (usize, usize), q: (usize, usize)) -> (r: bool)
    requires
        board_ok(bview(board)),
        p.0 < 15,
        p.1 < 15,
        q.0 < 15,
        q.1 < 15,
    ensures
        r == key_lt(bview(board), cp(p), cp(q)),
{
    let dp = dist7(p.0) + dist7(p.1);
    let dq = dist7(q.0) + dist7(q.1);
    let np = neighbor_count(board, p.0, p.1);
    let nq = neighbor_count(board, q.0, q.1);
    let rp = dist7(p.0);
    let rq = dist7(q.0);
    let cpp = dist7(p.1);
    let cq = dist7(q.1);
    if dp != dq {
        dp < dq
    } else if np != nq {
        np > nq
    } else if rp != rq {
        rp < rq
    } else if cpp != cq {
        cpp < cq
    } else if p.0 != q.0 {
        p.0 < q.0
    } else {
        p.1 < q.1
    }
}

/// Distance of a coordinate from the center coordinate 7.
pub(crate) fn dist7(x: usize) -> (d: u32)
    requires
        x < 15,
    ensures
        d == off_center(x as int),
        d <= 7,
{
    if x >= 7 {
        (x - 7) as u32
    } else {
        (7 - x) as u32
    }
}

/// True iff (row, col) is an empty cell within two cells of a stone.
fn is_near(board: &Vec<Vec<i32>>, row: usize, col: usize) -> (r: bool)
    requires
        board_ok(bview(board)),
        row < 15,
        col < 15,
    ensures
        r == near_stone(bview(board), row as int, col as int),
{
    let ghost b = bview(board);
    if cell_at(board, row, col) != 0 {
        return false;
    }
    let r0 = row as i32;
    let c0 = col as i32;
    let mut i: i32 = -2;
    while i <= 2
        invariant
            board_ok(b),
            b == bview(board),
            row < 15,
            col < 15,
            r0 == row as i32,
            c0 == col as i32,
            b[row as int][col as int] == 0,
            -2 <= i <= 3,
            forall|rr: int, cc: int|
                row - 2 <= rr < row + i && col - 2 <= cc <= col + 2 && in_board(rr, cc)
                    ==> #[trigger] b[rr][cc] == 0,
        decreases 3 - i,
    {
        let mut j: i32 = -2;
        while j <= 2
            invariant
                board_ok(b),
                b == bview(board),
                row < 15,
                col < 15,
                r0 == row as i32,
                c0 == col as i32,
                b[row as int][col as int] == 0,
                -2 <= i <= 2,
                -2 <= j <= 3,
                forall|rr: int, cc: int|
                    row - 2 <= rr < row + i && col - 2 <= cc <= col + 2 && in_board(rr, cc)
                        ==> #[trigger] b[rr][cc] == 0,
                forall|cc: int|
                    col - 2 <= cc < col + j && in_board(row + i, cc) ==> #[trigger] b[row + i][cc]
                        == 0,
            decreases 3 - j,
        {
            let rr = r0 + i;
            let cc = c0 + j;
            if is_valid_position(rr, cc) {
                if cell_at(board, rr as usize, cc as usize) != 0 {
                    proof {
                        assert(b[rr as int][cc as int] != 0);
                        assert(row - 2 <= rr as int <= row + 2);
                        assert(col - 2 <= cc as int <= col + 2);
                        assert(near_stone(b, row as int, col as int));
                    }
                    return true;
                }
            }
            j = j + 1;
        }
        i = i + 1;
    }
    false
}

/// Produces the ranked candidate set: the center alone on an empty board;
/// otherwise the empty cells near stones, ranked and capped at `MAX_MOVES`;
/// otherwise (no stone has an empty cell nearby) every empty cell in
/// row-major order.
pub fn get_possible_moves(board: &Vec<Vec<i32>>) -> (mv: Vec<(usize, usize)>)
    requires
        board_ok(bview(board)),
    ensures
        forall|i: int|
            0 <= i < mv@.len() ==> in_board((#[trigger] mv@[i]).0 as int, mv@[i].1 as int) && bview(
                board,
            )[mv@[i].0 as int][mv@[i].1 as int] == 0,
        (exists|r: int, c: int| in_board(r, c) && #[trigger] bview(board)[r][c] == 0)
            ==> mv@.len() > 0,
        stone_count(bview(board)) == 0 ==> mv@ == seq![(7usize, 7usize)],
        cps(mv@) == candidate_list(bview(board)),
        stone_count(bview(board)) != 0 && (exists|r: int, c: int|
            #[trigger] near_stone(bview(board), r, c)) ==> {
            &&& mv@.len() <= 15
            &&& forall|i: int|
                0 <= i < mv@.len() ==> near_stone(bview(board), (#[trigger] mv@[i]).0 as int, mv@[i].1 as int)
            &&& forall|i: int, j: int|
                0 <= i < j < mv@.len() ==> key_lt(bview(board), cp(#[trigger] mv@[i]), cp(#[trigger] mv@[j]))
            &&& forall|r: usize, c: usize|
                near_stone(bview(board), r as int, c as int) && !(#[trigger] mv@.contains((r, c)))
                    ==> mv@.len() == 15 && key_lt(bview(board), cp(mv@[mv@.len() - 1]), (r as int, c as int))
        },
        stone_count(bview(board)) != 0 && !(exists|r: int, c: int|
            #[trigger] near_stone(bview(board), r, c)) ==> {
            &&& forall|i: int, j: int|
                0 <= i < j < mv@.len() ==> (#[trigger] mv@[i]).0 as int * 15 + mv@[i].1 < (
                #[trigger] mv@[j]).0 as int * 15 + mv@[j].1
            &&& forall|r: usize, c: usize|
                r < 15 && c < 15 && bview(board)[r as int][c as int] == 0 ==> mv@.contains((r, c))
        },
{
    let ghost b = bview(board);
    let stones = count_moves(board);
    if stones == 0 {
        proof {
            lemma_no_stones_all_empty(b);
        }
        let mut mv: Vec<(usize, usize)> = Vec::new();
        mv.push((7, 7));
        proof {
            assert(mv@ =~= seq![(7usize, 7usize)]);
            assert(cps(mv@) =~= seq![(7int, 7int)]);
        }
        return mv;
    }
    let mut mv: Vec<(usize, usize)> = Vec::new();
    proof {
        assert(cps(mv@) + sel_list(b, Option::None, 15nat) =~= sel_list(b, Option::None, 15nat));
    }
    loop
        invariant
            board_ok(b),
            b == bview(board),
            mv@.len() <= 15,
            sel_list(b, Option::None, 15nat) == cps(mv@) + sel_list(
                b,
                last_pick(mv@),
                (15 - mv@.len()) as nat,
            ),
            forall|i: int|
                0 <= i < mv@.len() ==> near_stone(b, (#[trigger] mv@[i]).0 as int, mv@[i].1 as int),
            forall|i: int, j: int|
                0 <= i < j < mv@.len() ==> key_lt(b, cp(#[trigger] mv@[i]), cp(#[trigger] mv@[j])),
            forall|r: usize, c: usize|
                near_stone(b, r as int, c as int) && !(#[trigger] mv@.contains((r, c))) ==> mv@.len() == 0 || key_lt(
                    b,
                    cp(#[trigger] mv@[mv@.len() - 1]),
                    (r as int, c as int),
                ),
        ensures
            mv@.len() <= 15,
            sel_list(b, Option::None, 15nat) == cps(mv@),
            forall|i: int|
                0 <= i < mv@.len() ==> near_stone(b, (#[trigger] mv@[i]).0 as int, mv@[i].1 as int),
            forall|i: int, j: int|
                0 <= i < j < mv@.len() ==> key_lt(b, cp(#[trigger] mv@[i]), cp(#[trigger] mv@[j])),
            forall|r: usize, c: usize|
                near_stone(b, r as int, c as int) && !(#[trigger] mv@.contains((r, c))) ==> mv@.len() == 15
                    && key_lt(b, cp(mv@[mv@.len() - 1]), (r as int, c as int)),
            (exists|r: int, c: int| #[trigger] near_stone(b, r, c)) ==> mv@.len() > 0,
        decreases 16 - mv@.len(),
    {
        if mv.len() >= 15 {
            proof {
                assert(sel_list(b, last_pick(mv@), 0nat) =~= Seq::<(int, int)>::empty());
                assert(cps(mv@) + Seq::<(int, int)>::empty() =~= cps(mv@));
            }
            break;
        }
        let best = scan_best(board, &mv);
        match best {
            None => {
                proof {
                    assert forall|r: usize, c: usize|
                        near_stone(b, r as int, c as int) && !(#[trigger] mv@.contains(
                            (r, c),
                        )) implies mv@.len() == 15 && key_lt(
                        b,
                        cp(mv@[mv@.len() - 1]),
                        (r as int, c as int),
                    ) by {
                        assert(r < 15 && c < 15);
                        assert(eligible(b, mv@, r as int, c as int));
                        assert(!eligible(b, mv@, r as int, c as int));
                    }
                    if mv@.len() == 0 && exists|r: int, c: int| #[trigger] near_stone(b, r, c) {
                        let (r, c) = choose|r: int, c: int| #[trigger] near_stone(b, r, c);
                        let ru = r as usize;
                        let cu = c as usize;
                        assert(near_stone(b, ru as int, cu as int));
                        assert(eligible(b, mv@, ru as int, cu as int));
                        assert(!eligible(b, mv@, ru as int, cu as int));
                    }
                    assert(scan_min(b, last_pick(mv@), 0, 0, Option::None) is None);
                    assert(sel_list(b, last_pick(mv@), (15 - mv@.len()) as nat) =~= Seq::<(
                        int,
                        int,
                    )>::empty());
                    assert(cps(mv@) + Seq::<(int, int)>::empty() =~= cps(mv@));
                }
                break;
            },
            Some(e) => {
                let ghost prev = mv@;
                let ghost fuel = (15 - prev.len()) as nat;
                mv.push(e);
                proof {
                    assert(scan_min(b, last_pick(prev), 0, 0, Option::None) == Some(cp(e)));
                    assert(sel_list(b, last_pick(prev), fuel) == seq![cp(e)] + sel_list(
                        b,
                        Some(cp(e)),
                        (fuel - 1) as nat,
                    ));
                    assert(cps(mv@) =~= cps(prev) + seq![cp(e)]);
                    assert(last_pick(mv@) == Some(cp(e)));
                    assert((cps(prev) + seq![cp(e)]) + sel_list(b, Some(cp(e)), (fuel - 1) as nat)
                        =~= cps(prev) + (seq![cp(e)] + sel_list(b, Some(cp(e)), (fuel - 1) as nat)));
                    assert(sel_list(b, Option::None, 15nat) == cps(mv@) + sel_list(
                        b,
                        last_pick(mv@),
                        (15 - mv@.len()) as nat,
                    ));
                    assert forall|i: int, j: int| 0 <= i < j < mv@.len() implies key_lt(
                        b,
                        cp(#[trigger] mv@[i]),
                        cp(#[trigger] mv@[j]),
                    ) by {
                        if j == mv@.len() - 1 {
                            if i < prev.len() - 1 {
                                assert(key_lt(b, cp(prev[i]), cp(prev[prev.len() - 1])));
                                lemma_key_trans(
                                    b,
                                    cp(prev[i]),
                                    cp(prev[prev.len() - 1]),
                                    cp(e),
                                );
                            }
                        }
                    }
                    assert forall|r: usize, c: usize|
                        near_stone(b, r as int, c as int) && !(#[trigger] mv@.contains((r, c))) implies mv@.len()
                        == 0 || key_lt(b, cp(mv@[mv@.len() - 1]), (r as int, c as int)) by {
                        assert(!prev.contains((r, c))) by {
                            if prev.contains((r, c)) {
                                let i = choose|i: int| 0 <= i < prev.len() && prev[i] == (r, c);
                                assert(mv@[i] == (r, c));
                            }
                        }
                        assert(eligible(b, prev, r as int, c as int));
                        assert((r, c) != e) by {
                            if (r, c) == e {
                                assert(mv@[mv@.len() - 1] == (r, c));
                            }
                        }
                        assert(r < 15 && c < 15);
                        assert(!key_lt(b, (r as int, c as int), cp(e)));
                        lemma_key_total(b, (r as int, c as int), cp(e));
                    }
                }
            },
        }
    }
    if mv.len() > 0 {
        proof {
            assert(near_stone(b, (mv@[0]).0 as int, mv@[0].1 as int));
            assert(sel_list(b, Option::None, 15nat).len() == mv@.len() > 0);
            assert(cps(mv@) == candidate_list(b));
        }
        return mv;
    }
    proof {
        assert(!(exists|r: int, c: int| #[trigger] near_stone(b, r, c)));
        assert(sel_list(b, Option::None, 15nat).len() == 0);
        assert(candidate_list(b) == empties_from(b, 0, 0));
    }
    {
        // No stone has an empty neighborhood cell: fall back to every empty
        // cell in row-major order.
        proof {
            assert(cps(mv@) + empties_from(b, 0, 0) =~= empties_from(b, 0, 0));
        }
        let mut r: usize = 0;
        while r < 15
            invariant
                board_ok(b),
                b == bview(board),
                r <= 15,
                empties_from(b, 0, 0) == cps(mv@) + empties_from(b, r as int, 0),
                forall|i: int|
                    0 <= i < mv@.len() ==> in_board((#[trigger] mv@[i]).0 as int, mv@[i].1 as int)
                        && b[mv@[i].0 as int][mv@[i].1 as int] == 0,
                forall|i: int, j: int|
                    0 <= i < j < mv@.len() ==> (#[trigger] mv@[i]).0 as int * 15 + mv@[i].1 < (
                    #[trigger] mv@[j]).0 as int * 15 + mv@[j].1,
                forall|i: int| 0 <= i < mv@.len() ==> (#[trigger] mv@[i]).0 < r,
                forall|rr: usize, cc: usize|
                    rr < r && cc < 15 && b[rr as int][cc as int] == 0 ==> mv@.contains((rr, cc)),
            decreases 15 - r,
        {
            let mut c: usize = 0;
            while c < 15
                invariant
                    board_ok(b),
                    b == bview(board),
                    r < 15,
                    c <= 15,
                    empties_from(b, 0, 0) == cps(mv@) + empties_from(b, r as int, c as int),
                    forall|i: int|
                        0 <= i < mv@.len() ==> in_board((#[trigger] mv@[i]).0 as int, mv@[i].1 as int)
                            && b[mv@[i].0 as int][mv@[i].1 as int] == 0,
                    forall|i: int, j: int|
                        0 <= i < j < mv@.len() ==> (#[trigger] mv@[i]).0 as int * 15 + mv@[i].1 < (
                        #[trigger] mv@[j]).0 as int * 15 + mv@[j].1,
                    forall|i: int|
                        0 <= i < mv@.len() ==> (#[trigger] mv@[i]).0 < r || (mv@[i].0 == r && mv@[i].1
                            < c),
                    forall|rr: usize, cc: usize|
                        (rr < r || (rr == r && cc < c)) && rr < 15 && cc < 15 && b[rr as int][cc as int]
                            == 0 ==> mv@.contains((rr, cc)),
                decreases 15 - c,
            {
                if cell_at(board, r, c) == 0 {
                    let ghost prev = mv@;
                    mv.push((r, c));
                    proof {
                        assert(empties_from(b, r as int, c as int) == seq![(r as int, c as int)]
                            + empties_from(b, r as int, c as int + 1));
                        assert(cps(mv@) =~= cps(prev) + seq![(r as int, c as int)]);
                        assert((cps(prev) + seq![(r as int, c as int)]) + empties_from(
                            b,
                            r as int,
                            c as int + 1,
                        ) =~= cps(prev) + (seq![(r as int, c as int)] + empties_from(
                            b,
                            r as int,
                            c as int + 1,
                        )));
                        assert forall|rr: usize, cc: usize|
                            (rr < r || (rr == r && cc < c + 1)) && rr < 15 && cc < 15 && b[rr as int][cc as int]
                                == 0 implies mv@.contains((rr, cc)) by {
                            if rr == r && cc == c {
                                assert(mv@[mv@.len() - 1] == (r, c));
                            } else {
                                assert(prev.contains((rr, cc)));
                                let i = choose|i: int| 0 <= i < prev.len() && prev[i] == (rr, cc);
                                assert(mv@[i] == (rr, cc));
                            }
                        }
                    }
                } else {
                    proof {
                        assert(empties_from(b, r as int, c as int) == empties_from(
                            b,
                            r as int,
                            c as int + 1,
                        ));
                    }
                }
                c = c + 1;
            }
            proof {
                assert(empties_from(b, r as int, 15) == empties_from(b, r as int + 1, 0));
            }
            r = r + 1;
        }
        proof {
            assert(empties_from(b, 15, 0) =~= Seq::<(int, int)>::empty());
            assert(cps(mv@) + Seq::<(int, int)>::empty() =~= cps(mv@));
            assert(cps(mv@) == candidate_list(b));
            if exists|rr: int, cc: int| in_board(rr, cc) && #[trigger] b[rr][cc] == 0 {
                let (rr, cc) = choose|rr: int, cc: int| in_board(rr, cc) && #[trigger] b[rr][cc]
                    == 0;
                assert(mv@.contains(((rr as usize), (cc as usize))));
            }
        }
    }
    mv
}

/// A cell still to be taken: near a stone and ranked after everything
/// already chosen.
pub open spec fn eligible(b: Seq<Seq<i32>>, mv: Seq<(usize, usize)>, r: int, c: int) -> bool {
    selectable(b, last_pick(mv), r, c)
}

/// Finds the lowest-ranked still-eligible near cell, if any.
fn scan_best(board: &Vec<Vec<i32>>, mv: &Vec<(usize, usize)>) -> (best: Option<(usize, usize)>)
    requires
        board_ok(bview(board)),
        forall|i: int| 0 <= i < mv@.len() ==> (#[trigger] mv@[i]).0 < 15 && mv@[i].1 < 15,
    ensures
        match best {
            Some(e) => {
                &&& e.0 < 15
                &&& e.1 < 15
                &&& eligible(bview(board), mv@, e.0 as int, e.1 as int)
                &&& forall|r: usize, c: usize|
                    r < 15 && c < 15 && eligible(bview(board), mv@, r as int, c as int) ==> !key_lt(
                        bview(board),
                        (r as int, c as int),
                        cp(e),
                    )
            },
            None => forall|r: usize, c: usize|
                r < 15 && c < 15 ==> !eligible(bview(board), mv@, r as int, c as int),
        },
        opt_cp(best) == scan_min(bview(board), last_pick(mv@), 0, 0, Option::None),
{
    let ghost b = bview(board);
    let ghost last = last_pick(mv@);
    let mut best: Option<(usize, usize)> = None;
    let mut r: usize = 0;
    while r < 15
        invariant
            board_ok(b),
            b == bview(board),
            last == last_pick(mv@),
            r <= 15,
            scan_min(b, last, r as int, 0, opt_cp(best)) == scan_min(b, last, 0, 0, Option::None),
            forall|i: int| 0 <= i < mv@.len() ==> (#[trigger] mv@[i]).0 < 15 && mv@[i].1 < 15,
            match best {
                Some(e) => {
                    &&& e.0 < 15
                    &&& e.1 < 15
                    &&& eligible(b, mv@, e.0 as int, e.1 as int)
                    &&& forall|rr: usize, cc: usize|
                        rr < r && cc < 15 && eligible(b, mv@, rr as int, cc as int) ==> !key_lt(
                            b,
                            (rr as int, cc as int),
                            cp(e),
                        )
                },
                None => forall|rr: usize, cc: usize|
                    rr < r && cc < 15 ==> !eligible(b, mv@, rr as int, cc as int),
            },
        decreases 15 - r,
    {
        let mut c: usize = 0;
        while c < 15
            invariant
                board_ok(b),
                b == bview(board),
                last == last_pick(mv@),
                r < 15,
                c <= 15,
                scan_min(b, last, r as int, c as int, opt_cp(best)) == scan_min(
                    b,
                    last,
                    0,
                    0,
                    Option::None,
                ),
                forall|i: int| 0 <= i < mv@.len() ==> (#[trigger] mv@[i]).0 < 15 && mv@[i].1 < 15,
                match best {
                    Some(e) => {
                        &&& e.0 < 15
                        &&& e.1 < 15
                        &&& eligible(b, mv@, e.0 as int, e.1 as int)
                        &&& forall|rr: usize, cc: usize|
                            ((rr < r && cc < 15) || (rr == r && cc < c)) && eligible(
                                b,
                                mv@,
                                rr as int,
                                cc as int,
                            ) ==> !key_lt(b, (rr as int, cc as int), cp(e))
                    },
                    None => forall|rr: usize, cc: usize|
                        ((rr < r && cc < 15) || (rr == r && cc < c)) ==> !eligible(
                            b,
                            mv@,
                            rr as int,
                            cc as int,
                        ),
                },
            decreases 15 - c,
        {
            let ghost bst0 = opt_cp(best);
            let mut ok = is_near(board, r, c);
            if ok && mv.len() > 0 {
                let prior = mv[mv.len() - 1];
                ok = key_less(board, prior, (r, c));
            }
            proof {
                assert(ok == selectable(b, last, r as int, c as int));
            }
            if ok {
                let take = match best {
                    None => true,
                    Some(e) => key_less(board, (r, c), e),
                };
                if take {
                    proof {
                        if best.is_some() {
                            let e = best->0;
                            assert forall|rr: usize, cc: usize|
                                ((rr < r && cc < 15) || (rr == r && cc < c)) && eligible(
                                    b,
                                    mv@,
                                    rr as int,
                                    cc as int,
                                ) implies !key_lt(b, (rr as int, cc as int), (r as int, c as int)) by {
                                assert(!key_lt(b, (rr as int, cc as int), cp(e)));
                                if key_lt(b, (rr as int, cc as int), (r as int, c as int)) {
                                    lemma_key_total(b, (rr as int, cc as int), cp(e));
                                    lemma_key_trans(
                                        b,
                                        cp(e),
                                        (rr as int, cc as int),
                                        (r as int, c as int),
                                    );
                                }
                            }
                        }
                    }
                    best = Some((r, c));
                } else {
                    proof {
                        let e = best->0;
                        lemma_key_total(b, (r as int, c as int), cp(e));
                    }
                }
            }
            proof {
                assert(scan_min(b, last, r as int, c as int, bst0) == scan_min(
                    b,
                    last,
                    r as int,
                    c as int + 1,
                    opt_cp(best),
                ));
            }
            c = c + 1;
        }
        proof {
            assert(scan_min(b, last, r as int, 15, opt_cp(best)) == scan_min(
                b,
                last,
                r as int + 1,
                0,
                opt_cp(best),
            ));
        }
        r = r + 1;
    }
    proof {
        assert(scan_min(b, last, 15, 0, opt_cp(best)) == opt_cp(best));
    }
    best
}

} // verus!

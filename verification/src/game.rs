//! Game-state management: creating a game and applying a move, which
//! validates, places the current player's stone, detects a win, and switches
//! turns. On failure the state is left exactly as it was.

use vstd::prelude::*;
use crate::board::{bview, board_ok, in_board, place, cell_at, set_cell};
use crate::win::{win_at, check_win};

verus! {

/// A game in progress: the board, whose turn it is, and the two configured
/// player identifiers.
#[derive(Debug, Clone)]
pub struct GameState {
    pub board: Vec<Vec<i32>>,
    pub current_player: i32,
    pub ai_player: i32,
    pub human_player: i32,
}

/// Why a move was rejected.
#[derive(Debug, Clone, Copy, PartialEq, Eq, Structural)]
pub enum MoveError {
    /// The coordinates lie outside the board.
    InvalidPosition,
    /// The target cell already holds a stone.
    CellOccupied,
}

/// A valid game state: a 15x15 board whose stones all belong to the two
/// distinct nonzero players, one of whom is to move.
pub open spec fn gs_wf(gs: GameState) -> bool {
    &&& board_ok(bview(&gs.board))
    &&& gs.ai_player != 0
    &&& gs.human_player != 0
    &&& gs.ai_player != gs.human_player
    &&& (gs.current_player == gs.ai_player || gs.current_player == gs.human_player)
    &&& forall|r: int, c: int|
        in_board(r, c) ==> #[trigger] bview(&gs.board)[r][c] == 0 || bview(&gs.board)[r][c]
            == gs.ai_player || bview(&gs.board)[r][c] == gs.human_player
}

/// Creates a fresh game: an empty board, the human to move first.
pub fn create_game_state(ai_player: i32, human_player: i32) -> (gs: GameState)
    requires
        ai_player != 0,
        human_player != 0,
        ai_player != human_player,
    ensures
        gs_wf(gs),
        gs.ai_player == ai_player,
        gs.human_player == human_player,
        gs.current_player == human_player,
        forall|r: int, c: int| in_board(r, c) ==> #[trigger] bview(&gs.board)[r][c] == 0,
{
    let mut board: Vec<Vec<i32>> = Vec::new();
    let mut i: usize = 0;
    while i < 15
        invariant
            i <= 15,
            board@.len() == i,
            forall|k: int| 0 <= k < i ==> #[trigger] bview(&board)[k] == empty_row(),
        decreases 15 - i,
    {
        let mut row: Vec<i32> = Vec::new();
        let mut j: usize = 0;
        while j < 15
            invariant
                j <= 15,
                row@.len() == j,
                forall|k: int| 0 <= k < j ==> #[trigger] row@[k] == 0,
            decreases 15 - j,
        {
            row.push(0);
            j = j + 1;
        }
        proof {
            assert(row@ =~= empty_row());
        }
        let ghost prev = bview(&board);
        board.push(row);
        proof {
            assert forall|k: int| 0 <= k < i + 1 implies #[trigger] bview(&board)[k]
                == empty_row() by {
                if k < i {
                    assert(bview(&board)[k] == board@[k]@);
                    assert(prev[k] == empty_row());
                } else {
                    assert(bview(&board)[k] == row@);
                }
            }
        }
        i = i + 1;
    }
    let gs = GameState { board, current_player: human_player, ai_player, human_player };
    proof {
        assert forall|r: int, c: int| in_board(r, c) implies #[trigger] bview(&gs.board)[r][c]
            == 0 by {
            assert(bview(&gs.board)[r] == empty_row());
        }
    }
    gs
}

/// A row of fifteen empty cells.
pub open spec fn empty_row() -> Seq<i32> {
    Seq::new(15, |j: int| 0i32)
}

/// Applies a move for the player to move: validates the coordinates and the
/// cell, places the stone, reports whether it wins, and switches turns. A
/// rejected move leaves the state untouched.
pub fn make_move(game_state: &mut GameState, row: usize, col: usize) -> (r: Result<bool, MoveError>)
    requires
        gs_wf(*old(game_state)),
    ensures
        gs_wf(*final(game_state)),
        final(game_state).ai_player == old(game_state).ai_player,
        final(game_state).human_player == old(game_state).human_player,
        !in_board(row as int, col as int) ==> r == Err::<bool, MoveError>(
            MoveError::InvalidPosition,
        ) && *final(game_state) == *old(game_state),
        in_board(row as int, col as int) && bview(&old(game_state).board)[row as int][col as int]
            != 0 ==> r == Err::<bool, MoveError>(MoveError::CellOccupied) && *final(game_state)
            == *old(game_state),
        in_board(row as int, col as int) && bview(&old(game_state).board)[row as int][col as int]
            == 0 ==> {
            &&& bview(&final(game_state).board) == place(
                bview(&old(game_state).board),
                row as int,
                col as int,
                old(game_state).current_player,
            )
            &&& r == Ok::<bool, MoveError>(
                win_at(bview(&final(game_state).board), row as int, col as int),
            )
            &&& final(game_state).current_player == (if old(game_state).current_player == old(
                game_state,
            ).ai_player {
                old(game_state).human_player
            } else {
                old(game_state).ai_player
            })
        },
{
    if !(row < 15 && col < 15) {
        return Err(MoveError::InvalidPosition);
    }
    if cell_at(&game_state.board, row, col) != 0 {
        return Err(MoveError::CellOccupied);
    }
    let mover = game_state.current_player;
    set_cell(&mut game_state.board, row, col, mover);
    let won = check_win(&game_state.board, row, col);
    game_state.current_player = if game_state.current_player == game_state.ai_player {
        game_state.human_player
    } else {
        game_state.ai_player
    };
    proof {
        let b = bview(&game_state.board);
        assert forall|r2: int, c2: int| in_board(r2, c2) implies #[trigger] b[r2][c2] == 0
            || b[r2][c2] == game_state.ai_player || b[r2][c2] == game_state.human_player by {
            if r2 == row as int && c2 == col as int {
                assert(b[r2][c2] == mover);
            } else {
                assert(b[r2][c2] == bview(&old(game_state).board)[r2][c2]);
            }
        }
    }
    Ok(won)
}

} // verus!

//! A five-in-a-row (15x15) move-selection engine: win detection, a pattern
//! evaluator, a neighborhood-restricted candidate generator, depth-bounded
//! minimax search (sequential and parallel), difficulty profiles, a layered
//! decision policy, and game-state management.

pub mod board;
pub mod difficulty;
pub mod eval;
pub mod game;
pub mod moves;
pub mod policy;
pub mod search;
pub mod win;

pub use board::is_valid_position;
pub use difficulty::AIDifficulty;
pub use game::create_game_state;
pub use game::make_move;
pub use game::GameState;
pub use game::MoveError;
pub use moves::get_possible_moves;
pub use moves::MAX_MOVES;
pub use policy::get_best_move;
pub use policy::get_best_move_with_difficulty;
pub use policy::MoveResult;
pub use search::minimax;
pub use search::parallel_minimax;
pub use search::simple_minimax;
pub use search::MAX_DEPTH;
pub use eval::evaluate_board;
pub use eval::evaluate_position;
pub use eval::LOSE_SCORE;
pub use eval::WIN_SCORE;
pub use win::check_win;
pub use board::BOARD_SIZE;
pub use board::WIN_LENGTH;

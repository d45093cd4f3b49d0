//! Fixed configuration of the self-play generator: board geometry, the
//! encoding of a game state as boolean feature planes, and the search
//! parameters.
//!
//! All probabilities and value estimates in this crate are fixed-point
//! integers in units of `1 / SCALE`, so that the search arithmetic can be
//! reasoned about exactly.
use vstd::prelude::*;

verus! {

/// Hard cap on the number of moves of one self-play game.
pub const GAME_LENGTH_CAP: usize = 81;

/// Whether a run whose both ends are blocked still counts as a win
/// (reserved rule switch; the current rules ignore it).
pub const BLOCKED_HEADS_RULE: bool = false;

/// Total number of games one generation step produces.
pub const NUM_GAME_PER_STEP: usize = 3;

/// Number of parallel self-play workers.
pub const NUM_THREADS: usize = 4;

/// Length of the contiguous run that wins the game.
pub const NUM_IN_A_ROW_FOR_WIN: usize = 5;

pub const BOARD_WIDTH: usize = 13;

pub const BOARD_HEIGHT: usize = 13;

/// Planes of one board: the X stones, the O stones, and the side to move.
pub const BOARD_PLANES: usize = 3;

/// Number of cells of one plane.
pub const NUM_CELLS: usize = 169;

/// Occupancy planes each remembered previous board contributes.
pub const PLANES_PER_PREV_BOARD: usize = 2;

/// How many previous boards a game state remembers.
pub const NUM_PREV_BOARDS: usize = 3;

/// Plane of the side-to-move flag within a board.
pub const PLAYER_TO_MOVE_INDEX_IN_BOARD: usize = 2;

pub const GAME_STATE_WIDTH: usize = BOARD_WIDTH;

pub const GAME_STATE_HEIGHT: usize = BOARD_HEIGHT;

/// Planes of one game state: the previous-board window, then the board.
pub const GAME_STATE_PLANES: usize = 9;

/// First plane of the current board within a game state.
pub const BOARD_STATE_START: usize = 6;

/// Plane of the side-to-move flag within a game state.
pub const PLAYER_TO_MOVE_INDEX_IN_STATE: usize = 8;

pub const MOVE_WIDTH: usize = 13;

pub const MOVE_HEIGHT: usize = 13;

pub const MOVE_PLANES: usize = 1;

/// Booleans of one whole board (`NUM_CELLS * BOARD_PLANES`).
pub const BOARD_LEN: usize = 507;

/// Booleans of one whole game state (`NUM_CELLS * GAME_STATE_PLANES`).
pub const STATE_LEN: usize = 1521;

/// Simulations one `search` call runs before it commits a move.
pub const NUM_SEARCH: usize = 64;

/// Unit of the fixed-point numbers: priors, values and the exploration
/// constant are integers counted in `1 / SCALE`.
pub const SCALE: u64 = 1000000;

/// The PUCT exploration constant (1.0), in units of `1 / SCALE`.
pub const C_PUCT_FP: u64 = 1000000;

/// Visit-count exponent used when playing stochastically
/// (the inverse of the exploration temperature 1.0).
pub const EXPLORE_EXP: u32 = 1;

/// Visit-count exponent used when playing near-greedily.
pub const GREEDY_EXP: u32 = 10;

/// Most simulations one tree ever runs (`NUM_SEARCH * GAME_LENGTH_CAP`);
/// every visit count stays below it, which bounds the search arithmetic.
pub const SIM_CAP: u64 = 5184;

/// Position of the cell `(x, y)` in a flattened move-space tensor.
pub fn move_to_index(pos: (usize, usize)) -> (r: usize)
    requires
        pos.0 < MOVE_WIDTH,
        pos.1 < MOVE_HEIGHT,
    ensures
        r == pos.0 + pos.1 * MOVE_WIDTH,
        r < NUM_CELLS,
{
    let (x, y) = pos;
    x + y * MOVE_WIDTH
}

/// Cell `(x, y)` of a position in a flattened move-space tensor.
pub fn index_to_move(index: usize) -> (r: (usize, usize))
    ensures
        r.0 == index % MOVE_WIDTH,
        r.1 == index / MOVE_HEIGHT,
{
    (index % MOVE_WIDTH, index / MOVE_HEIGHT)
}

} // verus!

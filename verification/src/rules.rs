//! The rules of the game: the win condition (a contiguous run of stones
//! of the configured length in any of the eight directions) and the
//! startup validation of the configuration constants.
use vstd::prelude::*;

pub mod types;

use crate::constants::{
    BOARD_HEIGHT, BOARD_PLANES, BOARD_WIDTH, GAME_STATE_HEIGHT, GAME_STATE_PLANES,
    GAME_STATE_WIDTH, NUM_IN_A_ROW_FOR_WIN, PLAYER_TO_MOVE_INDEX_IN_BOARD,
};
use types::{bidx, in_grid, Board};

verus! {

/// Contradictory or out-of-range configuration constants, detected once
/// at startup.
#[derive(Clone, Copy, Debug, PartialEq, Eq, Structural)]
pub struct ConfigError;

/// Checks the configuration constants once at startup; a violation is
/// fatal to the run.
pub fn vaildate_consts() -> (r: Result<(), ConfigError>)
    ensures
        r.is_ok() == (NUM_IN_A_ROW_FOR_WIN < 127 && GAME_STATE_HEIGHT < 127 && GAME_STATE_WIDTH
            < 127 && GAME_STATE_PLANES < 127 && PLAYER_TO_MOVE_INDEX_IN_BOARD <= BOARD_PLANES),
{
    if NUM_IN_A_ROW_FOR_WIN < 127 && GAME_STATE_HEIGHT < 127 && GAME_STATE_WIDTH < 127
        && GAME_STATE_PLANES < 127 && PLAYER_TO_MOVE_INDEX_IN_BOARD <= BOARD_PLANES {
        Ok(())
    } else {
        Err(ConfigError)
    }
}

/// Horizontal step of direction `d` of the eight compass directions.
pub open spec fn dir_dx(d: int) -> int {
    if d == 0 {
        1
    } else if d == 1 {
        1
    } else if d == 2 {
        0
    } else if d == 3 {
        -1
    } else if d == 4 {
        -1
    } else if d == 5 {
        -1
    } else if d == 6 {
        0
    } else {
        1
    }
}

/// Vertical step of direction `d` of the eight compass directions.
pub open spec fn dir_dy(d: int) -> int {
    if d == 0 {
        0
    } else if d == 1 {
        -1
    } else if d == 2 {
        -1
    } else if d == 3 {
        -1
    } else if d == 4 {
        0
    } else if d == 5 {
        1
    } else if d == 6 {
        1
    } else {
        1
    }
}

/// The step of direction `d` as an executable pair.
pub fn direction(d: usize) -> (r: (i8, i8))
    requires
        d < 8,
    ensures
        r.0 as int == dir_dx(d as int),
        r.1 as int == dir_dy(d as int),
{
    if d == 0 {
        (1, 0)
    } else if d == 1 {
        (1, -1)
    } else if d == 2 {
        (0, -1)
    } else if d == 3 {
        (-1, -1)
    } else if d == 4 {
        (-1, 0)
    } else if d == 5 {
        (-1, 1)
    } else if d == 6 {
        (0, 1)
    } else {
        (1, 1)
    }
}

/// Whether plane `p` of board `s` holds a contiguous run of `n` stones
/// that starts at `(x, y)` and steps by `(dx, dy)`, entirely inside the
/// grid.
pub open spec fn run_in_dir(s: Seq<bool>, p: int, x: int, y: int, dx: int, dy: int, n: nat) -> bool
    decreases n,
{
    if n == 0 {
        true
    } else {
        in_grid(x, y) && s[bidx(x, y, p)] && run_in_dir(s, p, x + dx, y + dy, dx, dy, (n - 1) as nat)
    }
}

/// Whether the side of plane `p` has a winning run anywhere on the board.
pub open spec fn side_wins(s: Seq<bool>, p: int) -> bool {
    exists|x: int, y: int, d: int|
        in_grid(x, y) && 0 <= d < 8 && run_in_dir(
            s,
            p,
            x,
            y,
            dir_dx(d),
            dir_dy(d),
            NUM_IN_A_ROW_FOR_WIN as nat,
        )
}

/// Whether a contiguous run of `n` stones of plane `p` starts at `(x, y)`
/// and continues in direction `(dx, dy)`.
pub(crate) fn has_n_in_a_row_in_dir(
    board: &Board,
    p: usize,
    x: usize,
    y: usize,
    dx: i8,
    dy: i8,
    n: usize,
) -> (r: bool)
    requires
        board.wf(),
        p < BOARD_PLANES,
        x < BOARD_WIDTH,
        y < BOARD_HEIGHT,
        1 <= n,
        -1 <= dx as int <= 1,
        -1 <= dy as int <= 1,
    ensures
        r == run_in_dir(board@, p as int, x as int, y as int, dx as int, dy as int, n as nat),
    decreases n,
{
    if !board.get_grid(x, y, p) {
        return false;
    }
    if n == 1 {
        proof {
            assert(run_in_dir(board@, p as int, x + dx, y + dy, dx as int, dy as int, 0nat));
        }
        return true;
    }
    let px = x as i8 + dx;
    let py = y as i8 + dy;
    if 0 <= px && px < BOARD_WIDTH as i8 && 0 <= py && py < BOARD_HEIGHT as i8 {
        has_n_in_a_row_in_dir(board, p, px as usize, py as usize, dx, dy, n - 1)
    } else {
        proof {
            assert(!run_in_dir(
                board@,
                p as int,
                x + dx,
                y + dy,
                dx as int,
                dy as int,
                (n - 1) as nat,
            ));
        }
        false
    }
}

} // verus!

//! The data model of the game: coordinates, moves, sides, results, the
//! board and the game state, together with the specification functions
//! that the search and the self-play driver reason with.
use vstd::prelude::*;

use crate::constants::{
    BOARD_HEIGHT, BOARD_LEN, BOARD_PLANES, BOARD_STATE_START, BOARD_WIDTH, GAME_STATE_PLANES,
    MOVE_HEIGHT, MOVE_WIDTH, NUM_CELLS, NUM_IN_A_ROW_FOR_WIN, PLANES_PER_PREV_BOARD,
    PLAYER_TO_MOVE_INDEX_IN_BOARD, PLAYER_TO_MOVE_INDEX_IN_STATE, STATE_LEN,
};

verus! {

/// A coordinate into a three-dimensional feature tensor.
pub struct Coord3D {
    x: usize,
    y: usize,
    t: usize,
}

impl Coord3D {
    pub closed spec fn spec_x(&self) -> usize {
        self.x
    }

    pub closed spec fn spec_y(&self) -> usize {
        self.y
    }

    pub closed spec fn spec_t(&self) -> usize {
        self.t
    }

    pub fn new(x: usize, y: usize, t: usize) -> (r: Self)
        ensures
            r.spec_x() == x,
            r.spec_y() == y,
            r.spec_t() == t,
    {
        Coord3D { x, y, t }
    }

    pub fn x(&self) -> (r: usize)
        ensures
            r == self.spec_x(),
    {
        self.x
    }

    pub fn y(&self) -> (r: usize)
        ensures
            r == self.spec_y(),
    {
        self.y
    }

    pub fn t(&self) -> (r: usize)
        ensures
            r == self.spec_t(),
    {
        self.t
    }
}

/// A validated move: a cell of the grid plus a reserved move-type tag
/// (always 0 for a stone placement).
#[derive(Clone, Copy, Debug, PartialEq, Eq, Structural)]
pub struct Move {
    pub x: usize,
    pub y: usize,
    pub p: usize,
}

impl Move {
    /// Builds the move that places a stone on cell `(x, y)`; coordinates
    /// outside the grid are a precondition violation.
    pub fn new(x: usize, y: usize) -> (r: Self)
        requires
            x < MOVE_WIDTH,
            y < MOVE_HEIGHT,
        ensures
            r == (Move { x, y, p: 0 }),
    {
        Self { x, y, p: 0 }
    }

    /// The move as a `[y, x, plane]` index into the move-space tensor.
    pub fn get_move_arr(&self) -> (r: [usize; 3])
        ensures
            r@ == seq![self.y, self.x, self.p],
    {
        let r = [self.y, self.x, self.p];
        proof {
            assert(r@ =~= seq![self.y, self.x, self.p]);
        }
        r
    }
}

/// One of the two players. `X` moves first on an empty board.
#[derive(Clone, Copy, Debug, PartialEq, Eq, Structural)]
pub enum Side {
    X,
    O,
}

impl Side {
    pub fn to_bool(&self) -> (r: bool)
        ensures
            r == (*self == Side::X),
    {
        match self {
            Side::X => true,
            Side::O => false,
        }
    }
}

/// The result of evaluating a board.
#[derive(Clone, Copy, Debug, PartialEq, Eq, Structural)]
pub enum GameResult {
    XWins,
    OWins,
    Draws,
    NotFinished,
}

impl GameResult {
    pub fn has_ended(&self) -> (r: bool)
        ensures
            r == (*self != GameResult::NotFinished),
    {
        match *self {
            GameResult::XWins => true,
            GameResult::OWins => true,
            GameResult::Draws => true,
            GameResult::NotFinished => false,
        }
    }

    /// The training label of this result seen from `side`: +1 for a win,
    /// -1 for a loss, 0 for a draw or an unfinished game.
    pub fn outcome_for_side(&self, side: Side) -> (r: i32)
        ensures
            r == self.outcome_spec(side),
    {
        match *self {
            GameResult::XWins => {
                if matches!(side, Side::X) {
                    1
                } else {
                    -1
                }
            },
            GameResult::OWins => {
                if matches!(side, Side::O) {
                    1
                } else {
                    -1
                }
            },
            GameResult::Draws => 0,
            GameResult::NotFinished => 0,
        }
    }

    pub open spec fn outcome_spec(self, side: Side) -> int {
        match self {
            GameResult::XWins => if side == Side::X { 1int } else { -1int },
            GameResult::OWins => if side == Side::O { 1int } else { -1int },
            GameResult::Draws => 0int,
            GameResult::NotFinished => 0int,
        }
    }
}

/// One completed game hands each player the negated label of the other:
/// whatever the result, the outcome for `X` is the negation of the
/// outcome for `O`, and a draw labels both sides 0.
pub proof fn lemma_outcome_antisymmetric(result: GameResult)
    ensures
        result.outcome_spec(Side::X) == -result.outcome_spec(Side::O),
        result == GameResult::Draws ==> result.outcome_spec(Side::X) == 0
            && result.outcome_spec(Side::O) == 0,
{
}

/// Position of `(x, y, plane)` in a flattened board.
pub open spec fn bidx(x: int, y: int, p: int) -> int {
    (y * BOARD_WIDTH + x) * BOARD_PLANES + p
}

pub open spec fn in_grid(x: int, y: int) -> bool {
    0 <= x < BOARD_WIDTH && 0 <= y < BOARD_HEIGHT
}

/// Whether cell `(x, y)` holds a stone of either side.
pub open spec fn cell_occupied(s: Seq<bool>, x: int, y: int) -> bool {
    s[bidx(x, y, 0)] || s[bidx(x, y, 1)]
}

/// The side to move, read from the side-to-move flag plane.
pub open spec fn side_of(s: Seq<bool>) -> Side {
    if s[bidx(0, 0, PLAYER_TO_MOVE_INDEX_IN_BOARD as int)] {
        Side::O
    } else {
        Side::X
    }
}

/// The occupancy plane of a side.
pub open spec fn side_plane(side: Side) -> int {
    if side == Side::X {
        0
    } else {
        1
    }
}

/// The side a board operation acts for: the explicit one, or the mover.
pub open spec fn resolved_side(side: Option<Side>, s: Seq<bool>) -> Side {
    match side {
        Some(sd) => sd,
        None => side_of(s),
    }
}

/// The legal moves whose cell comes at or after scan position `k`
/// (cells are scanned column by column: position `x * BOARD_HEIGHT + y`).
pub open spec fn legal_moves_from(s: Seq<bool>, k: int) -> Seq<Move>
    decreases NUM_CELLS - k,
{
    if k < 0 || k >= NUM_CELLS {
        Seq::empty()
    } else {
        let x = k / (BOARD_HEIGHT as int);
        let y = k % (BOARD_HEIGHT as int);
        let rest = legal_moves_from(s, k + 1);
        if !cell_occupied(s, x, y) {
            seq![Move { x: x as usize, y: y as usize, p: 0 }] + rest
        } else {
            rest
        }
    }
}

/// All legal moves of a board, in the deterministic scan order.
pub open spec fn legal_moves_spec(s: Seq<bool>) -> Seq<Move> {
    legal_moves_from(s, 0)
}

/// How many cells at or after scan position `k` hold a stone.
pub open spec fn occupied_from(s: Seq<bool>, k: int) -> int
    decreases NUM_CELLS - k,
{
    if k < 0 || k >= NUM_CELLS {
        0
    } else {
        let x = k / (BOARD_HEIGHT as int);
        let y = k % (BOARD_HEIGHT as int);
        (if cell_occupied(s, x, y) {
            1int
        } else {
            0int
        }) + occupied_from(s, k + 1)
    }
}

/// How many cells of the board hold a stone.
pub open spec fn occupied_count(s: Seq<bool>) -> int {
    occupied_from(s, 0)
}

proof fn lemma_legal_count_from(s: Seq<bool>, k: int)
    requires
        0 <= k <= NUM_CELLS,
    ensures
        legal_moves_from(s, k).len() + occupied_from(s, k) == NUM_CELLS - k,
    decreases NUM_CELLS - k,
{
    if k < NUM_CELLS {
        lemma_legal_count_from(s, k + 1);
    }
}

/// Every cell is exactly one of legal-to-play or occupied: for any board
/// contents, the number of legal moves plus the number of occupied cells
/// equals the number of cells of the grid.
pub proof fn lemma_legal_moves_partition(s: Seq<bool>)
    ensures
        legal_moves_spec(s).len() + occupied_count(s) == NUM_CELLS,
{
    lemma_legal_count_from(s, 0);
}

/// The scan position of the cell a move plays on.
pub open spec fn move_key(mv: Move) -> int {
    mv.x * BOARD_HEIGHT + mv.y
}

/// Elements of `legal_moves_from`: each is an unoccupied in-grid cell at
/// or after scan position `k`, and they come in strictly increasing scan
/// order (hence are pairwise distinct).
pub proof fn lemma_legal_moves_elems(s: Seq<bool>, k: int)
    requires
        0 <= k <= NUM_CELLS,
    ensures
        forall|i: int| 0 <= i < legal_moves_from(s, k).len() ==> {
            let mv = #[trigger] legal_moves_from(s, k)[i];
            &&& in_grid(mv.x as int, mv.y as int)
            &&& mv.p == 0
            &&& !cell_occupied(s, mv.x as int, mv.y as int)
            &&& move_key(mv) >= k
        },
        forall|i: int, j: int|
            0 <= i < j < legal_moves_from(s, k).len() ==> move_key(
                #[trigger] legal_moves_from(s, k)[i],
            ) < move_key(#[trigger] legal_moves_from(s, k)[j]),
    decreases NUM_CELLS - k,
{
    if 0 <= k < NUM_CELLS {
        let x = k / (BOARD_HEIGHT as int);
        let y = k % (BOARD_HEIGHT as int);
        let cur = legal_moves_from(s, k);
        let rest = legal_moves_from(s, k + 1);
        lemma_legal_moves_elems(s, k + 1);
        vstd::arithmetic::div_mod::lemma_fundamental_div_mod(k, BOARD_HEIGHT as int);
        vstd::arithmetic::div_mod::lemma_mod_bound(k, BOARD_HEIGHT as int);
        assert(x * BOARD_HEIGHT + y == k);
        assert(0 <= x < BOARD_WIDTH);
        let shift: int = if !cell_occupied(s, x, y) {
            1
        } else {
            0
        };
        assert forall|i: int| 0 <= i < cur.len() implies {
            let mv = #[trigger] cur[i];
            &&& in_grid(mv.x as int, mv.y as int)
            &&& mv.p == 0
            &&& !cell_occupied(s, mv.x as int, mv.y as int)
            &&& move_key(mv) >= k
        } by {
            if shift == 1 && i == 0 {
                let mv0 = Move { x: x as usize, y: y as usize, p: 0 };
                assert(cur[0] == mv0);
                assert(move_key(mv0) == k);
            } else {
                assert(cur[i] == rest[i - shift]);
            }
        }
        assert forall|i: int, j: int| 0 <= i < j < cur.len() implies move_key(
            #[trigger] cur[i],
        ) < move_key(#[trigger] cur[j]) by {
            assert(cur[j] == rest[j - shift]);
            if shift == 1 && i == 0 {
                assert(move_key(cur[0]) == k);
                assert(move_key(rest[j - 1]) >= k + 1);
            } else {
                assert(cur[i] == rest[i - shift]);
            }
        }
    }
}

/// Membership in `legal_moves_from`: exactly the unoccupied in-grid cells
/// at or after scan position `k`.
pub proof fn lemma_legal_moves_membership(s: Seq<bool>, k: int, mv: Move)
    requires
        0 <= k <= NUM_CELLS,
    ensures
        legal_moves_from(s, k).contains(mv) <==> {
            &&& in_grid(mv.x as int, mv.y as int)
            &&& mv.p == 0
            &&& !cell_occupied(s, mv.x as int, mv.y as int)
            &&& move_key(mv) >= k
        },
    decreases NUM_CELLS - k,
{
    lemma_legal_moves_elems(s, k);
    if 0 <= k < NUM_CELLS {
        let x = k / (BOARD_HEIGHT as int);
        let y = k % (BOARD_HEIGHT as int);
        lemma_legal_moves_membership(s, k + 1, mv);
        vstd::arithmetic::div_mod::lemma_fundamental_div_mod(k, BOARD_HEIGHT as int);
        vstd::arithmetic::div_mod::lemma_mod_bound(k, BOARD_HEIGHT as int);
        assert(x * BOARD_HEIGHT + y == k);
        assert(0 <= x < BOARD_WIDTH);
        let cur = legal_moves_from(s, k);
        let rest = legal_moves_from(s, k + 1);
        if !cell_occupied(s, x, y) {
            let mv0 = Move { x: x as usize, y: y as usize, p: 0 };
            assert(cur[0] == mv0);
            assert(forall|i: int| 1 <= i < cur.len() ==> #[trigger] cur[i] == rest[i - 1]);
            if mv == mv0 {
                assert(cur.contains(mv));
            } else if rest.contains(mv) {
                let i = choose|i: int| 0 <= i < rest.len() && rest[i] == mv;
                assert(cur[i + 1] == mv);
                assert(cur.contains(mv));
            }
            if cur.contains(mv) && mv != mv0 {
                let i = choose|i: int| 0 <= i < cur.len() && cur[i] == mv;
                assert(i >= 1);
                assert(rest[i - 1] == mv);
                assert(rest.contains(mv));
            }
            // move_key identifies the cell: key == k forces (x, y)
            if in_grid(mv.x as int, mv.y as int) && move_key(mv) == k {
                vstd::arithmetic::div_mod::lemma_fundamental_div_mod_converse(
                    k, BOARD_HEIGHT as int, mv.x as int, mv.y as int);
                assert(mv.x == x && mv.y == y);
            }
        } else {
            if in_grid(mv.x as int, mv.y as int) && move_key(mv) == k {
                vstd::arithmetic::div_mod::lemma_fundamental_div_mod_converse(
                    k, BOARD_HEIGHT as int, mv.x as int, mv.y as int);
                assert(!(!cell_occupied(s, mv.x as int, mv.y as int)));
            }
        }
    }
}

/// Whether every cell of the board holds a stone.
pub open spec fn board_full(s: Seq<bool>) -> bool {
    forall|x: int, y: int| in_grid(x, y) ==> cell_occupied(s, x, y)
}

/// The result of a board: the first side with a winning run wins (X
/// checked first), a full board without one draws, anything else is
/// unfinished.
pub open spec fn evaluate_spec(s: Seq<bool>) -> GameResult {
    if crate::rules::side_wins(s, 0) {
        GameResult::XWins
    } else if crate::rules::side_wins(s, 1) {
        GameResult::OWins
    } else if board_full(s) {
        GameResult::Draws
    } else {
        GameResult::NotFinished
    }
}

/// Evaluation is a pure function of the board contents: two boards with
/// identical contents always evaluate to the identical one of the four
/// results, whatever else differs between them.
pub proof fn lemma_evaluate_deterministic(s1: Seq<bool>, s2: Seq<bool>)
    requires
        s1 == s2,
    ensures
        evaluate_spec(s1) == evaluate_spec(s2),
{
}

/// The board a move leaves behind: the stone of the acting side placed on
/// the move's cell, and the side-to-move plane flipped.
pub open spec fn board_move_spec(s: Seq<bool>, mv: Move, side: Option<Side>) -> Seq<bool> {
    let pl = side_plane(resolved_side(side, s));
    let flag = s[bidx(0, 0, PLAYER_TO_MOVE_INDEX_IN_BOARD as int)];
    Seq::new(
        s.len(),
        |j: int|
            if j % (BOARD_PLANES as int) == PLAYER_TO_MOVE_INDEX_IN_BOARD {
                !flag
            } else if j == bidx(mv.x as int, mv.y as int, pl) {
                true
            } else {
                s[j]
            },
    )
}

/// A vector of `n` `false` values.
fn falses(n: usize) -> (v: Vec<bool>)
    ensures
        v@.len() == n,
        forall|i: int| 0 <= i < n ==> !v@[i],
{
    let mut v: Vec<bool> = Vec::new();
    let mut i: usize = 0;
    while i < n
        invariant
            i <= n,
            v@.len() == i,
            forall|j: int| 0 <= j < i ==> !v@[j],
        decreases n - i,
    {
        v.push(false);
        i = i + 1;
    }
    v
}

/// The playing board: a 13 x 13 grid of cells, each recorded on an X
/// plane and an O plane, plus a uniform side-to-move flag plane, stored
/// flattened cell by cell.
pub struct Board {
    contents: Vec<bool>,
}

impl View for Board {
    type V = Seq<bool>;

    closed spec fn view(&self) -> Seq<bool> {
        self.contents@
    }
}

impl Board {
    pub open spec fn wf(&self) -> bool {
        self@.len() == BOARD_LEN
    }

    /// A fresh board: no stones anywhere, X to move.
    pub fn init_board() -> (r: Self)
        ensures
            r.wf(),
            forall|j: int| 0 <= j < BOARD_LEN ==> !r@[j],
    {
        Board { contents: falses(BOARD_LEN) }
    }

    /// The side to move, read from the side-to-move flag plane.
    pub fn get_side(&self) -> (r: Side)
        requires
            self.wf(),
        ensures
            r == side_of(self@),
    {
        if self.get_grid(0, 0, PLAYER_TO_MOVE_INDEX_IN_BOARD) {
            Side::O
        } else {
            Side::X
        }
    }

    pub fn get_grid(&self, x: usize, y: usize, p: usize) -> (r: bool)
        requires
            self.wf(),
            x < BOARD_WIDTH,
            y < BOARD_HEIGHT,
            p < BOARD_PLANES,
        ensures
            r == self@[bidx(x as int, y as int, p as int)],
    {
        self.contents[(y * BOARD_WIDTH + x) * BOARD_PLANES + p]
    }

    pub fn set_grid(&mut self, x: usize, y: usize, p: usize, val: bool)
        requires
            old(self).wf(),
            x < BOARD_WIDTH,
            y < BOARD_HEIGHT,
            p < BOARD_PLANES,
        ensures
            final(self).wf(),
            final(self)@ == old(self)@.update(bidx(x as int, y as int, p as int), val),
    {
        let i = (y * BOARD_WIDTH + x) * BOARD_PLANES + p;
        self.contents.set(i, val);
    }

    /// A copy of the raw plane data.
    pub fn get_contents_clone(&self) -> (r: Vec<bool>)
        ensures
            r@ == self@,
    {
        let r = self.contents.clone();
        proof {
            assert(r@ =~= self@);
        }
        r
    }

    /// Flips the side-to-move flag on every cell of its plane.
    pub fn toggle_side(&mut self)
        requires
            old(self).wf(),
        ensures
            final(self).wf(),
            final(self)@ == Seq::new(
                old(self)@.len(),
                |j: int|
                    if j % (BOARD_PLANES as int) == PLAYER_TO_MOVE_INDEX_IN_BOARD {
                        !old(self)@[bidx(0, 0, PLAYER_TO_MOVE_INDEX_IN_BOARD as int)]
                    } else {
                        old(self)@[j]
                    },
            ),
    {
        let s = self.get_grid(0, 0, PLAYER_TO_MOVE_INDEX_IN_BOARD);
        let ghost target = Seq::new(
            old(self)@.len(),
            |j: int|
                if j % (BOARD_PLANES as int) == PLAYER_TO_MOVE_INDEX_IN_BOARD {
                    !old(self)@[bidx(0, 0, PLAYER_TO_MOVE_INDEX_IN_BOARD as int)]
                } else {
                    old(self)@[j]
                },
        );
        let mut c: usize = 0;
        while c < NUM_CELLS
            invariant
                old(self).wf(),
                self.wf(),
                c <= NUM_CELLS,
                !s == target[bidx(0, 0, PLAYER_TO_MOVE_INDEX_IN_BOARD as int)],
                forall|j: int|
                    0 <= j < BOARD_LEN ==> self@[j] == if j % (BOARD_PLANES as int)
                        == PLAYER_TO_MOVE_INDEX_IN_BOARD && j < c * BOARD_PLANES {
                        !s
                    } else {
                        old(self)@[j]
                    },
            decreases NUM_CELLS - c,
        {
            let x = c % BOARD_WIDTH;
            let y = c / BOARD_WIDTH;
            proof {
                vstd::arithmetic::div_mod::lemma_fundamental_div_mod(c as int, BOARD_WIDTH as int);
                assert(bidx(x as int, y as int, PLAYER_TO_MOVE_INDEX_IN_BOARD as int) == c
                    * BOARD_PLANES + PLAYER_TO_MOVE_INDEX_IN_BOARD);
            }
            self.set_grid(x, y, PLAYER_TO_MOVE_INDEX_IN_BOARD, !s);
            proof {
                assert forall|j: int| 0 <= j < BOARD_LEN implies self@[j] == if j % (
                BOARD_PLANES as int) == PLAYER_TO_MOVE_INDEX_IN_BOARD && j < (c + 1) * BOARD_PLANES {
                    !s
                } else {
                    old(self)@[j]
                } by {
                    if j % (BOARD_PLANES as int) == PLAYER_TO_MOVE_INDEX_IN_BOARD && c * BOARD_PLANES
                        <= j < (c + 1) * BOARD_PLANES {
                        assert(j == c * BOARD_PLANES + PLAYER_TO_MOVE_INDEX_IN_BOARD) by {
                            vstd::arithmetic::div_mod::lemma_fundamental_div_mod(
                                j,
                                BOARD_PLANES as int,
                            );
                        }
                    }
                }
            }
            c = c + 1;
        }
        proof {
            assert forall|j: int| 0 <= j < BOARD_LEN implies self@[j] == target[j] by {
                if j % (BOARD_PLANES as int) == PLAYER_TO_MOVE_INDEX_IN_BOARD {
                    vstd::arithmetic::div_mod::lemma_fundamental_div_mod(j, BOARD_PLANES as int);
                    assert(j < NUM_CELLS * BOARD_PLANES);
                }
            }
            assert(self@ =~= target);
        }
    }

    /// Scans every plane, cell and direction for a winning run; if none
    /// exists, a full board draws and any other board is unfinished.
    #[verifier::loop_isolation(false)]
    pub fn evaluate(&self) -> (r: GameResult)
        requires
            self.wf(),
        ensures
            r == evaluate_spec(self@),
    {
        let mut p: usize = 0;
        while p < 2
            invariant
                p <= 2,
                forall|pp: int, x: int, y: int, d: int|
                    0 <= pp < p && in_grid(x, y) && 0 <= d < 8 ==> !crate::rules::run_in_dir(
                        self@,
                        pp,
                        x,
                        y,
                        crate::rules::dir_dx(d),
                        crate::rules::dir_dy(d),
                        NUM_IN_A_ROW_FOR_WIN as nat,
                    ),
            decreases 2 - p,
        {
            let mut k: usize = 0;
            while k < NUM_CELLS
                invariant
                    p < 2,
                    k <= NUM_CELLS,
                    forall|x: int, y: int, d: int|
                        in_grid(x, y) && 0 <= d < 8 && x * BOARD_HEIGHT + y < k
                            ==> !crate::rules::run_in_dir(
                            self@,
                            p as int,
                            x,
                            y,
                            crate::rules::dir_dx(d),
                            crate::rules::dir_dy(d),
                            NUM_IN_A_ROW_FOR_WIN as nat,
                        ),
                decreases NUM_CELLS - k,
            {
                let x = k / BOARD_HEIGHT;
                let y = k % BOARD_HEIGHT;
                proof {
                    vstd::arithmetic::div_mod::lemma_fundamental_div_mod(
                        k as int,
                        BOARD_HEIGHT as int,
                    );
                    vstd::arithmetic::div_mod::lemma_mod_bound(k as int, BOARD_HEIGHT as int);
                }
                let mut d: usize = 0;
                while d < 8
                    invariant
                        d <= 8,
                        x == k as int / (BOARD_HEIGHT as int),
                        y == k as int % (BOARD_HEIGHT as int),
                        x < BOARD_WIDTH,
                        y < BOARD_HEIGHT,
                        forall|dd: int|
                            0 <= dd < d ==> !crate::rules::run_in_dir(
                                self@,
                                p as int,
                                x as int,
                                y as int,
                                crate::rules::dir_dx(dd),
                                crate::rules::dir_dy(dd),
                                NUM_IN_A_ROW_FOR_WIN as nat,
                            ),
                    decreases 8 - d,
                {
                    let (dx, dy) = crate::rules::direction(d);
                    if crate::rules::has_n_in_a_row_in_dir(self, p, x, y, dx, dy,
                        NUM_IN_A_ROW_FOR_WIN) {
                        if p == 0 {
                            return GameResult::XWins;
                        } else {
                            return GameResult::OWins;
                        }
                    }
                    d = d + 1;
                }
                proof {
                    assert forall|xx: int, yy: int, dd: int|
                        in_grid(xx, yy) && 0 <= dd < 8 && xx * BOARD_HEIGHT + yy < k + 1
                            implies !crate::rules::run_in_dir(
                        self@,
                        p as int,
                        xx,
                        yy,
                        crate::rules::dir_dx(dd),
                        crate::rules::dir_dy(dd),
                        NUM_IN_A_ROW_FOR_WIN as nat,
                    ) by {
                        if xx * BOARD_HEIGHT + yy == k {
                            vstd::arithmetic::div_mod::lemma_fundamental_div_mod_converse(
                                k as int,
                                BOARD_HEIGHT as int,
                                xx,
                                yy,
                            );
                        }
                    }
                }
                k = k + 1;
            }
            p = p + 1;
        }
        assert(!crate::rules::side_wins(self@, 0));
        assert(!crate::rules::side_wins(self@, 1));
        let mut k: usize = 0;
        while k < NUM_CELLS
            invariant
                k <= NUM_CELLS,
                forall|kk: int|
                    0 <= kk < k ==> #[trigger] cell_occupied(
                        self@,
                        kk / (BOARD_HEIGHT as int),
                        kk % (BOARD_HEIGHT as int),
                    ),
            decreases NUM_CELLS - k,
        {
            let x = k / BOARD_HEIGHT;
            let y = k % BOARD_HEIGHT;
            proof {
                vstd::arithmetic::div_mod::lemma_fundamental_div_mod(k as int, BOARD_HEIGHT as int);
                vstd::arithmetic::div_mod::lemma_mod_bound(k as int, BOARD_HEIGHT as int);
            }
            if !self.get_grid(x, y, 0) && !self.get_grid(x, y, 1) {
                proof {
                    assert(in_grid(x as int, y as int));
                    assert(!cell_occupied(self@, x as int, y as int));
                    assert(!board_full(self@));
                }
                return GameResult::NotFinished;
            }
            k = k + 1;
        }
        proof {
            assert forall|x: int, y: int| in_grid(x, y) implies cell_occupied(self@, x, y) by {
                let kk = x * BOARD_HEIGHT + y;
                vstd::arithmetic::div_mod::lemma_fundamental_div_mod_converse(
                    kk,
                    BOARD_HEIGHT as int,
                    x,
                    y,
                );
                assert(cell_occupied(
                    self@,
                    kk / (BOARD_HEIGHT as int),
                    kk % (BOARD_HEIGHT as int),
                ));
            }
        }
        GameResult::Draws
    }

    /// All legal moves: every unoccupied cell, scanned column by column
    /// in a deterministic order. The side argument is irrelevant to the
    /// answer and kept for interface compatibility.
    #[verifier::loop_isolation(false)]
    pub fn get_legal_moves(&self, _side: Option<Side>) -> (r: Vec<Move>)
        requires
            self.wf(),
        ensures
            r@ == legal_moves_spec(self@),
            r@.len() + occupied_count(self@) == NUM_CELLS,
    {
        let mut result: Vec<Move> = Vec::new();
        let mut k: usize = 0;
        while k < NUM_CELLS
            invariant
                k <= NUM_CELLS,
                legal_moves_spec(self@) =~= result@ + legal_moves_from(self@, k as int),
            decreases NUM_CELLS - k,
        {
            let x = k / BOARD_HEIGHT;
            let y = k % BOARD_HEIGHT;
            proof {
                vstd::arithmetic::div_mod::lemma_fundamental_div_mod(k as int, BOARD_HEIGHT as int);
                vstd::arithmetic::div_mod::lemma_mod_bound(k as int, BOARD_HEIGHT as int);
            }
            let ghost prev = result@;
            if !self.get_grid(x, y, 0) && !self.get_grid(x, y, 1) {
                result.push(Move::new(x, y));
                proof {
                    assert(result@ + legal_moves_from(self@, k + 1) =~= prev + legal_moves_from(
                        self@,
                        k as int,
                    ));
                }
            }
            k = k + 1;
        }
        proof {
            assert(result@ =~= legal_moves_spec(self@));
            lemma_legal_moves_partition(self@);
        }
        result
    }

    /// The legal moves as a dense boolean mask over the move space.
    #[verifier::loop_isolation(false)]
    pub fn legal_moves_onehot(&self, side: Option<Side>) -> (r: Vec<bool>)
        requires
            self.wf(),
        ensures
            r@.len() == NUM_CELLS,
            forall|x: int, y: int|
                in_grid(x, y) ==> r@[x + y * MOVE_WIDTH] == !cell_occupied(self@, x, y),
    {
        let legal = self.get_legal_moves(side);
        let mut res = falses(NUM_CELLS);
        proof {
            lemma_legal_moves_elems(self@, 0);
        }
        let mut t: usize = 0;
        while t < legal.len()
            invariant
                t <= legal.len(),
                res@.len() == NUM_CELLS,
                forall|x: int, y: int|
                    in_grid(x, y) ==> res@[x + y * MOVE_WIDTH] == exists|i: int|
                        0 <= i < t && legal@[i] == (Move { x: x as usize, y: y as usize, p: 0 }),
            decreases legal.len() - t,
        {
            let mv = legal[t];
            assert(in_grid(mv.x as int, mv.y as int) && mv.p == 0);
            let j = crate::constants::move_to_index((mv.x, mv.y));
            let ghost prev = res@;
            res.set(j, true);
            proof {
                assert forall|x: int, y: int| in_grid(x, y) implies res@[x + y * MOVE_WIDTH] == (
                exists|i: int|
                    0 <= i < t + 1 && legal@[i] == (Move {
                        x: x as usize,
                        y: y as usize,
                        p: 0,
                    })) by {
                    if x == mv.x && y == mv.y {
                        assert(legal@[t as int] == (Move { x: x as usize, y: y as usize, p: 0 }));
                    } else {
                        assert(x + y * MOVE_WIDTH != j) by {
                            if x + y * MOVE_WIDTH == j {
                                vstd::arithmetic::div_mod::lemma_fundamental_div_mod_converse(
                                    j as int,
                                    MOVE_WIDTH as int,
                                    y,
                                    x,
                                );
                                vstd::arithmetic::div_mod::lemma_fundamental_div_mod_converse(
                                    j as int,
                                    MOVE_WIDTH as int,
                                    mv.y as int,
                                    mv.x as int,
                                );
                            }
                        }
                        assert(res@[x + y * MOVE_WIDTH] == prev[x + y * MOVE_WIDTH]);
                        assert forall|i: int|
                            0 <= i < t + 1 && legal@[i] == (Move {
                                x: x as usize,
                                y: y as usize,
                                p: 0,
                            }) implies i < t by {
                            if i == t {
                                assert(legal@[i].x == mv.x && legal@[i].y == mv.y);
                            }
                        }
                    }
                }
            }
            t = t + 1;
        }
        proof {
            assert forall|x: int, y: int| in_grid(x, y) implies res@[x + y * MOVE_WIDTH]
                == !cell_occupied(self@, x, y) by {
                let m = Move { x: x as usize, y: y as usize, p: 0 };
                lemma_legal_moves_membership(self@, 0, m);
                assert((exists|i: int| 0 <= i < legal@.len() && legal@[i] == m) == legal@.contains(
                    m,
                ));
            }
        }
        res
    }

    /// Places a stone for the acting side (the explicit one, or the
    /// mover) and flips the side to move. The target cell being free is
    /// the caller's precondition; it is not re-validated here.
    pub fn move_board(&mut self, mv: Move, side: Option<Side>)
        requires
            old(self).wf(),
            in_grid(mv.x as int, mv.y as int),
            !cell_occupied(old(self)@, mv.x as int, mv.y as int),
        ensures
            final(self).wf(),
            final(self)@ == board_move_spec(old(self)@, mv, side),
    {
        let plane_index: usize = match side {
            Some(Side::X) => 0,
            Some(Side::O) => 1,
            None => match self.get_side() {
                Side::X => 0,
                Side::O => 1,
            },
        };
        self.set_grid(mv.x, mv.y, plane_index, true);
        self.toggle_side();
        proof {
            assert(self@ =~= board_move_spec(old(self)@, mv, side));
        }
    }

    /// Plays one uniformly chosen legal move for the side to move.
    pub fn move_board_randomly(&mut self)
        requires
            old(self).wf(),
            occupied_count(old(self)@) < NUM_CELLS,
        ensures
            final(self).wf(),
            exists|i: int|
                0 <= i < legal_moves_spec(old(self)@).len() && final(self)@ == board_move_spec(
                    old(self)@,
                    legal_moves_spec(old(self)@)[i],
                    Some(side_of(old(self)@)),
                ),
    {
        let side = self.get_side();
        let legal_moves = self.get_legal_moves(Some(side));
        let idx = crate::rng::random_below(legal_moves.len() as u128) as usize;
        let mv = legal_moves[idx];
        proof {
            lemma_legal_moves_elems(old(self)@, 0);
        }
        self.move_board(mv, Some(side));
    }
}

/// Position of `(x, y, plane)` in a flattened game state.
pub open spec fn sidx(x: int, y: int, p: int) -> int {
    (y * BOARD_WIDTH + x) * GAME_STATE_PLANES + p
}

/// The board held in the last three planes of a game state.
pub open spec fn board_of(s: Seq<bool>) -> Seq<bool> {
    Seq::new(
        BOARD_LEN as nat,
        |j: int|
            s[(j / (BOARD_PLANES as int)) * GAME_STATE_PLANES + BOARD_STATE_START + (j % (
            BOARD_PLANES as int))],
    )
}

/// The game state a board update leaves behind: the oldest remembered
/// board is dropped, every plane of the window moves up by one board,
/// the pre-update board enters the newest window slot, and the given
/// board becomes the current one.
pub open spec fn state_update_spec(s: Seq<bool>, b: Seq<bool>) -> Seq<bool> {
    Seq::new(
        s.len(),
        |j: int|
            if j % (GAME_STATE_PLANES as int) < BOARD_STATE_START {
                s[j + PLANES_PER_PREV_BOARD]
            } else {
                b[(j / (GAME_STATE_PLANES as int)) * BOARD_PLANES + (j % (GAME_STATE_PLANES as int)
                    - BOARD_STATE_START)]
            },
    )
}

/// The game state a move leaves behind: the window shifts as in
/// `state_update_spec`, and the move is applied to the current board.
pub open spec fn state_move_spec(s: Seq<bool>, mv: Move, side: Option<Side>) -> Seq<bool> {
    state_update_spec(s, board_move_spec(board_of(s), mv, side))
}

/// The full game state handed to the predictor: the current board plus a
/// sliding window of the most recent previous boards, stored flattened
/// cell by cell.
#[derive(Clone)]
pub struct GameState {
    contents: Vec<bool>,
}

impl View for GameState {
    type V = Seq<bool>;

    closed spec fn view(&self) -> Seq<bool> {
        self.contents@
    }
}

impl GameState {
    pub open spec fn wf(&self) -> bool {
        self@.len() == STATE_LEN
    }

    /// A fresh game: an empty board and an all-empty history window.
    pub fn init_game_state() -> (r: Self)
        ensures
            r.wf(),
            forall|j: int| 0 <= j < STATE_LEN ==> !r@[j],
    {
        GameState { contents: falses(STATE_LEN) }
    }

    /// An owned copy with the same contents.
    pub fn duplicate(&self) -> (r: Self)
        ensures
            r@ == self@,
    {
        let contents = self.contents.clone();
        proof {
            assert(contents@ =~= self@);
        }
        GameState { contents }
    }

    /// An owned copy of the current board.
    #[verifier::loop_isolation(false)]
    pub fn get_board_view(&self) -> (b: Board)
        requires
            self.wf(),
        ensures
            b.wf(),
            b@ == board_of(self@),
    {
        let mut v: Vec<bool> = Vec::new();
        let mut j: usize = 0;
        while j < BOARD_LEN
            invariant
                j <= BOARD_LEN,
                v@.len() == j,
                forall|i: int| 0 <= i < j ==> v@[i] == board_of(self@)[i],
            decreases BOARD_LEN - j,
        {
            let c = j / BOARD_PLANES;
            let p = j % BOARD_PLANES;
            proof {
                vstd::arithmetic::div_mod::lemma_fundamental_div_mod(j as int, BOARD_PLANES as int);
                vstd::arithmetic::div_mod::lemma_mod_bound(j as int, BOARD_PLANES as int);
            }
            let val = self.contents[c * GAME_STATE_PLANES + BOARD_STATE_START + p];
            v.push(val);
            j = j + 1;
        }
        let b = Board { contents: v };
        proof {
            assert(b@ =~= board_of(self@));
        }
        b
    }

    /// Shifts the history window and installs `board` as the current one.
    #[verifier::loop_isolation(false)]
    pub fn update_game(&mut self, board: &Board)
        requires
            old(self).wf(),
            board.wf(),
        ensures
            final(self).wf(),
            final(self)@ == state_update_spec(old(self)@, board@),
    {
        let ghost target = state_update_spec(old(self)@, board@);
        let mut j: usize = 0;
        while j < STATE_LEN
            invariant
                j <= STATE_LEN,
                self@.len() == STATE_LEN,
                forall|i: int| 0 <= i < j ==> self@[i] == target[i],
                forall|i: int| j <= i < STATE_LEN ==> self@[i] == old(self)@[i],
            decreases STATE_LEN - j,
        {
            let p = j % GAME_STATE_PLANES;
            let c = j / GAME_STATE_PLANES;
            proof {
                vstd::arithmetic::div_mod::lemma_fundamental_div_mod(
                    j as int,
                    GAME_STATE_PLANES as int,
                );
                vstd::arithmetic::div_mod::lemma_mod_bound(j as int, GAME_STATE_PLANES as int);
            }
            if p < BOARD_STATE_START {
                let val = self.contents[j + PLANES_PER_PREV_BOARD];
                self.contents.set(j, val);
            } else {
                let x = c % BOARD_WIDTH;
                let y = c / BOARD_WIDTH;
                proof {
                    vstd::arithmetic::div_mod::lemma_fundamental_div_mod(
                        c as int,
                        BOARD_WIDTH as int,
                    );
                    vstd::arithmetic::div_mod::lemma_mod_bound(c as int, BOARD_WIDTH as int);
                    assert(bidx(x as int, y as int, (p - BOARD_STATE_START) as int) == c
                        * BOARD_PLANES + (p - BOARD_STATE_START));
                }
                let val = board.get_grid(x, y, p - BOARD_STATE_START);
                self.contents.set(j, val);
            }
            j = j + 1;
        }
        proof {
            assert(self@ =~= target);
        }
    }

    /// Applies `mv` for the acting side: the pre-move board is pushed
    /// into the history window and the move is played on the current
    /// board. The target cell being free is the caller's precondition.
    pub fn move_game(&mut self, mv: Move, side: Option<Side>)
        requires
            old(self).wf(),
            in_grid(mv.x as int, mv.y as int),
            !cell_occupied(board_of(old(self)@), mv.x as int, mv.y as int),
        ensures
            final(self).wf(),
            final(self)@ == state_move_spec(old(self)@, mv, side),
    {
        let mut b = self.get_board_view();
        b.move_board(mv, side);
        self.update_game(&b);
    }

    /// A copy of the raw plane data.
    pub fn get_contents_clone(&self) -> (r: Vec<bool>)
        ensures
            r@ == self@,
    {
        let r = self.contents.clone();
        proof {
            assert(r@ =~= self@);
        }
        r
    }

    pub fn get_grid(&self, x: usize, y: usize, p: usize) -> (r: bool)
        requires
            self.wf(),
            x < BOARD_WIDTH,
            y < BOARD_HEIGHT,
            p < GAME_STATE_PLANES,
        ensures
            r == self@[sidx(x as int, y as int, p as int)],
    {
        self.contents[(y * BOARD_WIDTH + x) * GAME_STATE_PLANES + p]
    }

    /// Plays one uniformly chosen legal move for the side to move.
    pub fn move_game_randomly(&mut self)
        requires
            old(self).wf(),
            occupied_count(board_of(old(self)@)) < NUM_CELLS,
        ensures
            final(self).wf(),
            exists|i: int|
                0 <= i < legal_moves_spec(board_of(old(self)@)).len() && final(self)@
                    == state_move_spec(
                    old(self)@,
                    legal_moves_spec(board_of(old(self)@))[i],
                    Some(side_of(board_of(old(self)@))),
                ),
    {
        let board = self.get_board_view();
        let side = board.get_side();
        let legal_moves = board.get_legal_moves(Some(side));
        let idx = crate::rng::random_below(legal_moves.len() as u128) as usize;
        let mv = legal_moves[idx];
        proof {
            lemma_legal_moves_elems(board_of(old(self)@), 0);
        }
        self.move_game(mv, Some(side));
    }

    /// The side to move, read from the side-to-move flag plane.
    pub fn get_side(&self) -> (r: Side)
        requires
            self.wf(),
        ensures
            r == side_of(board_of(self@)),
    {
        let r = if self.get_grid(0, 0, PLAYER_TO_MOVE_INDEX_IN_STATE) {
            Side::O
        } else {
            Side::X
        };
        proof {
            assert(board_of(self@)[bidx(0, 0, PLAYER_TO_MOVE_INDEX_IN_BOARD as int)] == self@[sidx(
                0,
                0,
                PLAYER_TO_MOVE_INDEX_IN_STATE as int,
            )]);
        }
        r
    }

    /// The result of the current board.
    pub fn evaluate(&self) -> (r: GameResult)
        requires
            self.wf(),
        ensures
            r == evaluate_spec(board_of(self@)),
    {
        self.get_board_view().evaluate()
    }

    /// All legal moves of the current board, in the deterministic order.
    pub fn get_legal_moves(&self, side: Option<Side>) -> (r: Vec<Move>)
        requires
            self.wf(),
        ensures
            r@ == legal_moves_spec(board_of(self@)),
            r@.len() + occupied_count(board_of(self@)) == NUM_CELLS,
    {
        self.get_board_view().get_legal_moves(side)
    }

    /// The legal moves of the current board as a dense boolean mask.
    pub fn legal_moves_onehot(&self, side: Option<Side>) -> (r: Vec<bool>)
        requires
            self.wf(),
        ensures
            r@.len() == NUM_CELLS,
            forall|x: int, y: int|
                in_grid(x, y) ==> r@[x + y * MOVE_WIDTH] == !cell_occupied(board_of(self@), x, y),
    {
        self.get_board_view().legal_moves_onehot(side)
    }
}

} // verus!

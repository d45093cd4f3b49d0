//! The per-game training data: one record per turn, holding the encoded
//! game state, the search's visit distribution and the mover, with the
//! outcome labels attached once after the game ends.
use vstd::prelude::*;

use crate::constants::{NUM_CELLS, STATE_LEN};
use crate::rules::types::{GameResult, GameState, Side};

verus! {

/// The training records of one game, stored as three parallel,
/// order-aligned flat arrays plus the recorded movers: state encodings
/// (`turns * STATE_LEN` booleans), visit-distribution numerators
/// (`turns * NUM_CELLS` values) with one denominator per turn, and, once
/// the game has ended, one outcome label per turn.
pub struct TrainingData {
    num_turns: usize,
    game_state_data: Vec<bool>,
    pi_data: Vec<u128>,
    pi_totals: Vec<u128>,
    outcomes: Option<Vec<i32>>,
    sides: Vec<Side>,
}

impl TrainingData {
    pub closed spec fn turns(&self) -> int {
        self.num_turns as int
    }

    pub closed spec fn states_seq(&self) -> Seq<bool> {
        self.game_state_data@
    }

    pub closed spec fn pi_seq(&self) -> Seq<u128> {
        self.pi_data@
    }

    pub closed spec fn pi_totals_seq(&self) -> Seq<u128> {
        self.pi_totals@
    }

    pub closed spec fn sides_seq(&self) -> Seq<Side> {
        self.sides@
    }

    pub closed spec fn has_outcomes(&self) -> bool {
        self.outcomes is Some
    }

    pub closed spec fn outcomes_seq(&self) -> Seq<i32> {
        match self.outcomes {
            Some(v) => v@,
            None => Seq::empty(),
        }
    }

    /// The parallel arrays always describe the same number of turns.
    pub open spec fn wf(&self) -> bool {
        &&& self.sides_seq().len() == self.turns()
        &&& self.states_seq().len() == self.turns() * STATE_LEN
        &&& self.pi_seq().len() == self.turns() * NUM_CELLS
        &&& self.pi_totals_seq().len() == self.turns()
        &&& (self.has_outcomes() ==> self.outcomes_seq().len() == self.turns())
    }

    /// An empty record set with no outcome labels yet.
    pub fn new() -> (r: Self)
        ensures
            r.wf(),
            r.turns() == 0,
            !r.has_outcomes(),
    {
        Self {
            num_turns: 0,
            game_state_data: Vec::new(),
            pi_data: Vec::new(),
            pi_totals: Vec::new(),
            outcomes: None,
            sides: Vec::new(),
        }
    }

    /// Appends one turn: the pre-move state, its visit distribution and
    /// the mover.
    #[verifier::loop_isolation(false)]
    pub fn append_turn(&mut self, gs: &GameState, pi: &Vec<u128>, pi_total: u128)
        requires
            old(self).wf(),
            gs.wf(),
            pi@.len() == NUM_CELLS,
            old(self).turns() < 1000000,
            !old(self).has_outcomes(),
        ensures
            final(self).wf(),
            final(self).turns() == old(self).turns() + 1,
            final(self).sides_seq() == old(self).sides_seq().push(
                crate::rules::types::side_of(crate::rules::types::board_of(gs@)),
            ),
            final(self).states_seq() == old(self).states_seq() + gs@,
            final(self).pi_seq() == old(self).pi_seq() + pi@,
            final(self).pi_totals_seq() == old(self).pi_totals_seq().push(pi_total),
            final(self).has_outcomes() == old(self).has_outcomes(),
            final(self).outcomes_seq() == old(self).outcomes_seq(),
    {
        self.num_turns = self.num_turns + 1;
        self.sides.push(gs.get_side());
        let mut contents = gs.get_contents_clone();
        self.game_state_data.append(&mut contents);
        let mut t: usize = 0;
        let n = pi.len();
        while t < n
            invariant
                t <= n,
                n == pi@.len(),
                self.num_turns == old(self).num_turns + 1,
                self.sides@ == old(self).sides_seq().push(
                    crate::rules::types::side_of(crate::rules::types::board_of(gs@)),
                ),
                self.game_state_data@ == old(self).states_seq() + gs@,
                self.pi_totals@ == old(self).pi_totals_seq(),
                self.outcomes == old(self).outcomes,
                self.pi_data@ == old(self).pi_seq() + pi@.take(t as int),
            decreases n - t,
        {
            self.pi_data.push(pi[t]);
            proof {
                assert(old(self).pi_seq() + pi@.take(t as int + 1) =~= (old(self).pi_seq()
                    + pi@.take(t as int)).push(pi@[t as int]));
            }
            t = t + 1;
        }
        self.pi_totals.push(pi_total);
        proof {
            assert(pi@.take(NUM_CELLS as int) =~= pi@);
            let prev_turns = old(self).turns();
            assert((prev_turns + 1) * STATE_LEN == prev_turns * STATE_LEN + STATE_LEN)
                by (nonlinear_arith);
            assert((prev_turns + 1) * NUM_CELLS == prev_turns * NUM_CELLS + NUM_CELLS)
                by (nonlinear_arith);
        }
    }

    /// Labels every recorded turn with the final result seen from its
    /// mover: +1 for the turn of the winner, -1 for the loser, 0 for
    /// every turn of a draw (or of an unfinished game).
    #[verifier::loop_isolation(false)]
    pub fn set_result(&mut self, result: GameResult)
        requires
            old(self).wf(),
        ensures
            final(self).wf(),
            final(self).turns() == old(self).turns(),
            final(self).sides_seq() == old(self).sides_seq(),
            final(self).states_seq() == old(self).states_seq(),
            final(self).pi_seq() == old(self).pi_seq(),
            final(self).pi_totals_seq() == old(self).pi_totals_seq(),
            final(self).has_outcomes(),
            final(self).outcomes_seq().len() == old(self).turns(),
            forall|i: int|
                0 <= i < old(self).turns() ==> final(self).outcomes_seq()[i] == result.outcome_spec(
                    old(self).sides_seq()[i],
                ),
    {
        let mut out: Vec<i32> = Vec::new();
        let mut i: usize = 0;
        let n = self.sides.len();
        while i < n
            invariant
                i <= n,
                n == self.sides@.len(),
                out@.len() == i,
                forall|j: int|
                    0 <= j < i ==> out@[j] == result.outcome_spec(#[trigger] self.sides@[j]),
            decreases n - i,
        {
            let side = self.sides[i];
            out.push(result.outcome_for_side(side));
            i = i + 1;
        }
        self.outcomes = Some(out);
    }

    pub fn get_num_turns(&self) -> (r: usize)
        ensures
            r == self.turns(),
    {
        self.num_turns
    }

    pub fn get_game_state_data(&self) -> (r: &Vec<bool>)
        ensures
            r@ == self.states_seq(),
    {
        &self.game_state_data
    }

    pub fn get_pi_data(&self) -> (r: &Vec<u128>)
        ensures
            r@ == self.pi_seq(),
    {
        &self.pi_data
    }

    pub fn get_pi_totals(&self) -> (r: &Vec<u128>)
        ensures
            r@ == self.pi_totals_seq(),
    {
        &self.pi_totals
    }

    pub fn get_outcomes(&self) -> (r: &Option<Vec<i32>>)
        ensures
            self.has_outcomes() ==> (r matches Some(v) && v@ == self.outcomes_seq()),
            !self.has_outcomes() ==> r is None,
    {
        &self.outcomes
    }

    pub fn get_sides(&self) -> (r: &Vec<Side>)
        ensures
            r@ == self.sides_seq(),
    {
        &self.sides
    }
}

} // verus!

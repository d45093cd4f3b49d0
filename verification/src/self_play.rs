//! The self-play driver: plays one game end to end with the tree search
//! and collects its fully labeled training records, and the deterministic
//! split of a total game budget over the parallel workers.
use vstd::prelude::*;

use crate::constants::{
    BOARD_LEN, BOARD_PLANES, GAME_LENGTH_CAP, NUM_CELLS, NUM_IN_A_ROW_FOR_WIN, NUM_SEARCH, SIM_CAP,
    STATE_LEN,
};
use crate::monte_carlo_tree_search::{MCTSOutput, Predictor, PredictorError, TreeSearch};
use crate::rules::types::{
    bidx, board_full, board_of, cell_occupied, evaluate_spec, in_grid, legal_moves_spec,
    lemma_legal_moves_membership, side_of, state_move_spec, GameResult, GameState, Move,
};
use crate::types::TrainingData;

verus! {

/// The sum of a sequence of game counts, as a mathematical integer.
pub open spec fn counts_sum(s: Seq<usize>) -> int
    decreases s.len(),
{
    if s.len() == 0 {
        0
    } else {
        s[0] + counts_sum(s.drop_first())
    }
}

proof fn lemma_counts_sum_push(s: Seq<usize>, v: usize)
    ensures
        counts_sum(s.push(v)) == counts_sum(s) + v,
    decreases s.len(),
{
    if s.len() == 0 {
        assert(s.push(v)[0] == v);
        assert(s.push(v).drop_first() =~= Seq::<usize>::empty());
        assert(counts_sum(Seq::<usize>::empty()) == 0);
    } else {
        assert(s.push(v)[0] == s[0]);
        assert(s.push(v).drop_first() =~= s.drop_first().push(v));
        lemma_counts_sum_push(s.drop_first(), v);
    }
}

/// Splits `total_games` games over `workers` workers: everyone gets the
/// quotient, and the first `total_games mod workers` workers one extra
/// game — so the counts always sum to exactly `total_games`, whether or
/// not it divides evenly.
#[verifier::loop_isolation(false)]
pub fn distribute_games(total_games: usize, workers: usize) -> (r: Vec<usize>)
    requires
        workers >= 1,
    ensures
        r@.len() == workers,
        forall|i: int|
            0 <= i < workers ==> #[trigger] r@[i] == total_games / workers + (if i < total_games
                % workers {
                1int
            } else {
                0int
            }),
        counts_sum(r@) == total_games,
{
    let base = total_games / workers;
    let rem = total_games % workers;
    let mut r: Vec<usize> = Vec::new();
    let mut i: usize = 0;
    while i < workers
        invariant
            i <= workers,
            r@.len() == i,
            forall|j: int|
                0 <= j < i ==> #[trigger] r@[j] == base + (if j < rem {
                    1int
                } else {
                    0int
                }),
            counts_sum(r@) == i * base + (if i <= rem {
                i as int
            } else {
                rem as int
            }),
        decreases workers - i,
    {
        proof {
            vstd::arithmetic::div_mod::lemma_mod_bound(total_games as int, workers as int);
            assert((i + 1) * base == i * base + base) by (nonlinear_arith);
        }
        let ghost prev = r@;
        if i < rem {
            proof {
                vstd::arithmetic::div_mod::lemma_fundamental_div_mod(
                    total_games as int,
                    workers as int,
                );
                assert(base <= base * workers) by (nonlinear_arith)
                    requires
                        workers >= 1,
                        base >= 0,
                ;
                assert(base < usize::MAX);
            }
            r.push(base + 1);
            proof {
                lemma_counts_sum_push(prev, (base + 1) as usize);
            }
        } else {
            r.push(base);
            proof {
                lemma_counts_sum_push(prev, base);
            }
        }
        i = i + 1;
    }
    proof {
        vstd::arithmetic::div_mod::lemma_fundamental_div_mod(total_games as int, workers as int);
        vstd::arithmetic::div_mod::lemma_mod_bound(total_games as int, workers as int);
        assert(workers * base == base * workers) by (nonlinear_arith);
    }
    r
}

/// The all-empty game state every game starts from.
pub open spec fn fresh_state() -> Seq<bool> {
    Seq::new(STATE_LEN as nat, |j: int| false)
}

/// A fresh board is open: it has no winning run and free cells.
proof fn lemma_fresh_not_finished()
    ensures
        evaluate_spec(board_of(fresh_state())) == GameResult::NotFinished,
{
    let b = board_of(fresh_state());
    assert forall|j: int| 0 <= j < BOARD_LEN implies !b[j] by {
        vstd::arithmetic::div_mod::lemma_fundamental_div_mod(j, BOARD_PLANES as int);
        vstd::arithmetic::div_mod::lemma_mod_bound(j, BOARD_PLANES as int);
    }
    assert forall|p: int, x: int, y: int, d: int|
        0 <= p < 2 && in_grid(x, y) && 0 <= d < 8 implies !crate::rules::run_in_dir(
        b,
        p,
        x,
        y,
        crate::rules::dir_dx(d),
        crate::rules::dir_dy(d),
        NUM_IN_A_ROW_FOR_WIN as nat,
    ) by {
        assert(!b[bidx(x, y, p)]);
    }
    assert(!crate::rules::side_wins(b, 0));
    assert(!crate::rules::side_wins(b, 1));
    assert(in_grid(0, 0) && !b[bidx(0, 0, 0)] && !b[bidx(0, 0, 1)]);
    assert(!cell_occupied(b, 0, 0));
    assert(!board_full(b));
}

/// `states` and `moves` describe one game played from the fresh state:
/// element `i` of `states` is the state before move `i` and the last
/// element the final state; every recorded move is legal in its state
/// and produces the next one, the game is still open before every move,
/// and `result` is the evaluation of the final state.
pub open spec fn is_game_trace(states: Seq<Seq<bool>>, moves: Seq<Move>, result: GameResult) -> bool {
    &&& states.len() == moves.len() + 1
    &&& states[0] == fresh_state()
    &&& forall|i: int|
        0 <= i < moves.len() ==> {
            &&& evaluate_spec(board_of(#[trigger] states[i])) == GameResult::NotFinished
            &&& legal_moves_spec(board_of(states[i])).contains(moves[i])
            &&& states[i + 1] == state_move_spec(states[i], moves[i], None)
        }
    &&& result == evaluate_spec(board_of(states[moves.len() as int]))
}

/// The records describe one real game: successive states exist, from
/// the fresh one, through which the recorded moves were legally played
/// to the recorded result, and the data's state and mover arrays are
/// exactly those of the played turns.
pub open spec fn records_game(data: TrainingData, moves: Seq<Move>, result: GameResult) -> bool {
    exists|states: Seq<Seq<bool>>|
        {
            &&& #[trigger] is_game_trace(states, moves, result)
            &&& forall|i: int|
                0 <= i < moves.len() ==> {
                    &&& data.states_seq().subrange(i * STATE_LEN, (i + 1) * STATE_LEN)
                        == #[trigger] states[i]
                    &&& data.sides_seq()[i] == side_of(board_of(states[i]))
                }
        }
}

/// Drives one self-play game from the empty board until the game ends or
/// the length cap is reached: every turn runs one `search`, records the
/// pre-move state with the returned visit distribution and the mover,
/// and plays the returned move. Once the loop stops, every recorded turn
/// is labeled with the final result seen from its mover. The returned
/// records are complete and fully labeled; the move list and the final
/// result come along for logging.
///
/// A predictor failure is fatal to the game: it is returned as the error
/// and the game's partial data is discarded.
#[verifier::loop_isolation(false)]
#[verifier::rlimit(100)]
pub fn play_game<P: Predictor>(net: &P) -> (r: Result<
    (TrainingData, Vec<Move>, GameResult),
    PredictorError,
>)
    ensures
        match r {
            Ok(out) => {
                let (data, moves, result) = out;
                &&& data.wf()
                &&& data.has_outcomes()
                &&& data.turns() == moves@.len()
                &&& moves@.len() <= GAME_LENGTH_CAP
                &&& data.outcomes_seq().len() == data.turns()
                &&& forall|i: int|
                    0 <= i < data.turns() ==> data.outcomes_seq()[i] == result.outcome_spec(
                        #[trigger] data.sides_seq()[i],
                    )
                &&& (result != GameResult::NotFinished || moves@.len() == GAME_LENGTH_CAP)
                &&& moves@.len() >= 1
                &&& records_game(data, moves@, result)
            },
            Err(_) => true,
        },
{
    let mut game_state = GameState::init_game_state();
    let mut tree_search = TreeSearch::new(game_state.duplicate());
    let mut res = game_state.evaluate();
    let mut training_data = TrainingData::new();
    let mut moves: Vec<Move> = Vec::new();
    let mut turns: usize = 0;
    let ghost mut trace: Seq<Seq<bool>> = seq![game_state@];
    proof {
        assert(game_state@ =~= fresh_state());
    }
    while !res.has_ended() && turns < GAME_LENGTH_CAP
        invariant
            game_state.wf(),
            tree_search.wf(),
            tree_search.root_state() == game_state@,
            tree_search.sims_done() == NUM_SEARCH * turns,
            turns <= GAME_LENGTH_CAP,
            moves@.len() == turns,
            training_data.wf(),
            training_data.turns() == turns,
            !training_data.has_outcomes(),
            res == evaluate_spec(board_of(game_state@)),
            trace.len() == turns + 1,
            trace[0] == fresh_state(),
            trace[turns as int] == game_state@,
            forall|i: int|
                0 <= i < turns ==> {
                    &&& evaluate_spec(board_of(#[trigger] trace[i])) == GameResult::NotFinished
                    &&& legal_moves_spec(board_of(trace[i])).contains(moves@[i])
                    &&& trace[i + 1] == state_move_spec(trace[i], moves@[i], None)
                },
            forall|i: int|
                0 <= i < turns ==> {
                    &&& training_data.states_seq().subrange(i * STATE_LEN, (i + 1) * STATE_LEN)
                        == #[trigger] trace[i]
                    &&& training_data.sides_seq()[i] == side_of(board_of(trace[i]))
                },
        decreases GAME_LENGTH_CAP - turns,
    {
        proof {
            assert(NUM_SEARCH * turns + NUM_SEARCH == NUM_SEARCH * (turns + 1))
                by (nonlinear_arith);
            assert(NUM_SEARCH * (turns + 1) <= NUM_SEARCH * GAME_LENGTH_CAP)
                by (nonlinear_arith)
                requires
                    turns + 1 <= GAME_LENGTH_CAP,
            ;
        }
        let out = match tree_search.search(net, true) {
            Ok(o) => o,
            Err(e) => {
                return Err(e);
            },
        };
        let ghost pre_states = training_data.states_seq();
        training_data.append_turn(&game_state, &out.pi, out.pi_total);
        proof {
            // the recorded arrays grew by exactly this turn's state and
            // mover, leaving the earlier turns in place
            assert forall|i: int| 0 <= i <= turns implies {
                &&& training_data.states_seq().subrange(i * STATE_LEN, (i + 1) * STATE_LEN)
                    == #[trigger] trace[i]
                &&& training_data.sides_seq()[i] == side_of(board_of(trace[i]))
            } by {
                assert((i + 1) * STATE_LEN <= (turns + 1) * STATE_LEN && i * STATE_LEN >= 0)
                    by (nonlinear_arith)
                    requires
                        0 <= i <= turns,
                        STATE_LEN == 1521,
                ;
                if i < turns {
                    assert(training_data.states_seq().subrange(i * STATE_LEN, (i + 1) * STATE_LEN)
                        =~= pre_states.subrange(i * STATE_LEN, (i + 1) * STATE_LEN)) by {
                        assert((i + 1) * STATE_LEN <= turns * STATE_LEN) by (nonlinear_arith)
                            requires
                                0 <= i < turns,
                                STATE_LEN == 1521,
                        ;
                    }
                } else {
                    assert(training_data.states_seq().subrange(
                        turns * STATE_LEN,
                        (turns + 1) * STATE_LEN,
                    ) =~= game_state@);
                    assert(trace[turns as int] == game_state@);
                }
            }
        }
        let best_move = out.best_move;
        proof {
            lemma_legal_moves_membership(board_of(game_state@), 0, best_move);
        }
        game_state.move_game(best_move, None);
        moves.push(best_move);
        proof {
            trace = trace.push(game_state@);
        }
        res = game_state.evaluate();
        turns = turns + 1;
    }
    proof {
        lemma_fresh_not_finished();
        if turns == 0 {
            assert(game_state@ == trace[0]);
            assert(res == GameResult::NotFinished);
            assert(false);
        }
    }
    training_data.set_result(res);
    proof {
        assert(records_game(training_data, moves@, res)) by {
            assert(is_game_trace(trace, moves@, res));
            assert forall|i: int| 0 <= i < moves@.len() implies {
                &&& training_data.states_seq().subrange(i * STATE_LEN, (i + 1) * STATE_LEN)
                    == #[trigger] trace[i]
                &&& training_data.sides_seq()[i] == side_of(board_of(trace[i]))
            } by {}
        }
    }
    Ok((training_data, moves, res))
}

} // verus!

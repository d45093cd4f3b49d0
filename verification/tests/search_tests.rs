use caro_zero::constants::{NUM_CELLS, NUM_SEARCH};
use caro_zero::monte_carlo_tree_search::{TreeSearch, UniformPredictor};
use caro_zero::rules::types::{GameResult, GameState, Side};
use caro_zero::self_play::distribute_games;
use caro_zero::types::TrainingData;

#[test]
fn search_visit_accounting_on_a_fresh_tree() {
    // On a fresh tree the root has no children, so the very first
    // simulation ends at the root and expands it; the remaining
    // NUM_SEARCH - 1 each pass through exactly one root child.
    let state = GameState::init_game_state();
    let mut search = TreeSearch::new(state);
    let out = search.search(&UniformPredictor, true).unwrap();
    // with the stochastic exponent 1, the distribution's denominator is
    // the sum of the root children's visit counts
    assert_eq!(out.pi_total, (NUM_SEARCH - 1) as u128);
    let sum: u128 = out.pi.iter().sum();
    assert_eq!(sum, out.pi_total);
}

#[test]
fn pi_is_a_distribution_over_the_root_children() {
    let state = GameState::init_game_state();
    let mut search = TreeSearch::new(state);
    let out = search.search(&UniformPredictor, true).unwrap();
    assert_eq!(out.pi.len(), NUM_CELLS);
    assert!(out.pi_total > 0);
    // the numerators sum to exactly the denominator: the distribution
    // sums to exactly one
    let sum: u128 = out.pi.iter().sum();
    assert_eq!(sum, out.pi_total);
    // the committed move's cell carries weight, and at most the number
    // of legal moves can
    assert!(out.pi[out.best_move.x + out.best_move.y * 13] > 0);
    let nonzero = out.pi.iter().filter(|&&w| w > 0).count();
    assert!(nonzero <= 169);
}

#[test]
fn greedy_search_also_yields_a_distribution() {
    let state = GameState::init_game_state();
    let mut search = TreeSearch::new(state);
    let out = search.search(&UniformPredictor, false).unwrap();
    let sum: u128 = out.pi.iter().sum();
    assert_eq!(sum, out.pi_total);
    assert!(out.pi_total > 0);
}

#[test]
fn outcome_for_side_is_antisymmetric() {
    assert_eq!(GameResult::XWins.outcome_for_side(Side::X), 1);
    assert_eq!(GameResult::XWins.outcome_for_side(Side::O), -1);
    assert_eq!(GameResult::OWins.outcome_for_side(Side::O), 1);
    assert_eq!(GameResult::OWins.outcome_for_side(Side::X), -1);
    assert_eq!(GameResult::Draws.outcome_for_side(Side::X), 0);
    assert_eq!(GameResult::Draws.outcome_for_side(Side::O), 0);
    assert_eq!(GameResult::NotFinished.outcome_for_side(Side::X), 0);
}

#[test]
fn training_data_labels_every_turn() {
    let mut data = TrainingData::new();
    let state = GameState::init_game_state();
    let pi = vec![0u128; NUM_CELLS];
    data.append_turn(&state, &pi, 0);
    let mut second = GameState::init_game_state();
    second.move_game(caro_zero::rules::types::Move::new(0, 0), None);
    data.append_turn(&second, &pi, 0);
    data.set_result(GameResult::XWins);
    assert_eq!(data.get_num_turns(), 2);
    let outcomes = data.get_outcomes().as_ref().unwrap();
    // the first turn was X to move, the second O to move
    assert_eq!(outcomes[0], 1);
    assert_eq!(outcomes[1], -1);
}

#[test]
fn game_distribution_covers_the_total() {
    let counts = distribute_games(10, 4);
    assert_eq!(counts, vec![3, 3, 2, 2]);
    assert_eq!(counts.iter().sum::<usize>(), 10);

    let even = distribute_games(8, 4);
    assert_eq!(even, vec![2, 2, 2, 2]);

    let single = distribute_games(3, 12);
    assert_eq!(single.iter().sum::<usize>(), 3);
    assert_eq!(single.len(), 12);
}

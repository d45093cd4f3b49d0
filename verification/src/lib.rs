//! Self-play training-data generation for a five-in-a-row board game:
//! the board and game-state model, a PUCT-guided Monte-Carlo tree search
//! driven by an external policy/value predictor, and the per-game
//! self-play driver, each with a verified contract.
pub mod arith;
pub mod constants;
pub mod monte_carlo_tree_search;
mod rng;
pub mod rules;
pub mod self_play;
pub mod types;

//! Evaluation of candidate solutions to a 0/1 knapsack problem under a hard
//! capacity constraint: reading instances from text, aggregating the value
//! and weight of a candidate, and ranking candidates with a
//! feasibility-first score.

pub mod cliff_score;
pub mod cliff_scorer;
pub mod item;
pub mod knapsack;
pub mod run_error;
pub mod text;

pub use cliff_score::CliffScore;
pub use cliff_scorer::CliffScorer;
pub use item::{Item, ItemError};
pub use knapsack::Knapsack;
pub use run_error::{ParseError, RunError};

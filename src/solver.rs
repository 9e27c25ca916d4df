//! The search: instances, their solutions and the statistics kept.
pub use crate::dfs::{BacktrackStrategy, EvaluationStats, Instance, Solution, Verdict};

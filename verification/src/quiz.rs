//! The quiz itself: answers, scores, and how a round runs.

pub mod answers;
pub mod merge;
pub mod reconcile;
pub mod display;
pub mod scores;
pub mod round;

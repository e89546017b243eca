//! TriviaQA as a second source of questions.

pub mod archive;
pub mod classify;
pub mod cleanup;
pub mod dataset;
pub mod supply;
pub mod titles;

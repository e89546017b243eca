//! Fetching trivia questions from the Open Trivia Database.

pub mod batch;
pub mod cache;
pub mod categories;
pub mod fallback;
pub mod gather;
pub mod matching;
pub mod questions;
pub mod rounds;
pub mod single;
pub mod token;
pub mod variety;

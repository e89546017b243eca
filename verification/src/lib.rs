//! Decision core of a Matrix quiz bot.

pub mod calendar;
pub mod chance;
pub mod commands;
pub mod config;
pub mod db;
pub mod explainer;
pub mod fetcher;
pub mod format;
pub mod groq;
pub mod leaderboard;
pub mod letters;
pub mod names;
pub mod numbers;
pub mod order;
pub mod quiz;
pub mod retry;
pub mod scheduler;
pub mod state;
pub mod text;
pub mod triviaqa;

//! Ranking of rows, shell history and acceptance records.
pub mod acceptance;
pub mod frecency;
pub mod history;
pub mod order;
pub mod source;

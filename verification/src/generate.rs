//! Rows for arguments from generators: files, scripts, git and package data,
//! and shell history.
pub mod ask;
pub mod cache;
pub mod run;
pub mod seeds;
pub mod shape;
pub mod source;
pub mod trigger;

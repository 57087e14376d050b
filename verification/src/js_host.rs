//! Hooks: the JavaScript parts of specs. This module builds the programs that
//! run them, reads what they return, and decides what is kept of it.
pub mod fig;
pub mod hook;
pub mod keep;
pub mod reply;

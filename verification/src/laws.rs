//! What the library promises, stated over inputs and results.
//!
//! The functions of the other modules say what they compute. The proof functions
//! here say what follows for a caller: how a result looks from the outside, and
//! how the results of two calls relate.
pub mod active;
pub mod complete;
pub mod engine;
pub mod files;
pub mod generate;
pub mod history;
pub mod hooks;
pub mod options;
pub mod order;
pub mod paths;
pub mod rank;
pub mod registry;
pub mod rows;
pub mod shape;
pub mod shell;
pub mod sources;
pub mod text;
pub mod walk;

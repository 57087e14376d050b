//! A completion engine for shells: from the text before the caret and a static
//! description of commands to a ranked list of rows.
//!
//! Everything here is a function of plain values. What only the outside can
//! answer (files, processes, hooks, the clock) comes in as answers: a function
//! takes the answers it has been given so far, and returns its result or the
//! next thing it needs to know.
//!
//! - [`lookup`] reads the command line, walks it along a spec and collects rows;
//! - [`generate`], [`filegen`], [`cobra`] and [`history`] make the rows of
//!   arguments;
//! - [`js_host`] builds the programs of hooks and reads their replies;
//! - [`query`] matches names, [`rank`] puts rows in order;
//! - [`ir`], [`registry`], [`references`], [`nesting`] and [`index`] hold the
//!   specs;
//! - [`engine`] ties these together, [`worker`] and [`process`] decide how
//!   attempts and child processes are supervised;
//! - [`laws`] states what follows from all this for a caller.
pub mod cobra;
pub mod engine;
pub mod filegen;
pub mod generate;
pub mod history;
pub mod index;
pub mod ir;
pub mod js_host;
pub mod json;
pub mod laws;
pub mod lookup;
pub mod nesting;
pub mod paths;
pub mod process;
pub mod query;
pub mod rank;
pub mod references;
pub mod registry;
pub mod runtime;
pub mod settings;
pub mod sorted;
pub mod text;
pub mod tree;
pub mod worker;

pub use engine::Engine;
pub use ir::{ArgSpec, Builtin, OptionSpec, Spec, Template};
pub use lookup::shell::{completion_buffer, current_command_slice, tokenize};
pub use rank::acceptance::{AcceptanceIndex, ACCEPTANCE_STATE_KEY};
pub use registry::Registry;
pub use runtime::{ranking_root_command, CompleteRequest, CompleteResult, CurrentArg, Suggestion};

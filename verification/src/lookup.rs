//! Lookup: from the words of an edit buffer to the rows offered at the caret.
pub mod active;
pub mod auto_execute;
pub mod candidates;
pub mod complete;
pub mod options;
pub mod rows;
pub mod shell;
pub mod walk;

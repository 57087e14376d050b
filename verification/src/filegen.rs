//! Path suggestions: which directory a typed prefix lists, and which of its
//! entries become rows in which order.
pub mod expand;
pub mod filter;
pub mod list;

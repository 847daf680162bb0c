//! A streaming, incrementally maintained relational operator pipeline over
//! columnar record batches.
//!
//! Data flows through a tree of nodes (source, projection, filter, group-by
//! aggregation). Every schema that crosses a node boundary carries, as its
//! last field, a boolean `retraction` column: a row with `retraction == false`
//! asserts a fact, a row with `retraction == true` withdraws an earlier
//! asserted fact. The group-by operator produces a change stream: when a
//! key's aggregate is re-triggered, the previously emitted row is withdrawn
//! (retraction) and the new value is emitted right after it.

pub mod types;
pub mod key;
pub mod keymap;
pub mod node;
pub mod aggregate;
pub mod trigger;
pub mod source;
pub mod projection;
pub mod filter;
pub mod groupby;
pub mod laws;

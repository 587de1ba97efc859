//! A kernel for discrete-time multi-agent simulations.
//!
//! The kernel manages a graph of named entities, each carrying mutable typed
//! state and a set of activatable behavior functions, connected by typed,
//! cardinality-constrained relations. One simulation step runs in two phases:
//! every registered process observes a consistent snapshot of the graph and
//! returns deferred mutation commands, and the collected commands are then
//! applied to the live graph in order.

pub mod context;
pub mod entity;
pub mod function;
pub mod laws;
pub mod relation;
pub mod model;
pub mod registry;
pub mod result;
pub mod types;
pub mod value;

//! Coordination core for sequencing dependency-graph computations.
//!
//! A client submits a directed dependency graph scoped to a change set; the
//! coordinator determines which nodes are immediately computable, signals each
//! exactly once, tracks completion or failure, and propagates readiness (or
//! failure) to dependent nodes until the graph is fully resolved or the
//! session is torn down.

pub mod category;
pub mod client;
pub mod component;
pub mod coordinator;
pub mod graph;
pub mod model;
pub mod session;

//! Scheduling engine for a quantum-circuit job service: a store of jobs,
//! agents and assignments, admission and drain rules for agents, a priority
//! dispatcher, shot slicing and the merge of partial results.
mod ids;
pub mod dispatcher;
pub mod executor;
pub mod laws;
pub mod memory;
pub mod model;
pub mod queue;
pub mod registry;
pub mod store;

//! Execution kernel for a streaming dataflow engine.
//!
//! A user-defined directed acyclic graph of sources, processors and sinks
//! exchanges change-data-capture operations over bounded typed channels.
//! This crate holds the verified core: the DAG model and its validation,
//! the edge indexes and worker state machines of the executor, a
//! deterministic execution model for whole pipelines, the checkpoint
//! record codec and consistency analyzer, and the aggregation helpers.
//! Thread spawning, storage environments and file I/O live with the
//! embedding program, which drives these state machines.

pub mod errors;
pub mod types;
pub mod dag;
pub mod executor;
pub mod channel;
pub mod worker;
pub mod simulator;
pub mod checkpoint;
pub mod aggregate;
pub mod logsink;

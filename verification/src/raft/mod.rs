//! Raft consensus: cluster configurations, the replicated log, elections,
//! replication, snapshots and membership changes.

pub mod append;
pub mod apply;
pub mod chain;
pub mod changes;
pub mod cluster;
pub mod command;
pub mod config;
pub mod drive;
pub mod durable;
pub mod election;
pub mod heartbeat;
pub mod laws;
pub mod leader;
pub mod membership;
pub mod moves;
pub mod network;
pub mod node;
pub mod order;
pub mod outcome;
pub mod progress;
pub mod safety;
pub mod snapshot;

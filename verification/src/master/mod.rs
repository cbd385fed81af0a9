//! The metadata service: files, blocks, chunk servers and transactions.

pub mod admin;
pub mod allocate;
pub mod apply;
pub mod heal;
pub mod laws;
pub mod moves;
pub mod placement;
pub mod rename;
pub mod repairs;
pub mod requests;
pub mod scan;
pub mod service;
pub mod spread;
pub mod state;
pub mod tiering;
pub mod transaction;
pub mod types;
pub mod upkeep;

//! The S3 front end: requests, listings, authentication, temporary
//! credentials and the audit log.

pub mod audit;
pub mod audit_reader;
pub mod auth;
pub mod auth_middleware;
pub mod browse;
pub mod laws;
pub mod listing;
pub mod objects;
pub mod outside;
pub mod serving;
pub mod sts;
pub mod tracing;
pub mod types;
pub mod vouching;

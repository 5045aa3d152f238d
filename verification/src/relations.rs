//! Snapshot-local directory topology and the queries that need it.
pub mod topology;
pub mod hierarchy;
pub mod resolve;
pub mod laws;

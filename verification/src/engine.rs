//! The decisions of the engine that keeps an index: what to reconcile, what to publish, what to
//! answer.
pub mod checks;
pub mod content;
pub mod errors;
pub mod laws;
pub mod leases;
pub mod links;
pub mod outcome;
pub mod pass_laws;
pub mod prepare;
pub mod prune;
pub mod publish;
pub mod reconcile;
pub mod request_laws;
pub mod requests;
pub mod step_laws;
pub mod watch;

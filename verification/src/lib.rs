//! An incremental, demand-driven query evaluator: queries are memoized by the
//! fingerprints of what they saw, and run again only where that has changed.
//!
//! The crate holds the persistent map that snapshots of dependencies are kept
//! in, and the decisions of the coordinator that runs the queries; the tasks
//! and channels that carry those decisions out are left to the caller.
pub mod tripper;
pub mod sparse_vec;
pub mod nodes;
pub mod hashing;
pub mod iter;
pub mod structure;
pub mod set_wrapper;
pub mod query_id;
pub mod serialization;
pub mod data;
pub mod instances;
pub mod fingerprinting;
pub mod error;
pub mod cache;
pub mod execution;
pub mod tracer_types;
pub mod trace;
pub mod tracer;
pub mod check;
pub mod analyzer;
pub mod laws;

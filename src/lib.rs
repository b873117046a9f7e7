//! An embedded, content-addressed, append-only database whose state is
//! resolved by merging conflict-free replicated values over a DAG of entries.
pub mod errors;
pub mod order;
pub mod crdt;
pub mod entry;
pub mod auth;
pub mod backend;
pub mod basedb;
pub mod atomicop;

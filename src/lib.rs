//! Capture of execution test fixtures: blob-hash indexing for batch
//! transactions, ordering of pending transactions, first-write / last-write
//! merging of account state, fixture assembly with its consistency check, and
//! the decisions of the capture session.

pub mod primitives;
pub mod blobs;
pub mod state;
pub mod fixture;
pub mod repl;
pub mod orderer;

//! A batch asset-loading coordinator.
//!
//! The heart of the crate is [`loader::Loader`], a reusable synchronization
//! primitive: a caller enqueues a group of named load requests, submits the
//! group, and is told exactly once when the whole group has resolved, after
//! which the individual results can be retrieved by name and the coordinator
//! reset for a new batch.

pub mod error;
pub mod loader;

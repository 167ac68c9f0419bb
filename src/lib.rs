//! Locating and fetching build artifacts kept in an S3-style object store.
//!
//! The library holds the decisions: how a prefix space is walked, how a
//! commit hash is resolved, how listed keys become a tree, and how a download
//! is laid out on disk. Network and filesystem work is left to the caller,
//! which hands the results back as plain values.

pub mod text;
pub mod listing;
pub mod tree;
pub mod paths;
pub mod walk;
pub mod resolve;
pub mod download;
pub mod location;
pub mod latest;
pub mod config;

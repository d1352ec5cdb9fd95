//! Deduplicating, encrypted, incremental backups onto a store of immutable blobs.
//!
//! The crate holds the decisions of the backup tool: where a byte stream is cut
//! into blocks, how a blob is sealed and opened, what the manifest records and
//! how a session changes it. Reading files, talking to the remote store and
//! persisting the manifest are left to the caller.

pub mod bytes;
pub mod client;
pub mod codec;
pub mod config;
pub mod database;
pub mod digest;
pub mod error;
pub mod glob;
pub mod laws;
pub mod manifest;
pub mod names;
pub mod pack;
pub mod plan;
pub mod rows;
pub mod sort;
pub mod split;
pub mod table;
pub mod tables;
pub mod walk;

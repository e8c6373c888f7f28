//! Incremental change detection over external object stores, and the
//! path/commit discipline of a durable key-value backend.
//!
//! The core pieces are a cached table of last-observed object metadata,
//! the diff logic that turns fresh observations into queued actions
//! (read, update, delete), a filesystem scanner built on glob matching,
//! and a model of the write-to-temp-then-rename commit protocol.

pub mod cached_object_storage;
pub mod commit_protocol;
pub mod filesystem_scanner;
pub mod kv_paths;
pub mod metadata;
pub mod pipe;
pub mod scanner;
pub mod telemetry;

//! Ingestion, analysis and retrieval of scans of a remote application's
//! object tree and scripts: an order-independent content hash of the tree,
//! static outlines of scripts, the merge rules of per-target scope files,
//! the filters of scope queries, manifests and the sessions of scans in
//! progress.
pub mod config;
pub mod executor;
pub mod hash;
pub mod json;
pub mod manifest;
pub mod model;
pub mod outline;
pub mod query;
pub mod scripts;
pub mod sessions;
pub mod store;
pub mod text;

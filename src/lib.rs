//! A chunked, integrity-checked object store over capacity-bounded shards.
//!
//! The verified core: chunk planning, first-fit shard allocation, manifest
//! construction and validation, grouping of transfers by shard, download
//! verification, the version gate and the push retry policy.
pub mod config;
pub mod naming;
pub mod chunker;
pub mod allocator;
pub mod manifest;
pub mod integrity;
pub mod transfer;
pub mod version;
pub mod commands;
pub mod retry;
pub mod layout;

//! Merges per-folder asset-manifest documents into one consolidated
//! manifest, deduplicating assets by name with a first-write-wins policy.

pub mod aggregate;
pub mod asset;
pub mod json;
pub mod loader;
pub mod manifest;
pub mod writer;

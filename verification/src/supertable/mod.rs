//! The table over superfiles: manifests, commits and queries.

pub mod error;
pub mod handle;
pub mod lazy_source;
pub mod manifest;
pub mod mutations;
pub mod query;
pub mod reader_cache;
pub mod tombstones;
pub mod utils;

//! The two-tier manifest: which superfiles a snapshot of the table holds.

pub mod arrays;
pub mod avro;
pub mod error;
pub mod frame;
pub mod offsets;
pub mod part;
pub mod partition;
pub mod snapshot;
pub mod commit;
pub mod cache_index;
pub mod disk_cache;

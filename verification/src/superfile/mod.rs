//! The single-file format: a Parquet file with embedded indexes.

pub mod buffer;
pub mod format;
pub mod fts;
pub mod lazy_source;
pub mod vector;

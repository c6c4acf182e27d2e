//! Full-text search inside one superfile.

pub mod bm25;

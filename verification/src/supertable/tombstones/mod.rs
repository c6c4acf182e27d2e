//! Deleted rows: which rows of a superfile are gone, and how long that is
//! taken as known.

pub mod bitmap;
pub mod cache;

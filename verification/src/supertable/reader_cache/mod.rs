//! The cache of superfiles on local disk.

pub mod config;

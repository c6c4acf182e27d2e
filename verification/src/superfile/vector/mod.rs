//! Vector columns: sampling, spilled vectors and metrics.

pub mod distance;
pub mod reservoir;
pub mod spill;

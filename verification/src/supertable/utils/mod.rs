//! Small services of the table.

pub mod idgen;

//! Queries over the superfiles of a snapshot.

pub mod hierarchical_iter;
pub mod match_exec;
pub mod superfile_reader;
pub mod vector;

use vstd::prelude::*;
use crate::supertable::manifest::part::SuperfileUri;

verus! {

/// A row of a superfile, with the bits of its score.
#[derive(Debug, Clone, Copy, PartialEq, Eq, Structural)]
pub struct SuperfileHit {
    pub superfile: SuperfileUri,
    pub local_doc_id: u32,
    pub score: u32,
}

/// Does a row have to match every token, or any?
#[derive(Debug, Clone, Copy, PartialEq, Eq, Structural)]
pub enum BoolMode {
    And,
    Or,
}

} // verus!

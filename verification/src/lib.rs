//! A search-optimised table format: superfiles, the manifest over them, and
//! the storage rules that publish one snapshot after another.

pub mod numbers;
pub mod ids;
pub mod order;
pub mod storage;
pub mod superfile;
pub mod supertable;
pub mod text;

use vstd::prelude::*;

verus! {

/// Writer identification, written to the `inf.builder` metadata key:
/// `infino/<crate-version>+<commit>`, where `unknown` stands for a build
/// outside a checkout.
pub const BUILDER_ID: &'static str = "infino/0.1.0+unknown";

} // verus!

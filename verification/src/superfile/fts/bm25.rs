//! The parameters of BM25 scores, as the bits of single-precision numbers.

use vstd::prelude::*;

verus! {

/// How fast the weight of a frequent term levels off: 1.2.
pub const K1: u32 = 0x3F99_999A;

/// How much the length of a document counts: 0.75.
pub const B: u32 = 0x3F40_0000;

} // verus!

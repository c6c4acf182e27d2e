//! Magic bytes and version of the full-text section.

use vstd::prelude::*;

verus! {

/// The 8 bytes at the start of the full-text blob: `INF`, `FTS`, version `01`.
pub const MAGIC: [u8; 8] = [0x49, 0x4e, 0x46, 0x46, 0x54, 0x53, 0x30, 0x31];

/// Numeric version in the blob header.
pub const VERSION: u32 = 1;

} // verus!

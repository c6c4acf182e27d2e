//! Magic bytes and versions of the vector section.

use vstd::prelude::*;

verus! {

/// The 8 bytes at the start of the vector blob's outer header.
pub const OUTER_MAGIC: [u8; 8] = [0x49, 0x4e, 0x46, 0x56, 0x45, 0x43, 0x30, 0x31];

/// The 8 bytes at the start of each per-column subsection.
pub const SUB_MAGIC: [u8; 8] = [0x49, 0x4e, 0x46, 0x56, 0x45, 0x43, 0x43, 0x31];

/// Version of the outer blob, at bytes 8 to 12 of its header.
pub const VERSION: u32 = 1;

/// Layout version of a subsection, at bytes 8 to 12 of its header.
pub const SUBSECTION_VERSION: u32 = 2;

} // verus!

//! Shared, immutable byte buffers.

use bytes::Bytes;
use vstd::prelude::*;

verus! {

/// `bytes::Bytes`, carried as it is.
#[verifier::external_type_specification]
#[verifier::external_body]
pub struct ExBytes(Bytes);

/// The bytes that a buffer holds.
pub uninterp spec fn buffer_contents(buffer: Bytes) -> Seq<u8>;

/// How many bytes a buffer holds. Calls `Bytes::len`.
#[verifier::external_body]
pub(crate) fn buffer_len(buffer: &Bytes) -> (len: usize)
    ensures
        len == buffer_contents(*buffer).len(),
{
    buffer.len()
}

/// The bytes from `from` up to `to`, sharing the buffer's memory. Calls
/// `Bytes::slice`, which panics outside the buffer.
#[verifier::external_body]
pub(crate) fn buffer_slice(buffer: &Bytes, from: usize, to: usize) -> (slice: Bytes)
    requires
        from <= to <= buffer_contents(*buffer).len(),
    ensures
        buffer_contents(slice) == buffer_contents(*buffer).subrange(from as int, to as int),
{
    buffer.slice(from..to)
}

} // verus!

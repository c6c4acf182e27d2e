//! Compressed frames and content digests.

use vstd::prelude::*;

verus! {

/// The frame that `zstd::stream::encode_all` makes of bytes at a level.
pub uninterp spec fn zstd_frame(bytes: Seq<u8>, level: int) -> Seq<u8>;

/// What `zstd::stream::decode_all` makes of a frame: its content, or the text
/// of its error.
pub uninterp spec fn zstd_content(frame: Seq<u8>) -> Result<Seq<u8>, Seq<char>>;

/// The 32 bytes that `blake3::hash` makes of bytes.
pub uninterp spec fn blake3_digest(bytes: Seq<u8>) -> Seq<u8>;

/// Are the bytes `bytes` what was read?
pub open spec fn reads_as_bytes(res: Result<Seq<u8>, Seq<char>>, bytes: Seq<u8>) -> bool {
    res == Ok::<Seq<u8>, Seq<char>>(bytes)
}

/// [`zstd_content`] for a result of [`decompress`].
pub open spec fn content_result(res: Result<Vec<u8>, String>) -> Result<Seq<u8>, Seq<char>> {
    match res {
        Ok(bytes) => Ok(bytes@),
        Err(text) => Err(text@),
    }
}

/// Compresses into one frame. Calls `zstd::stream::encode_all`, which takes
/// every level (one outside the range of `zstd` counts as the nearest inside
/// it); [`zstd_frame`] names the frame, and its content is `bytes`.
#[verifier::external_body]
pub(crate) fn compress(bytes: &[u8], level: i32) -> (frame: Vec<u8>)
    ensures
        frame@ == zstd_frame(bytes@, level as int),
        reads_as_bytes(zstd_content(frame@), bytes@),
{
    zstd::stream::encode_all(bytes, level).expect("memory holds the frame")
}

/// Decompresses a frame. Calls `zstd::stream::decode_all`; [`zstd_content`]
/// names what it returns.
#[verifier::external_body]
pub(crate) fn decompress(frame: &[u8]) -> (res: Result<Vec<u8>, String>)
    ensures
        content_result(res) == zstd_content(frame@),
{
    zstd::stream::decode_all(frame).map_err(|e| e.to_string())
}

/// Digests bytes. Calls `blake3::hash`; [`blake3_digest`] names the digest.
#[verifier::external_body]
pub(crate) fn digest(bytes: &[u8]) -> (hash: [u8; 32])
    ensures
        hash@ == blake3_digest(bytes@),
{
    *blake3::hash(bytes).as_bytes()
}

} // verus!

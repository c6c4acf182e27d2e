//! Universally unique identifiers as 128-bit numbers.

use vstd::prelude::*;
use crate::numbers::be_bytes;
use crate::text::hex;

verus! {

/// The hyphenated form of `id`: its 32 hexadecimal digits in groups of 8, 4,
/// 4, 4 and 12.
pub open spec fn uuid_chars(id: u128) -> Seq<char> {
    let h = hex(be_bytes(id as nat, 16));
    h.subrange(0, 8) + seq!['-'] + h.subrange(8, 12) + seq!['-'] + h.subrange(12, 16) + seq!['-']
        + h.subrange(16, 20) + seq!['-'] + h.subrange(20, 32)
}

/// What `Uuid::parse_str` of the `uuid` crate makes of a text: the number, or
/// the text of its error.
pub uninterp spec fn uuid_of(text: Seq<char>) -> Result<u128, Seq<char>>;

/// Is `res` the number `id`?
pub open spec fn reads_as_uuid(res: Result<u128, Seq<char>>, id: u128) -> bool {
    res == Ok::<u128, Seq<char>>(id)
}

/// [`uuid_of`] for a result of [`parse_uuid`].
pub open spec fn uuid_result(res: Result<u128, String>) -> Result<u128, Seq<char>> {
    match res {
        Ok(id) => Ok(id),
        Err(text) => Err(text@),
    }
}

/// Reads a UUID. Calls `Uuid::parse_str`, which takes the hyphenated, simple,
/// braced and URN forms; [`uuid_of`] names what it returns, and the hyphenated
/// lower-case form of a number reads as that number.
#[verifier::external_body]
pub(crate) fn parse_uuid(text: &str) -> (res: Result<u128, String>)
    ensures
        uuid_result(res) == uuid_of(text@),
        forall|id: u128| text@ == #[trigger] uuid_chars(id) ==> reads_as_uuid(uuid_result(res), id),
{
    uuid::Uuid::parse_str(text).map(|id| id.as_u128()).map_err(|e| e.to_string())
}

/// The text of a UUID. Calls `Uuid::to_string`, which gives the hyphenated
/// lower-case form; `Uuid::parse_str` reads it as the same number.
#[verifier::external_body]
pub(crate) fn uuid_text(id: u128) -> (text: String)
    ensures
        text@ == uuid_chars(id),
        reads_as_uuid(uuid_of(text@), id),
{
    uuid::Uuid::from_u128(id).to_string()
}

/// Does `id` have the version and variant bits of a random UUID?
pub open spec fn is_random_uuid(id: u128) -> bool {
    (id >> 76u128) & 0xF == 4 && (id >> 62u128) & 0x3 == 2
}

/// A new random UUID. Calls `Uuid::new_v4`; whatever the random bits, the
/// version and variant bits are those of a random UUID.
#[verifier::external_body]
pub(crate) fn random_uuid() -> (id: u128)
    ensures
        is_random_uuid(id),
{
    uuid::Uuid::new_v4().as_u128()
}

} // verus!

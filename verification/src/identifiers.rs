//! Identifiers of users and records: UUIDs, held as the 128-bit number that
//! each of them is.

use vstd::prelude::*;

verus! {

/// The error that `uuid` reports for a text that it cannot read.
#[verifier::external_type_specification]
#[verifier::external_body]
pub struct ExUuidError(uuid::Error);

/// The UUID that `uuid` reads from a text, as a number; nothing where it
/// reports an error.
pub uninterp spec fn uuid_in_text(text: Seq<char>) -> Option<u128>;

/// `uuid::Uuid::parse_str`, the UUID taken as a number with
/// `uuid::Uuid::as_u128`: what it reads is what `uuid_in_text` names.
#[verifier::external_body]
fn read_uuid(text: &str) -> (parsed: Result<u128, uuid::Error>)
    ensures
        parsed matches Ok(id) ==> uuid_in_text(text@) == Some(id),
        parsed is Err <==> uuid_in_text(text@) is None,
{
    let id = uuid::Uuid::parse_str(text)?;
    Ok(id.as_u128())
}

/// The UUID that `text` names, as a number; nothing where the text names none.
pub fn parse_uuid(text: &str) -> (id: Option<u128>)
    ensures
        id == uuid_in_text(text@),
{
    match read_uuid(text) {
        Ok(found) => Some(found),
        Err(_) => None,
    }
}

} // verus!

//! The ids files are named by.

use uuid::Uuid;
use vstd::prelude::*;

use crate::text::{hex, hex_digit};

verus! {

#[verifier::external_type_specification]
#[verifier::external_body]
pub struct ExUuid(uuid::Uuid);

/// The bytes of a uuid, most significant first.
pub uninterp spec fn uuid_bytes(id: Uuid) -> Seq<u8>;

/// `Uuid::now_v7`: a new id, of version 7 and the standard variant. Which one
/// depends on the clock and on chance.
#[verifier::external_body]
pub(crate) fn new_id() -> (id: Uuid)
    ensures
        uuid_bytes(id).len() == 16,
        uuid_bytes(id)[6] / 16 == 7,
        uuid_bytes(id)[8] / 64 == 2,
{
    Uuid::now_v7()
}

/// `Uuid::simple`, as text: the sixteen bytes in lower-case hex, unhyphenated.
#[verifier::external_body]
pub(crate) fn simple(id: &Uuid) -> (text: String)
    ensures
        text@ == hex(uuid_bytes(*id)),
        text@.len() == 32,
{
    id.simple().to_string()
}

/// Hex has digits and the letters to f, and nothing that separates ids or
/// means anything in a path.
pub proof fn hex_is_plain(bytes: Seq<u8>, i: int)
    requires
        0 <= i < hex(bytes).len(),
    ensures
        hex(bytes)[i] != '_',
        hex(bytes)[i] != '.',
        hex(bytes)[i] != '/',
        '0' <= hex(bytes)[i] <= '9' || 'a' <= hex(bytes)[i] <= 'f',
{
    let byte = bytes[i / 2];
    assert(0 <= byte / 16 < 16);
    assert(hex(bytes)[i] == hex_digit(byte as int / 16) || hex(bytes)[i] == hex_digit(
        byte as int % 16,
    ));
}

} // verus!

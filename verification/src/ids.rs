//! Fresh identifiers, drawn from the `uuid` crate.

use vstd::prelude::*;

verus! {

/// `uuid::Uuid`, a 128-bit identifier. The library carries such values and
/// never looks inside them.
#[verifier::external_type_specification]
#[verifier::external_body]
pub struct ExUuid(uuid::Uuid);

/// `Clone::clone` of `uuid::Uuid`, which the crate derives beside `Copy`: the
/// clone is the identifier itself.
pub assume_specification[ <uuid::Uuid as Clone>::clone ](id: &uuid::Uuid) -> (copy: uuid::Uuid)
    ensures
        copy == *id,
;

/// Calls `uuid::Uuid::new_v4`, which draws a random version-4 identifier.
/// Nothing is claimed of the value: in particular not that it differs from
/// any identifier drawn before.
#[verifier::external_body]
pub(crate) fn fresh_uuid() -> (id: uuid::Uuid) {
    uuid::Uuid::new_v4()
}

/// Calls the `From<Uuid>` conversion of `String`, which writes the identifier
/// as hyphenated lower-case hexadecimal text. Nothing is claimed of the text.
#[verifier::external_body]
pub(crate) fn uuid_text(id: uuid::Uuid) -> (text: String) {
    String::from(id)
}

} // verus!

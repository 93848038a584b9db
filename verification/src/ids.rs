//! Fresh identifiers for hands and tables.

use vstd::prelude::*;
use crate::types::Id;

verus! {

/// Whether `id` bears the marks of a random UUID: its version field is 4
/// and its variant field begins with the bits `10`.
pub open spec fn is_random_uuid(id: Id) -> bool {
    id & 0x0000_0000_0000_f000_c000_0000_0000_0000u128
        == 0x0000_0000_0000_4000_8000_0000_0000_0000u128
}

/// Draws a fresh identifier: calls `uuid::Uuid::new_v4` and hands the UUID
/// out as the 128-bit integer that `Uuid::as_u128` gives, which orders as
/// the UUID does.
///
/// Trusted: `new_v4` sets the version field to 4 and the variant field to
/// the RFC variant whatever the random bits are, which is all that is
/// claimed of the result. Two calls may return the same value. The call
/// panics where the operating system yields no random bytes.
#[verifier::external_body]
pub(crate) fn fresh_id() -> (id: Id)
    ensures
        is_random_uuid(id),
{
    uuid::Uuid::new_v4().as_u128()
}

} // verus!

//! Fresh event identifiers.

use vstd::prelude::*;

verus! {

/// Whether `id` carries the version and variant marks of a random
/// (version 4) UUID: the high nibble of byte 6 is `4` and the two top bits
/// of byte 8 are `10`.
pub open spec fn is_random_uuid(id: Seq<u8>) -> bool {
    &&& id.len() == 16
    &&& id[6] / 16 == 4
    &&& id[8] / 64 == 2
}

/// Draws a random identifier with `uuid::Uuid::new_v4` and hands back its
/// 16 bytes.
///
/// Trusted: whatever the random source gives, the bytes carry the version 4
/// and variant marks. Nothing else is claimed of them.
#[verifier::external_body]
pub(crate) fn fresh_id() -> (id: [u8; 16])
    ensures
        is_random_uuid(id@),
{
    *uuid::Uuid::new_v4().as_bytes()
}

} // verus!

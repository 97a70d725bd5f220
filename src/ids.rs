//! Random identifiers.
use vstd::prelude::*;

verus! {

/// Relies on uuid::Uuid::new_v4 for a random identifier, taken as its
/// 128-bit value (Uuid::as_u128).
#[verifier::external_body]
pub(crate) fn random_uuid() -> (r: u128) {
    uuid::Uuid::new_v4().as_u128()
}

} // verus!

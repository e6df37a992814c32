//! Identifiers: orders and messages are named by UUIDs, held here as the
//! 128-bit integers they are.
use uuid::Uuid;
use vstd::prelude::*;

verus! {

/// Relies on `uuid::Uuid::new_v4`: a random version-4 UUID, as its integer.
/// Nothing is known of the value.
#[verifier::external_body]
pub(crate) fn random_uuid() -> (r: u128) {
    Uuid::new_v4().as_u128()
}

} // verus!

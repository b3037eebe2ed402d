use uuid::Uuid;
use vstd::prelude::*;

verus! {

/// Draws a new identity for a node.
///
/// Trusted: this is `uuid::Uuid::new_v4`, a random UUID, handed out as
/// the 128-bit number that `Uuid::as_u128` packs its bytes into. Nothing is
/// promised of the number: it comes from the random generator of the
/// operating system.
#[verifier::external_body]
pub(crate) fn new_identity() -> u128 {
    Uuid::new_v4().as_u128()
}

} // verus!

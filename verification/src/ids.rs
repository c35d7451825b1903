//! Fresh identifiers for trades.

use vstd::prelude::*;

verus! {

/// Relies on `uuid::Uuid::new_v4` for a freshly drawn random
/// version-4 UUID, taken as its 128-bit value. The draw is random,
/// so nothing is promised of the result; the call panics only if the
/// operating system's random source fails.
#[verifier::external_body]
pub(crate) fn fresh_id() -> u128 {
    uuid::Uuid::new_v4().as_u128()
}

} // verus!

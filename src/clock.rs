use std::time::Instant;
use vstd::prelude::*;

use crate::transaction::ReservationToken;

verus! {

#[verifier::external_type_specification]
#[verifier::external_body]
pub struct ExInstant(Instant);

/// Relies on `Instant::now`: the moment a pool's clock starts.
#[verifier::external_body]
pub(crate) fn clock_start() -> (r: Instant) {
    Instant::now()
}

/// Relies on `Instant::elapsed`: milliseconds since `origin`; nothing is
/// promised of the value.
#[verifier::external_body]
pub(crate) fn millis_since(origin: &Instant) -> (r: u64) {
    origin.elapsed().as_millis() as u64
}

/// Relies on `uuid::Uuid::new_v4`: a random version 4 UUID as 128 bits;
/// nothing is promised of the value.
#[verifier::external_body]
pub(crate) fn fresh_token() -> (r: ReservationToken) {
    uuid::Uuid::new_v4().as_u128()
}

} // verus!

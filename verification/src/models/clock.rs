use std::time::SystemTime;
use vstd::prelude::*;

verus! {

/// `std::time::SystemTime`, carried through the book as an opaque value.
#[verifier::external_type_specification]
#[verifier::external_body]
pub struct ExSystemTime(SystemTime);

/// Reads the system clock with `SystemTime::now`.
///
/// Trusted: nothing is claimed of the instant that comes back, so two calls
/// may return different instants.
#[verifier::external_body]
pub(crate) fn now() -> (t: SystemTime) {
    SystemTime::now()
}

} // verus!

//! The engine's access to the wall clock.
#![allow(unused_imports)]
use vstd::prelude::*;

verus! {

/// Relies on `chrono::Utc::now` (and `DateTime::timestamp_millis`, which
/// converts the returned instant to an integer): the current time as
/// milliseconds since the epoch. Nothing is assumed of the value; callers
/// hand it to functions that are specified for every time.
#[verifier::external_body]
pub(crate) fn now_millis() -> i64 {
    chrono::Utc::now().timestamp_millis()
}

} // verus!

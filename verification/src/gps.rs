//! The GPS source: reading a fix out of the position record's fields.
//!
//! The local GPS feed emits one JSON position record; what reaches this
//! function is the record's numeric `lat` and `lon` fields, already in
//! micro-degrees, each absent when the record lacks it or holds a
//! non-numeric value.

use vstd::prelude::*;

use crate::errors::LocationError;

verus! {

/// What the GPS field extraction returns: a fix exactly when both fields
/// are present, and `MissingField` otherwise.
pub open spec fn spec_gps_fix(lat: Option<i32>, lon: Option<i32>) -> Result<
    (i32, i32),
    LocationError,
> {
    match (lat, lon) {
        (Some(a), Some(b)) => Ok((a, b)),
        _ => Err(LocationError::MissingField),
    }
}

/// Turn the record's optional coordinate fields into a fix, as
/// [`spec_gps_fix`] states.
pub fn gps_fix(lat: Option<i32>, lon: Option<i32>) -> (r: Result<(i32, i32), LocationError>)
    ensures
        r == spec_gps_fix(lat, lon),
{
    match (lat, lon) {
        (Some(a), Some(b)) => Ok((a, b)),
        _ => Err(LocationError::MissingField),
    }
}

} // verus!

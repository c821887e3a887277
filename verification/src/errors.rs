//! The error taxonomy of the location sources.
//!
//! Every error is local to the adapter that raised it: the resolver reacts
//! to any of them by falling back to the next source, and only total
//! exhaustion of the chain surfaces a failure to the caller.

use vstd::prelude::*;

verus! {

/// Why a single location source failed to produce a fix.
#[derive(Debug, Clone, Copy, PartialEq, Eq, Structural)]
pub enum LocationError {
    /// The external tool could not be launched, or exited with failure.
    SourceUnavailable,
    /// Text that should carry a value (JSON, a number) is malformed.
    ParseError,
    /// A required field is absent from an otherwise well-formed response.
    MissingField,
    /// The `loc` field does not split into exactly a latitude and a longitude.
    MalformedLocation,
    /// The WiFi scan yielded no usable access point, so no request was sent.
    NoAccessPointsFound,
    /// No API key is configured for the WiFi geolocation service.
    AuthMissing,
    /// The HTTP transport failed.
    NetworkError,
    /// The remote service answered with a non-success status.
    RemoteError,
}

} // verus!

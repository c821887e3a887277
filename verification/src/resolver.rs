//! The fallback-chain resolver.
//!
//! Sources are tried strictly in the order GPS, WiFi, IP. The resolver is a
//! state machine: each state either asks for one source to be queried or is
//! terminal. The caller performs the query (a subprocess or an HTTP call,
//! outside this library), turns the raw outcome into a fix or a
//! [`LocationError`], and hands it back to [`next_step`]. The first success
//! ends the chain; only the failure of all three sources ends it in
//! [`ResolveStep::Failed`].

use vstd::prelude::*;

use crate::errors::LocationError;

verus! {

/// A resolved geographic position, in fixed-point micro-degrees:
/// `coordinates` holds latitude and longitude, each scaled by 1,000,000.
#[derive(Debug, Clone, Copy, PartialEq, Eq)]
pub struct Location {
    pub coordinates: (i32, i32),
}

impl Location {
    /// The coordinate invariant of the data model: a latitude within ±90°
    /// and a longitude within ±180°, in micro-degrees. The sources are
    /// trusted not to report positions off the globe, so construction does
    /// not enforce this; callers that must rely on it check it.
    pub open spec fn wf(self) -> bool {
        -90_000_000 <= self.coordinates.0 <= 90_000_000 && -180_000_000 <= self.coordinates.1
            <= 180_000_000
    }

    /// Whether the coordinates lie in the valid geographic range.
    pub fn in_valid_range(&self) -> (r: bool)
        ensures
            r == self.wf(),
    {
        -90_000_000 <= self.coordinates.0 && self.coordinates.0 <= 90_000_000 && -180_000_000
            <= self.coordinates.1 && self.coordinates.1 <= 180_000_000
    }
}

/// One location source of the fallback chain.
#[derive(Debug, Clone, Copy, PartialEq, Eq, Structural)]
pub enum Source {
    Gps,
    Wifi,
    Ip,
}

/// A state of the resolver: either one source is still to be queried, or the
/// chain has ended in a fix or in exhaustion.
#[derive(Debug, Clone, Copy, PartialEq, Eq)]
pub enum ResolveStep {
    /// Query the named source next.
    Query(Source),
    /// A source produced a fix; the chain is over.
    Resolved(Location),
    /// Every source failed; the chain is over, with one aggregate failure.
    Failed,
}

/// The source tried after `s` when `s` fails, if any is left.
pub open spec fn spec_fallback(s: Source) -> Option<Source> {
    match s {
        Source::Gps => Some(Source::Wifi),
        Source::Wifi => Some(Source::Ip),
        Source::Ip => None,
    }
}

/// What the resolver does with the outcome of querying `current`:
/// any success is terminal, any failure moves to the next source in the
/// chain, and a failure of the last source ends the chain in `Failed`.
pub open spec fn spec_next_step(
    current: Source,
    outcome: Result<(i32, i32), LocationError>,
) -> ResolveStep {
    match outcome {
        Ok(fix) => ResolveStep::Resolved(Location { coordinates: fix }),
        Err(_) => match spec_fallback(current) {
            Some(next) => ResolveStep::Query(next),
            None => ResolveStep::Failed,
        },
    }
}

/// The state the resolver starts in: no source has been tried yet, GPS is
/// queried first.
pub fn initial_step() -> (r: ResolveStep)
    ensures
        r == ResolveStep::Query(Source::Gps),
{
    ResolveStep::Query(Source::Gps)
}

/// Advance the resolver: `outcome` is what querying `current` produced.
pub fn next_step(current: Source, outcome: Result<(i32, i32), LocationError>) -> (r: ResolveStep)
    ensures
        r == spec_next_step(current, outcome),
{
    match outcome {
        Ok(fix) => ResolveStep::Resolved(Location { coordinates: fix }),
        Err(_) => match current {
            Source::Gps => ResolveStep::Query(Source::Wifi),
            Source::Wifi => ResolveStep::Query(Source::Ip),
            Source::Ip => ResolveStep::Failed,
        },
    }
}

/// The outcome a full run would see for source `s`, given the outcome each
/// source would produce if queried.
pub open spec fn spec_outcome_of(
    gps: Result<(i32, i32), LocationError>,
    wifi: Result<(i32, i32), LocationError>,
    ip: Result<(i32, i32), LocationError>,
    s: Source,
) -> Result<(i32, i32), LocationError> {
    match s {
        Source::Gps => gps,
        Source::Wifi => wifi,
        Source::Ip => ip,
    }
}

/// The sequence of states a full resolver run passes through, given the
/// outcome each source would produce if queried. The first state is always
/// `Query(Gps)` and the last state is always terminal.
pub open spec fn spec_trace(
    gps: Result<(i32, i32), LocationError>,
    wifi: Result<(i32, i32), LocationError>,
    ip: Result<(i32, i32), LocationError>,
) -> Seq<ResolveStep> {
    let q = seq![ResolveStep::Query(Source::Gps)];
    if gps is Ok {
        q + seq![spec_next_step(Source::Gps, gps)]
    } else {
        let q = q + seq![ResolveStep::Query(Source::Wifi)];
        if wifi is Ok {
            q + seq![spec_next_step(Source::Wifi, wifi)]
        } else {
            let q = q + seq![ResolveStep::Query(Source::Ip)];
            q + seq![spec_next_step(Source::Ip, ip)]
        }
    }
}

/// The trace really is generated by the step function: it starts at
/// `Query(Gps)`, every non-final state is a query whose successor is
/// `spec_next_step` of that query's outcome, and the final state is
/// terminal (no query is left pending when the trace ends).
pub proof fn lemma_trace_follows_steps(
    gps: Result<(i32, i32), LocationError>,
    wifi: Result<(i32, i32), LocationError>,
    ip: Result<(i32, i32), LocationError>,
)
    ensures
        spec_trace(gps, wifi, ip).first() == ResolveStep::Query(Source::Gps),
        forall|i: int|
            0 <= i < spec_trace(gps, wifi, ip).len() - 1 ==> (#[trigger] spec_trace(
                gps,
                wifi,
                ip,
            )[i] matches ResolveStep::Query(s) && spec_trace(gps, wifi, ip)[i + 1]
                == spec_next_step(s, spec_outcome_of(gps, wifi, ip, s))),
        !(spec_trace(gps, wifi, ip).last() matches ResolveStep::Query(_)),
{
}

/// GPS success short-circuits: when the GPS source succeeds, the run ends
/// at once in a fix, and neither the WiFi source nor the IP source is ever
/// queried.
pub proof fn lemma_gps_success_short_circuits(
    gps: Result<(i32, i32), LocationError>,
    wifi: Result<(i32, i32), LocationError>,
    ip: Result<(i32, i32), LocationError>,
    fix: (i32, i32),
)
    requires
        gps == Ok::<(i32, i32), LocationError>(fix),
    ensures
        spec_trace(gps, wifi, ip).last() == ResolveStep::Resolved((Location { coordinates: fix })),
        !spec_trace(gps, wifi, ip).contains(ResolveStep::Query(Source::Wifi)),
        !spec_trace(gps, wifi, ip).contains(ResolveStep::Query(Source::Ip)),
{
    let t = spec_trace(gps, wifi, ip);
    assert(t.len() == 2);
    assert(forall|i: int| 0 <= i < t.len() ==> t[i] != ResolveStep::Query(Source::Wifi));
    assert(forall|i: int| 0 <= i < t.len() ==> t[i] != ResolveStep::Query(Source::Ip));
}

/// Fallback ordering: when GPS fails and WiFi succeeds, the run ends in the
/// WiFi fix and the IP source is never queried.
pub proof fn lemma_wifi_success_skips_ip(
    gps: Result<(i32, i32), LocationError>,
    wifi: Result<(i32, i32), LocationError>,
    ip: Result<(i32, i32), LocationError>,
    fix: (i32, i32),
)
    requires
        gps is Err,
        wifi == Ok::<(i32, i32), LocationError>(fix),
    ensures
        spec_trace(gps, wifi, ip).last() == ResolveStep::Resolved((Location { coordinates: fix })),
        !spec_trace(gps, wifi, ip).contains(ResolveStep::Query(Source::Ip)),
{
    let t = spec_trace(gps, wifi, ip);
    assert(t.len() == 3);
    assert(forall|i: int| 0 <= i < t.len() ==> t[i] != ResolveStep::Query(Source::Ip));
}

/// Total failure: when all three sources fail, the run ends in exactly one
/// aggregate failure and contains no partial result — no state of the trace
/// is a fix.
pub proof fn lemma_total_failure_is_aggregate(
    gps: Result<(i32, i32), LocationError>,
    wifi: Result<(i32, i32), LocationError>,
    ip: Result<(i32, i32), LocationError>,
)
    requires
        gps is Err,
        wifi is Err,
        ip is Err,
    ensures
        spec_trace(gps, wifi, ip).last() == ResolveStep::Failed,
        forall|i: int|
            0 <= i < spec_trace(gps, wifi, ip).len() - 1 ==> !(#[trigger] spec_trace(
                gps,
                wifi,
                ip,
            )[i] matches ResolveStep::Failed),
        forall|i: int|
            0 <= i < spec_trace(gps, wifi, ip).len() ==> !(#[trigger] spec_trace(
                gps,
                wifi,
                ip,
            )[i] matches ResolveStep::Resolved(_)),
{
}

} // verus!

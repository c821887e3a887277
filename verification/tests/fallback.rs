//! Tests for the resolver's fallback chain: ordering, short-circuit on
//! success, and the single aggregate failure.

use geoloc::Location;
use geoloc::LocationError;
use geoloc::ResolveStep;
use geoloc::Source;
use geoloc::initial_step;
use geoloc::next_step;

type Outcome = Result<(i32, i32), LocationError>;

/// Drive the state machine the way a caller would: query whichever source
/// the resolver asks for, record the order, stop at a terminal state.
fn run_chain(gps: Outcome, wifi: Outcome, ip: Outcome) -> (Option<Location>, Vec<Source>) {
    let mut queried: Vec<Source> = Vec::new();
    let mut step = initial_step();
    loop {
        match step {
            ResolveStep::Query(source) => {
                queried.push(source);
                let outcome = match source {
                    Source::Gps => gps,
                    Source::Wifi => wifi,
                    Source::Ip => ip,
                };
                step = next_step(source, outcome);
            }
            ResolveStep::Resolved(location) => return (Some(location), queried),
            ResolveStep::Failed => return (None, queried),
        }
    }
}

#[test]
fn resolution_starts_with_gps() {
    assert_eq!(initial_step(), ResolveStep::Query(Source::Gps));
}

#[test]
fn gps_success_short_circuits() {
    // With GPS succeeding, neither the WiFi nor the IP source is queried.
    let (result, queried) = run_chain(
        Ok((37_778_500, -122_405_600)),
        Err(LocationError::NoAccessPointsFound),
        Err(LocationError::RemoteError),
    );
    assert_eq!(result, Some(Location { coordinates: (37_778_500, -122_405_600) }));
    assert_eq!(queried, vec![Source::Gps]);
}

#[test]
fn wifi_success_skips_ip() {
    // With GPS failing and WiFi succeeding, the IP source is never queried.
    let (result, queried) = run_chain(
        Err(LocationError::SourceUnavailable),
        Ok((51_500_000, -100_000)),
        Err(LocationError::RemoteError),
    );
    assert_eq!(result, Some(Location { coordinates: (51_500_000, -100_000) }));
    assert_eq!(queried, vec![Source::Gps, Source::Wifi]);
}

#[test]
fn ip_is_the_last_resort() {
    let (result, queried) = run_chain(
        Err(LocationError::SourceUnavailable),
        Err(LocationError::AuthMissing),
        Ok((-33_868_800, 151_209_300)),
    );
    assert_eq!(result, Some(Location { coordinates: (-33_868_800, 151_209_300) }));
    assert_eq!(queried, vec![Source::Gps, Source::Wifi, Source::Ip]);
}

#[test]
fn total_failure_is_one_aggregate_outcome() {
    // All three sources fail: each is tried once, and the run ends in
    // exactly one failure with no partial result.
    let (result, queried) = run_chain(
        Err(LocationError::ParseError),
        Err(LocationError::NoAccessPointsFound),
        Err(LocationError::MalformedLocation),
    );
    assert_eq!(result, None);
    assert_eq!(queried, vec![Source::Gps, Source::Wifi, Source::Ip]);
}

#[test]
fn any_success_is_terminal() {
    for source in [Source::Gps, Source::Wifi, Source::Ip] {
        let step = next_step(source, Ok((1, 2)));
        assert_eq!(step, ResolveStep::Resolved(Location { coordinates: (1, 2) }));
    }
}

#[test]
fn each_failure_moves_one_source_down() {
    let e: Result<(i32, i32), LocationError> = Err(LocationError::NetworkError);
    assert_eq!(next_step(Source::Gps, e), ResolveStep::Query(Source::Wifi));
    assert_eq!(next_step(Source::Wifi, e), ResolveStep::Query(Source::Ip));
    assert_eq!(next_step(Source::Ip, e), ResolveStep::Failed);
}

#[test]
fn valid_range_check() {
    assert!(Location { coordinates: (90_000_000, 180_000_000) }.in_valid_range());
    assert!(Location { coordinates: (-90_000_000, -180_000_000) }.in_valid_range());
    assert!(!Location { coordinates: (90_000_001, 0) }.in_valid_range());
    assert!(!Location { coordinates: (0, -180_000_001) }.in_valid_range());
}

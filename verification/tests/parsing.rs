//! Tests for the text parsers: micro-degree encoding, signal integers,
//! WiFi scan lines, and the IP `loc` field.

use geoloc::LocationError;
use geoloc::parse_i32;
use geoloc::parse_micro_degrees;
use geoloc::parse_scan_line;
use geoloc::parse_scan_output;
use geoloc::prepare_wifi_request;
use geoloc::ip_fix_from_loc;
use geoloc::gps_fix;

fn micro(s: &str) -> Option<i32> {
    parse_micro_degrees(&s.as_bytes().to_vec())
}

#[test]
fn micro_degrees_plain_values() {
    assert_eq!(micro("37.7785"), Some(37_778_500));
    assert_eq!(micro("-122.4056"), Some(-122_405_600));
    assert_eq!(micro("90"), Some(90_000_000));
    assert_eq!(micro("-180"), Some(-180_000_000));
    assert_eq!(micro("0"), Some(0));
    assert_eq!(micro("+1.5"), Some(1_500_000));
    assert_eq!(micro("5."), Some(5_000_000));
    assert_eq!(micro(".5"), Some(500_000));
}

#[test]
fn micro_degrees_rounds_half_away_from_zero() {
    assert_eq!(micro("0.0000005"), Some(1));
    assert_eq!(micro("-0.0000005"), Some(-1));
    assert_eq!(micro("0.00000049"), Some(0));
    assert_eq!(micro("-0.00000049"), Some(0));
    assert_eq!(micro("2.0000004"), Some(2_000_000));
    assert_eq!(micro("2.00000051"), Some(2_000_001));
    assert_eq!(micro("37.77855549"), Some(37_778_555));
    assert_eq!(micro("37.77855550"), Some(37_778_556));
}

#[test]
fn micro_degrees_rejects_malformed_text() {
    assert_eq!(micro(""), None);
    assert_eq!(micro("."), None);
    assert_eq!(micro("-"), None);
    assert_eq!(micro("-."), None);
    assert_eq!(micro("1.2.3"), None);
    assert_eq!(micro("abc"), None);
    assert_eq!(micro("1a.2"), None);
    assert_eq!(micro(" 1.0"), None);
    assert_eq!(micro("1.0 "), None);
}

#[test]
fn micro_degrees_range_edges() {
    assert_eq!(micro("2147.483647"), Some(2_147_483_647));
    assert_eq!(micro("2147.4836474"), Some(2_147_483_647));
    assert_eq!(micro("2147.4836475"), None);
    assert_eq!(micro("-2147.483648"), Some(i32::MIN));
    assert_eq!(micro("-2147.4836485"), None);
    assert_eq!(micro("9999"), None);
    assert_eq!(micro("-9999"), None);
}

#[test]
fn micro_degrees_round_trip_within_half_micro() {
    // Encoding then decoding (dividing by 1,000,000) reproduces the
    // original degree value within 0.5e-6 degrees.
    for text in ["37.7785", "-122.4056", "0.123456789", "89.9999995", "-0.0000001"] {
        let encoded = micro(text).unwrap();
        let original: f64 = text.parse().unwrap();
        let decoded = (encoded as f64) / 1_000_000.0;
        assert!((decoded - original).abs() <= 0.5e-6);
    }
}

#[test]
fn micro_degrees_idempotent_on_decoded_values() {
    // A decoded value has at most six fraction digits, so re-encoding it
    // changes nothing.
    let encoded = micro("37.77855549").unwrap();
    let decoded = format!("{}.{:06}", encoded / 1_000_000, encoded % 1_000_000);
    assert_eq!(micro(&decoded), Some(encoded));
}

fn raw_signal(s: &str) -> Option<i32> {
    parse_i32(&s.as_bytes().to_vec())
}

#[test]
fn signal_integers() {
    assert_eq!(raw_signal("45"), Some(45));
    assert_eq!(raw_signal("-45"), Some(-45));
    assert_eq!(raw_signal("+7"), Some(7));
    assert_eq!(raw_signal("007"), Some(7));
    assert_eq!(raw_signal("0"), Some(0));
    assert_eq!(raw_signal(""), None);
    assert_eq!(raw_signal("-"), None);
    assert_eq!(raw_signal("4a"), None);
    assert_eq!(raw_signal("4.5"), None);
    assert_eq!(raw_signal("2147483647"), Some(2_147_483_647));
    assert_eq!(raw_signal("2147483648"), None);
    assert_eq!(raw_signal("-2147483647"), Some(-2_147_483_647));
    assert_eq!(raw_signal("-2147483648"), None);
}

fn line(s: &str) -> Option<(String, i32)> {
    parse_scan_line(&s.as_bytes().to_vec())
        .map(|ap| (String::from_utf8(ap.mac_address).unwrap(), ap.signal_strength))
}

#[test]
fn scan_line_unescapes_bssid_and_negates_signal() {
    // The tool escapes the colons inside the BSSID; the signal is the
    // negation of the raw value.
    assert_eq!(
        line("MyNet:AA\\:BB\\:CC\\:DD\\:EE\\:FF:-45"),
        Some(("AA:BB:CC:DD:EE:FF".to_string(), 45))
    );
    // A raw reported quality of 67 is stored as RSSI -67.
    assert_eq!(
        line("HomeNet:aa\\:bb\\:cc\\:dd\\:ee\\:ff:67"),
        Some(("AA:BB:CC:DD:EE:FF".to_string(), -67))
    );
}

#[test]
fn scan_line_uppercases_the_mac() {
    assert_eq!(
        line("x:de\\:ad\\:be\\:ef\\:00\\:12:50"),
        Some(("DE:AD:BE:EF:00:12".to_string(), -50))
    );
}

#[test]
fn scan_line_unparsable_signal_reads_as_zero() {
    assert_eq!(
        line("Net:AA\\:BB\\:CC\\:DD\\:EE\\:FF:bad"),
        Some(("AA:BB:CC:DD:EE:FF".to_string(), 0))
    );
    assert_eq!(
        line("Net:AA\\:BB\\:CC\\:DD\\:EE\\:FF:"),
        Some(("AA:BB:CC:DD:EE:FF".to_string(), 0))
    );
}

#[test]
fn scan_line_skips_short_lines() {
    assert_eq!(line(""), None);
    assert_eq!(line("JustAnSsid"), None);
    assert_eq!(line("OneField:45"), None);
}

#[test]
fn scan_output_keeps_valid_lines_in_order() {
    let out = "A:11\\:22\\:33\\:44\\:55\\:66:70\nshort\n\nB:77\\:88\\:99\\:aa\\:bb\\:cc:30\n";
    let aps = parse_scan_output(&out.as_bytes().to_vec());
    assert_eq!(aps.len(), 2);
    assert_eq!(String::from_utf8(aps[0].mac_address.clone()).unwrap(), "11:22:33:44:55:66");
    assert_eq!(aps[0].signal_strength, -70);
    assert_eq!(String::from_utf8(aps[1].mac_address.clone()).unwrap(), "77:88:99:AA:BB:CC");
    assert_eq!(aps[1].signal_strength, -30);
}

#[test]
fn scan_output_handles_crlf_lines() {
    let out = "A:11\\:22\\:33\\:44\\:55\\:66:70\r\nB:77\\:88\\:99\\:AA\\:BB\\:CC:30\r\n";
    let aps = parse_scan_output(&out.as_bytes().to_vec());
    assert_eq!(aps.len(), 2);
    assert_eq!(aps[1].signal_strength, -30);
}

#[test]
fn empty_scan_fails_before_any_request() {
    // Zero valid lines leave nothing to send: the request is never built,
    // whether or not a key is configured.
    let r = prepare_wifi_request(&Vec::new(), true);
    assert_eq!(r.unwrap_err(), LocationError::NoAccessPointsFound);
    let r = prepare_wifi_request(&"short\nlines only\n".as_bytes().to_vec(), true);
    assert_eq!(r.unwrap_err(), LocationError::NoAccessPointsFound);
}

#[test]
fn missing_key_fails_with_auth_missing() {
    let scan = "A:11\\:22\\:33\\:44\\:55\\:66:70\n".as_bytes().to_vec();
    let r = prepare_wifi_request(&scan, false);
    assert_eq!(r.unwrap_err(), LocationError::AuthMissing);
}

#[test]
fn good_scan_builds_the_request() {
    let scan = "A:11\\:22\\:33\\:44\\:55\\:66:70\nB:77\\:88\\:99\\:AA\\:BB\\:CC:30\n"
        .as_bytes()
        .to_vec();
    let req = prepare_wifi_request(&scan, true).unwrap();
    assert!(req.consider_ip);
    assert_eq!(req.wifi_access_points.len(), 2);
    assert_eq!(
        String::from_utf8(req.wifi_access_points[0].mac_address.clone()).unwrap(),
        "11:22:33:44:55:66"
    );
    assert_eq!(req.wifi_access_points[0].signal_strength, -70);
}

fn ip(loc: Option<&str>) -> Result<(i32, i32), LocationError> {
    ip_fix_from_loc(&loc.map(|s| s.as_bytes().to_vec()))
}

#[test]
fn ip_loc_parses_a_fix() {
    assert_eq!(ip(Some("37.7785,-122.4056")), Ok((37_778_500, -122_405_600)));
    assert_eq!(ip(Some("0,0")), Ok((0, 0)));
}

#[test]
fn ip_loc_missing_field() {
    assert_eq!(ip(None), Err(LocationError::MissingField));
}

#[test]
fn ip_loc_without_comma_is_malformed() {
    // A `loc` such as "37.7" does not split into two parts; the adapter
    // fails cleanly.
    assert_eq!(ip(Some("37.7")), Err(LocationError::MalformedLocation));
    assert_eq!(ip(Some("")), Err(LocationError::MalformedLocation));
}

#[test]
fn ip_loc_with_extra_comma_is_malformed() {
    assert_eq!(ip(Some("37.7,-122.4,5")), Err(LocationError::MalformedLocation));
    assert_eq!(ip(Some(",,")), Err(LocationError::MalformedLocation));
}

#[test]
fn ip_loc_with_bad_numbers_is_a_parse_error() {
    assert_eq!(ip(Some("abc,1.0")), Err(LocationError::ParseError));
    assert_eq!(ip(Some("1.0,abc")), Err(LocationError::ParseError));
    assert_eq!(ip(Some(",1.0")), Err(LocationError::ParseError));
}

#[test]
fn gps_fix_needs_both_fields() {
    assert_eq!(gps_fix(Some(1), Some(2)), Ok((1, 2)));
    assert_eq!(gps_fix(None, Some(2)), Err(LocationError::MissingField));
    assert_eq!(gps_fix(Some(1), None), Err(LocationError::MissingField));
    assert_eq!(gps_fix(None, None), Err(LocationError::MissingField));
}

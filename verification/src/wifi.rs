//! The WiFi fingerprint source: turning a network scan listing into a
//! geolocation request.
//!
//! The scan tool prints one network per line, colon-delimited, with the
//! fields SSID, BSSID and signal in that order. The BSSID itself contains
//! colons, which the tool escapes with a backslash, so a line is read from
//! its ends: everything between the first and the last colon is the BSSID,
//! unescaped and uppercased; the text after the last colon is the signal.
//! The reported signal is a positive quality figure, while the geolocation
//! service expects RSSI, a negative dBm quantity: the stored strength is
//! the negation of the parsed value. Lines with fewer than two colons
//! carry no BSSID and are skipped.

use vstd::prelude::*;

use crate::bytes::lemma_first_ix_of;
use crate::bytes::lemma_last_ix_of;
use crate::bytes::spec_first_ix;
use crate::bytes::spec_last_ix;
use crate::bytes::subvec;
use crate::bytes::BACKSLASH;
use crate::bytes::CARRIAGE_RETURN;
use crate::bytes::CASE_GAP;
use crate::bytes::COLON;
use crate::bytes::LOWER_A;
use crate::bytes::LOWER_Z;
use crate::bytes::NEWLINE;
use crate::digits::parse_i32;
use crate::digits::spec_parse_i32;
use crate::errors::LocationError;

verus! {

/// One visible access point: its BSSID in canonical text form (uppercase
/// hexadecimal octets separated by colons) and its signal strength as
/// RSSI, a non-positive dBm value for any real scan reading.
#[derive(Debug, Clone, PartialEq, Eq)]
pub struct WifiAccessPoint {
    pub mac_address: Vec<u8>,
    pub signal_strength: i32,
}

impl View for WifiAccessPoint {
    type V = (Seq<u8>, int);

    open spec fn view(&self) -> (Seq<u8>, int) {
        (self.mac_address@, self.signal_strength as int)
    }
}

/// The body of one geolocation request: the observed access points, and
/// leave to the service to use the requester's IP as a secondary signal.
#[derive(Debug, Clone, PartialEq, Eq)]
pub struct GeoRequest {
    pub consider_ip: bool,
    pub wifi_access_points: Vec<WifiAccessPoint>,
}

/// An ASCII lowercase letter raised to uppercase; any other byte as it is.
pub open spec fn spec_upper_byte(b: u8) -> u8 {
    if LOWER_A <= b && b <= LOWER_Z {
        (b - CASE_GAP) as u8
    } else {
        b
    }
}

pub open spec fn spec_upper(s: Seq<u8>) -> Seq<u8> {
    Seq::new(s.len(), |i: int| spec_upper_byte(s[i]))
}

/// Each escaped colon (a backslash followed by a colon) collapsed to a
/// plain colon, left to right.
pub open spec fn spec_unescape(s: Seq<u8>) -> Seq<u8>
    decreases s.len(),
{
    if s.len() == 0 {
        Seq::empty()
    } else if s.len() >= 2 && s[0] == BACKSLASH && s[1] == COLON {
        seq![COLON] + spec_unescape(s.skip(2))
    } else {
        seq![s[0]] + spec_unescape(s.skip(1))
    }
}

/// A line with its one trailing carriage return removed, if any.
pub open spec fn strip_cr(s: Seq<u8>) -> Seq<u8> {
    if s.len() > 0 && s.last() == CARRIAGE_RETURN {
        s.drop_last()
    } else {
        s
    }
}

/// The stored strength for raw signal text: the parsed value negated,
/// with unparsable text read as zero.
pub open spec fn spec_signal(sig: Seq<u8>) -> int {
    match spec_parse_i32(sig) {
        Some(v) => -(v as int),
        None => 0,
    }
}

/// What one scan line contributes: the access point as (BSSID, strength),
/// or nothing for a line with fewer than two colons.
pub open spec fn spec_parse_line(line: Seq<u8>) -> Option<(Seq<u8>, int)> {
    let t = strip_cr(line);
    match (spec_first_ix(t, COLON), spec_last_ix(t, COLON)) {
        (Some(i), Some(j)) => if i < j {
            Some((spec_upper(spec_unescape(t.subrange(i + 1, j))), spec_signal(t.skip(j + 1))))
        } else {
            None
        },
        _ => None,
    }
}

/// Each escaped colon collapsed to a plain colon.
#[verifier::loop_isolation(false)]
fn unescape(s: &Vec<u8>) -> (r: Vec<u8>)
    ensures
        r@ == spec_unescape(s@),
{
    let n = s.len();
    let mut r: Vec<u8> = Vec::new();
    let mut i: usize = 0;
    proof {
        assert(s@.skip(0) =~= s@);
        assert(r@ + spec_unescape(s@) =~= spec_unescape(s@));
    }
    while i < n
        invariant
            i <= n,
            r@ + spec_unescape(s@.skip(i as int)) == spec_unescape(s@),
        decreases n - i,
    {
        let ghost pre = r@;
        if i + 1 < n && s[i] == BACKSLASH && s[i + 1] == COLON {
            r.push(COLON);
            proof {
                assert(s@.skip(i as int)[0] == s@[i as int]);
                assert(s@.skip(i as int)[1] == s@[i + 1]);
                assert(s@.skip(i as int).skip(2) =~= s@.skip(i + 2));
                assert(spec_unescape(s@.skip(i as int)) == seq![COLON] + spec_unescape(
                    s@.skip(i + 2),
                ));
                assert(r@ + spec_unescape(s@.skip(i + 2)) =~= pre + spec_unescape(
                    s@.skip(i as int),
                ));
            }
            i = i + 2;
        } else {
            r.push(s[i]);
            proof {
                assert(s@.skip(i as int)[0] == s@[i as int]);
                if s@.skip(i as int).len() >= 2 {
                    assert(s@.skip(i as int)[1] == s@[i + 1]);
                }
                assert(s@.skip(i as int).skip(1) =~= s@.skip(i + 1));
                assert(spec_unescape(s@.skip(i as int)) == seq![s@[i as int]] + spec_unescape(
                    s@.skip(i + 1),
                ));
                assert(r@ + spec_unescape(s@.skip(i + 1)) =~= pre + spec_unescape(
                    s@.skip(i as int),
                ));
            }
            i = i + 1;
        }
    }
    proof {
        assert(s@.skip(n as int) =~= Seq::<u8>::empty());
        assert(r@ + spec_unescape(s@.skip(n as int)) =~= r@);
    }
    r
}

/// ASCII uppercase of every byte.
#[verifier::loop_isolation(false)]
fn to_upper(s: &Vec<u8>) -> (r: Vec<u8>)
    ensures
        r@ == spec_upper(s@),
{
    let n = s.len();
    let mut r: Vec<u8> = Vec::new();
    let mut i: usize = 0;
    while i < n
        invariant
            i <= n,
            r@.len() == i,
            forall|k: int| 0 <= k < i ==> r@[k] == spec_upper_byte(s@[k]),
        decreases n - i,
    {
        let b = s[i];
        if LOWER_A <= b && b <= LOWER_Z {
            r.push(b - CASE_GAP);
        } else {
            r.push(b);
        }
        i = i + 1;
    }
    proof {
        assert(r@ =~= spec_upper(s@));
    }
    r
}

/// Parse one line of the scan listing into an access point, if the line
/// has the three colon-delimited fields.
#[verifier::loop_isolation(false)]
pub fn parse_scan_line(line: &Vec<u8>) -> (r: Option<WifiAccessPoint>)
    ensures
        match r {
            Some(ap) => spec_parse_line(line@) == Some(ap@),
            None => spec_parse_line(line@) is None,
        },
{
    let n = line.len();
    let m = if n > 0 && line[n - 1] == CARRIAGE_RETURN {
        n - 1
    } else {
        n
    };
    let ghost t = strip_cr(line@);
    proof {
        assert(t =~= line@.subrange(0, m as int));
    }
    let mut first: Option<usize> = None;
    let mut last: Option<usize> = None;
    let mut i: usize = 0;
    while i < m
        invariant
            i <= m,
            first is Some <==> last is Some,
            first matches Some(fc) ==> last matches Some(lc) && fc <= lc < i && t[fc as int]
                == COLON && t[lc as int] == COLON && (forall|k: int|
                0 <= k < fc ==> t[k] != COLON) && (forall|k: int| lc < k < i ==> t[k] != COLON),
            first is None ==> forall|k: int| 0 <= k < i ==> t[k] != COLON,
        decreases m - i,
    {
        proof {
            assert(t[i as int] == line@[i as int]);
        }
        if line[i] == COLON {
            if first.is_none() {
                first = Some(i);
            }
            last = Some(i);
        }
        i = i + 1;
    }
    match (first, last) {
        (Some(fc), Some(lc)) => {
            if fc < lc {
                proof {
                    lemma_first_ix_of(t, COLON, fc as int);
                    lemma_last_ix_of(t, COLON, lc as int);
                }
                let raw = subvec(line, fc + 1, lc);
                proof {
                    assert(raw@ =~= t.subrange(fc + 1, lc as int));
                }
                let unescaped = unescape(&raw);
                let mac = to_upper(&unescaped);
                let sig_text = subvec(line, lc + 1, m);
                proof {
                    assert(sig_text@ =~= t.skip(lc + 1));
                }
                let signal: i32 = match parse_i32(&sig_text) {
                    Some(v) => -v,
                    None => 0,
                };
                proof {
                    assert(mac@ == spec_upper(spec_unescape(t.subrange(fc + 1, lc as int))));
                    assert(signal as int == spec_signal(t.skip(lc + 1)));
                    assert(spec_parse_line(line@) == Some(
                        (spec_upper(spec_unescape(t.subrange(fc + 1, lc as int))), spec_signal(
                            t.skip(lc + 1),
                        )),
                    ));
                }
                Some(WifiAccessPoint { mac_address: mac, signal_strength: signal })
            } else {
                proof {
                    lemma_first_ix_of(t, COLON, fc as int);
                    lemma_last_ix_of(t, COLON, lc as int);
                }
                None
            }
        },
        _ => {
            proof {
                crate::bytes::lemma_first_ix_char(t, COLON);
            }
            None
        },
    }
}

/// What a scan line sequence contributes, one line at a time: `cur` is the
/// line being accumulated, a newline ends it, and the end of input ends
/// the final line.
pub open spec fn opt_ap_seq(o: Option<(Seq<u8>, int)>) -> Seq<(Seq<u8>, int)> {
    match o {
        Some(ap) => seq![ap],
        None => Seq::empty(),
    }
}

pub open spec fn spec_scan_from(out: Seq<u8>, cur: Seq<u8>) -> Seq<(Seq<u8>, int)>
    decreases out.len(),
{
    if out.len() == 0 {
        opt_ap_seq(spec_parse_line(cur))
    } else if out[0] == NEWLINE {
        opt_ap_seq(spec_parse_line(cur)) + spec_scan_from(out.skip(1), Seq::empty())
    } else {
        spec_scan_from(out.skip(1), cur.push(out[0]))
    }
}

/// The access points of a whole scan listing, in line order, invalid
/// lines skipped.
pub open spec fn spec_scan(out: Seq<u8>) -> Seq<(Seq<u8>, int)> {
    spec_scan_from(out, Seq::empty())
}

/// Parse the whole scan listing: one access point per line that has the
/// three colon-delimited fields, in line order.
#[verifier::loop_isolation(false)]
pub fn parse_scan_output(out: &Vec<u8>) -> (aps: Vec<WifiAccessPoint>)
    ensures
        aps@.map_values(|ap: WifiAccessPoint| ap@) == spec_scan(out@),
{
    let n = out.len();
    let mut aps: Vec<WifiAccessPoint> = Vec::new();
    let mut line_start: usize = 0;
    let mut i: usize = 0;
    proof {
        assert(out@.skip(0) =~= out@);
        assert(out@.subrange(0, 0) =~= Seq::<u8>::empty());
        assert(aps@.map_values(|ap: WifiAccessPoint| ap@) + spec_scan(out@) =~= spec_scan(out@));
    }
    while i < n
        invariant
            line_start <= i <= n,
            aps@.map_values(|ap: WifiAccessPoint| ap@) + spec_scan_from(
                out@.skip(i as int),
                out@.subrange(line_start as int, i as int),
            ) == spec_scan(out@),
        decreases n - i,
    {
        let ghost pre = aps@.map_values(|ap: WifiAccessPoint| ap@);
        let ghost cur = out@.subrange(line_start as int, i as int);
        proof {
            assert(out@.skip(i as int)[0] == out@[i as int]);
            assert(out@.skip(i as int).skip(1) =~= out@.skip(i + 1));
        }
        if out[i] == NEWLINE {
            let line = subvec(out, line_start, i);
            let ghost rest = spec_scan_from(out@.skip(i + 1), Seq::<u8>::empty());
            proof {
                assert(spec_scan_from(out@.skip(i as int), cur) == opt_ap_seq(
                    spec_parse_line(cur),
                ) + rest);
                assert(out@.subrange(i + 1, i + 1) =~= Seq::<u8>::empty());
            }
            match parse_scan_line(&line) {
                Some(ap) => {
                    let ghost apv = ap@;
                    aps.push(ap);
                    proof {
                        assert(aps@.map_values(|ap: WifiAccessPoint| ap@) =~= pre.push(apv));
                        assert(opt_ap_seq(spec_parse_line(cur)) == seq![apv]);
                        assert(pre.push(apv) + rest =~= pre + (seq![apv] + rest));
                    }
                },
                None => {
                    proof {
                        assert(opt_ap_seq(spec_parse_line(cur)) =~= Seq::<(Seq<u8>, int)>::empty());
                        assert(Seq::<(Seq<u8>, int)>::empty() + rest =~= rest);
                    }
                },
            }
            line_start = i + 1;
        } else {
            proof {
                assert(cur.push(out@[i as int]) =~= out@.subrange(line_start as int, i + 1));
                assert(spec_scan_from(out@.skip(i as int), cur) == spec_scan_from(
                    out@.skip(i + 1),
                    out@.subrange(line_start as int, i + 1),
                ));
            }
        }
        i = i + 1;
    }
    let line = subvec(out, line_start, n);
    let ghost cur = out@.subrange(line_start as int, n as int);
    proof {
        assert(out@.skip(n as int) =~= Seq::<u8>::empty());
        assert(spec_scan_from(out@.skip(n as int), cur) == opt_ap_seq(spec_parse_line(cur)));
    }
    let ghost pre = aps@.map_values(|ap: WifiAccessPoint| ap@);
    match parse_scan_line(&line) {
        Some(ap) => {
            let ghost apv = ap@;
            aps.push(ap);
            proof {
                assert(aps@.map_values(|ap: WifiAccessPoint| ap@) =~= pre.push(apv));
                assert(opt_ap_seq(spec_parse_line(cur)) == seq![apv]);
                assert(pre.push(apv) =~= pre + seq![apv]);
            }
        },
        None => {
            proof {
                assert(opt_ap_seq(spec_parse_line(cur)) =~= Seq::<(Seq<u8>, int)>::empty());
                assert(pre + Seq::<(Seq<u8>, int)>::empty() =~= pre);
            }
        },
    }
    aps
}

/// Build the geolocation request from the raw scan listing.
///
/// The listing is parsed first: with no usable access point no request
/// exists and nothing is to be sent, so the scan fails with
/// `NoAccessPointsFound` before the API key is even looked at; with access
/// points but no key configured it fails with `AuthMissing`; otherwise
/// the request carries every parsed access point, in line order, and asks
/// the service to consider the requester's IP as well.
pub fn prepare_wifi_request(scan: &Vec<u8>, has_key: bool) -> (r: Result<
    GeoRequest,
    LocationError,
>)
    ensures
        spec_scan(scan@).len() == 0 ==> r == Err::<GeoRequest, LocationError>(
            LocationError::NoAccessPointsFound,
        ),
        spec_scan(scan@).len() > 0 && !has_key ==> r == Err::<GeoRequest, LocationError>(
            LocationError::AuthMissing,
        ),
        spec_scan(scan@).len() > 0 && has_key ==> (r matches Ok(req) && req.consider_ip
            && req.wifi_access_points@.map_values(|ap: WifiAccessPoint| ap@) == spec_scan(scan@)),
{
    let aps = parse_scan_output(scan);
    if aps.len() == 0 {
        proof {
            assert(spec_scan(scan@).len() == 0);
        }
        Err(LocationError::NoAccessPointsFound)
    } else if !has_key {
        Err(LocationError::AuthMissing)
    } else {
        Ok(GeoRequest { consider_ip: true, wifi_access_points: aps })
    }
}

} // verus!

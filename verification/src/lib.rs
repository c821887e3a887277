//! Fallback-chain geolocation library.
//!
//! A device position is acquired by trying three sources in a fixed priority
//! order — a local GPS feed, a WiFi-fingerprint geolocation service, an
//! IP-based geolocation service — and keeping the first fix that succeeds.
//! This crate holds the verified core of that pipeline: the coordinate
//! model in fixed-point micro-degrees, the text parsing that turns the raw
//! tool and service outputs into coordinates and access-point lists, and
//! the resolver state machine with its fallback ordering. The subprocess
//! and HTTP calls that feed it live outside the library.

pub mod bytes;
pub mod digits;
pub mod errors;
pub mod gps;
pub mod ip;
pub mod resolver;
pub mod wifi;

pub use digits::parse_i32;
pub use digits::parse_micro_degrees;
pub use errors::LocationError;
pub use gps::gps_fix;
pub use ip::ip_fix_from_loc;
pub use resolver::Location;
pub use resolver::ResolveStep;
pub use resolver::Source;
pub use resolver::initial_step;
pub use resolver::next_step;
pub use wifi::GeoRequest;
pub use wifi::WifiAccessPoint;
pub use wifi::parse_scan_line;
pub use wifi::parse_scan_output;
pub use wifi::prepare_wifi_request;

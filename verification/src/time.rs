//! The two trusted bridges to chrono for RFC 3339 instants, and the names
//! of what they compute.

use vstd::prelude::*;
use chrono::TimeZone;

verus! {

use crate::models::Timestamp;

/// The RFC 3339 text chrono writes for an instant, if the instant lies in
/// the representable calendar; a pure function of the two numbers.
pub uninterp spec fn rfc3339_of(secs: int, nanos: int) -> Option<Seq<char>>;

/// The instant chrono reads from an RFC 3339 text, if well-formed; a pure
/// function of the text.
pub uninterp spec fn rfc3339_parse(s: Seq<char>) -> Option<(int, int)>;

/// Whether an instant can be written at all.
pub open spec fn ts_writable(t: Timestamp) -> bool {
    rfc3339_of(t.secs as int, t.nanos as int) is Some
}

/// Relies on chrono: `Utc.timestamp_opt(..).single()` yields a date-time
/// exactly for seconds within chrono's calendar (years far beyond 9999 in
/// both directions) with a valid nanosecond part, and `to_rfc3339_opts`
/// writes it as RFC 3339 with a `Z` suffix and the sub-second digits the
/// value needs; `parse_from_rfc3339` reads that text back to the same
/// instant.
#[verifier::external_body]
pub fn format_rfc3339(ts: &Timestamp) -> (r: Option<String>)
    ensures
        (r is Some) == ts_writable(*ts),
        r matches Some(s) ==> Some(s@) == rfc3339_of(ts.secs as int, ts.nanos as int),
        0 <= ts.secs <= 253_402_300_799 && ts.nanos < 1_000_000_000 ==> r is Some,
        r matches Some(s) ==> rfc3339_parse(s@) == Some((ts.secs as int, ts.nanos as int)),
{
    let dt = chrono::Utc.timestamp_opt(ts.secs, ts.nanos).single()?;
    Some(dt.to_rfc3339_opts(chrono::SecondsFormat::AutoSi, true))
}

/// Relies on chrono: parsing RFC 3339 text (with the ISO 8601 year
/// extension) yields an instant determined by the text alone, always
/// inside chrono's calendar, so it can be written again; the nanosecond
/// part exceeds a thousand million only inside a leap second.
#[verifier::external_body]
pub fn parse_rfc3339(s: &str) -> (r: Option<Timestamp>)
    ensures
        r matches Some(t) ==> rfc3339_parse(s@) == Some((t.secs as int, t.nanos as int)),
        r is None ==> rfc3339_parse(s@) is None,
        r matches Some(t) ==> t.nanos < 2_000_000_000 && -9_000_000_000_000 <= t.secs
            <= 9_000_000_000_000 && ts_writable(t),
{
    let dt = s.parse::<chrono::DateTime<chrono::FixedOffset>>().ok()?;
    let u = dt.with_timezone(&chrono::Utc);
    Some(Timestamp { secs: u.timestamp(), nanos: u.timestamp_subsec_nanos() })
}

} // verus!

//! Points in time: RFC 3339 texts and the system clock.
use chrono::{DateTime, SecondsFormat, TimeZone, Utc};
use std::time::{Duration, Instant, SystemTime, SystemTimeError};
use vstd::prelude::*;

verus! {

/// The UTC epoch second that an RFC 3339 date-time names, or what is said of a
/// text that is none.
pub uninterp spec fn rfc3339_second(s: Seq<char>) -> Result<i64, Seq<char>>;

/// `chrono::DateTime::parse_from_rfc3339`, of which the epoch second
/// (`timestamp`) is kept: the result is named, not spelled out.
#[verifier::external_body]
pub(crate) fn parse_rfc3339(s: &str) -> (r: Result<i64, String>)
    ensures
        match r {
            Ok(t) => rfc3339_second(s@) == Ok::<i64, Seq<char>>(t),
            Err(m) => rfc3339_second(s@) == Err::<i64, Seq<char>>(m@),
        },
{
    DateTime::parse_from_rfc3339(s).map(|dt| dt.timestamp()).map_err(|e| e.to_string())
}

/// The RFC 3339 text of an epoch second in UTC, marked by a `Z`, if the calendar
/// reaches it.
pub uninterp spec fn utc_text(second: i64) -> Option<Seq<char>>;

/// `chrono::Utc.timestamp_opt` and `to_rfc3339_opts`, in whole seconds and with
/// `Z` for UTC: the result is named, not spelled out.
#[verifier::external_body]
pub(crate) fn format_utc(second: i64) -> (r: Option<String>)
    ensures
        match r {
            Some(t) => utc_text(second) == Some(t@),
            None => utc_text(second) is None,
        },
{
    Utc.timestamp_opt(second, 0).single().map(|dt| dt.to_rfc3339_opts(SecondsFormat::Secs, true))
}

/// The moment a file was last modified, in nanoseconds from the Unix epoch.
#[derive(Debug, Clone, Copy, PartialEq, Eq, Structural)]
pub struct FileTime {
    pub nanos: i128,
}

/// `std::time::Instant`, a moment of a clock that never goes back.
#[verifier::external_type_specification]
#[verifier::external_body]
pub struct ExInstant(Instant);

/// `std::time::SystemTime`, a moment of the system's clock.
#[verifier::external_type_specification]
#[verifier::external_body]
pub struct ExSystemTime(SystemTime);

/// `std::time::SystemTimeError`, what is returned of a moment before another.
#[verifier::external_type_specification]
#[verifier::external_body]
pub struct ExSystemTimeError(SystemTimeError);

/// `Instant::now`: the current moment. Nothing is said of it.
pub assume_specification[ Instant::now ]() -> Instant
;

/// `Instant::elapsed`: the time since a moment. Nothing is said of it.
pub assume_specification[ Instant::elapsed ](moment: &Instant) -> Duration
;

/// `SystemTime::now`: the current moment. Nothing is said of it.
pub assume_specification[ SystemTime::now ]() -> SystemTime
;

/// `Duration::as_secs`: the whole seconds of a span of time. Nothing is said of
/// them, as nothing is said of the span.
pub assume_specification[ Duration::as_secs ](span: &Duration) -> u64
;

/// `SystemTime::duration_since`, from the Unix epoch. Nothing is said of the
/// span.
#[verifier::external_body]
pub(crate) fn since_epoch(moment: &SystemTime) -> (r: Result<Duration, SystemTimeError>) {
    moment.duration_since(std::time::UNIX_EPOCH)
}

} // verus!

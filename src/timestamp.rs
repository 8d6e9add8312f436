//! Timestamps of log entries, read with chrono.
use chrono::{DateTime, NaiveDateTime};
use vstd::prelude::*;

verus! {

/// An instant with no UTC offset, as the binary log stream gives it.
#[derive(Clone, Copy, Debug, PartialEq, Eq, Structural)]
pub struct NaiveTimestamp {
    /// Seconds since the Unix epoch.
    pub unix_seconds: i64,
    /// Nanoseconds past `unix_seconds`; a leap second counts from
    /// 1_000_000_000 on.
    pub nanos: u32,
}

/// An instant with the UTC offset it was written in, as the long log format
/// gives it.
#[derive(Clone, Copy, Debug, PartialEq, Eq, Structural)]
pub struct LogTimestamp {
    /// Seconds since the Unix epoch.
    pub unix_seconds: i64,
    /// Nanoseconds past `unix_seconds`.
    pub nanos: u32,
    /// Offset of the writer's clock from UTC, in seconds east.
    pub utc_offset_seconds: i32,
}

/// What chrono reads from `s` with the long log format's pattern
/// `%Y-%m-%d %H:%M:%S.%9f %z`: seconds since the epoch, nanoseconds and
/// offset east of UTC, or nothing where it refuses the text.
pub uninterp spec fn log_timestamp_of(s: Seq<char>) -> Option<(i64, u32, i32)>;

/// Whether chrono can represent the instant `sec` seconds and `nsec`
/// nanoseconds after the Unix epoch: a nanosecond part of a second or more
/// is only a leap second, after the 59th second of a minute.
pub open spec fn unix_instant_valid(sec: u32, nsec: u32) -> bool {
    nsec < 1_000_000_000 || (nsec < 2_000_000_000 && sec % 60 == 59)
}

/// Relies on chrono's `DateTime::parse_from_str`, with the long log format's
/// pattern, and on `timestamp`, `timestamp_subsec_nanos` and
/// `FixedOffset::local_minus_utc` of what it returns.
#[verifier::external_body]
pub(crate) fn parse_log_timestamp(s: &str) -> (r: Option<LogTimestamp>)
    ensures
        r.is_some() == log_timestamp_of(s@).is_some(),
        r.is_some() ==> log_timestamp_of(s@) == Some(
            (r->0.unix_seconds, r->0.nanos, r->0.utc_offset_seconds),
        ),
{
    match DateTime::parse_from_str(s, "%Y-%m-%d %H:%M:%S.%9f %z") {
        Ok(t) => Some(LogTimestamp {
            unix_seconds: t.timestamp(),
            nanos: t.timestamp_subsec_nanos(),
            utc_offset_seconds: t.offset().local_minus_utc(),
        }),
        Err(_) => None,
    }
}

/// Relies on chrono's `NaiveDateTime::from_timestamp_opt`: for seconds that
/// fit in a `u32` the date is always in range, and the time of day is refused
/// exactly when the nanoseconds are invalid; and on `and_utc`, `timestamp`
/// and `timestamp_subsec_nanos` of what it returns, which give back the
/// seconds and nanoseconds it was made from.
#[verifier::external_body]
pub(crate) fn naive_from_unix(sec: u32, nsec: u32) -> (r: Option<NaiveTimestamp>)
    ensures
        r.is_some() == unix_instant_valid(sec, nsec),
        r matches Some(t) ==> t.unix_seconds == sec as i64 && t.nanos == nsec,
{
    #[allow(deprecated)]
    match NaiveDateTime::from_timestamp_opt(sec as i64, nsec) {
        Some(t) => Some(NaiveTimestamp {
            unix_seconds: t.and_utc().timestamp(),
            nanos: t.and_utc().timestamp_subsec_nanos(),
        }),
        None => None,
    }
}

} // verus!

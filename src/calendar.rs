//! The calendar that timestamps are shown in and converted to: UTC instants
//! as `chrono` represents them.
use vstd::prelude::*;

verus! {

/// Seconds since the epoch of -262143-01-01T00:00:00 UTC, the first instant
/// of the calendar.
pub const CALENDAR_MIN_SECS: i64 = -8_334_601_228_800;

/// Seconds since the epoch of 262142-12-31T23:59:59 UTC, the last whole
/// second of the calendar.
pub const CALENDAR_MAX_SECS: i64 = 8_210_266_876_799;

/// Whether the calendar can represent the UTC instant `secs` seconds and
/// `nanos` nanoseconds after the epoch: a date from -262143-01-01 to
/// 262142-12-31, and less than one second of nanoseconds, or less than two
/// within a leap second, which follows a second ending in 59.
pub open spec fn calendar_representable(secs: int, nanos: int) -> bool {
    &&& CALENDAR_MIN_SECS <= secs <= CALENDAR_MAX_SECS
    &&& 0 <= nanos < 2_000_000_000
    &&& nanos >= 1_000_000_000 ==> secs % 60 == 59
}

/// What `chrono` writes for that instant under the strftime-like `pattern`,
/// or `None` where the pattern does not format.
pub uninterp spec fn calendar_text(secs: int, nanos: int, pattern: Seq<char>) -> Option<Seq<char>>;

/// A UTC instant: whole seconds since 1970-01-01T00:00:00 UTC, floored, and
/// the nanoseconds past that second (from one billion on, within a leap
/// second).
#[derive(Clone, Copy, Debug, PartialEq, Eq, Structural)]
pub struct UtcInstant {
    pub secs: i64,
    pub nanos: u32,
}

impl UtcInstant {
    /// The calendar can represent this instant.
    pub open spec fn wf(&self) -> bool {
        calendar_representable(self.secs as int, self.nanos as int)
    }

    /// The instant at `secs` and `nanos`, where the calendar can represent it.
    pub fn new(secs: i64, nanos: u32) -> (r: Option<UtcInstant>)
        ensures
            r == (if calendar_representable(secs as int, nanos as int) {
                Some(UtcInstant { secs, nanos })
            } else {
                None
            }),
    {
        if representable(secs, nanos) {
            Some(UtcInstant { secs, nanos })
        } else {
            None
        }
    }

    /// The seconds since the epoch, floored.
    pub fn secs(&self) -> (r: i64)
        ensures
            r == self.secs,
    {
        self.secs
    }

    /// The nanoseconds past the second.
    pub fn nanos(&self) -> (r: u32)
        ensures
            r == self.nanos,
    {
        self.nanos
    }
}

/// Relies on `chrono::DateTime::from_timestamp`, which returns `None` exactly
/// where the day falls outside `NaiveDate::MIN ..= NaiveDate::MAX` or the
/// nanoseconds are not valid for the second.
#[verifier::external_body]
pub(crate) fn representable(secs: i64, nanos: u32) -> (r: bool)
    ensures
        r == calendar_representable(secs as int, nanos as int),
{
    chrono::DateTime::from_timestamp(secs, nanos).is_some()
}

/// Relies on `chrono::format::DelayedFormat::write_to`, on the instant that
/// `chrono::DateTime::from_timestamp` builds: the text depends on the instant
/// and the pattern alone, and an invalid pattern is an error, not a panic.
#[verifier::external_body]
pub(crate) fn format_instant(instant: &UtcInstant, pattern: &str) -> (r: Option<String>)
    requires
        instant.wf(),
    ensures
        match r {
            Some(s) => calendar_text(instant.secs as int, instant.nanos as int, pattern@) == Some(
                s@,
            ),
            None => calendar_text(instant.secs as int, instant.nanos as int, pattern@) is None,
        },
{
    let dt = chrono::DateTime::from_timestamp(instant.secs, instant.nanos)?;
    let mut text = String::new();
    match dt.format(pattern).write_to(&mut text) {
        Ok(()) => Some(text),
        Err(_) => None,
    }
}

/// Relies on `chrono::Utc::now`, read through `timestamp` and
/// `timestamp_subsec_nanos`: it measures the time since the epoch (panicking
/// where the system clock is before 1970) and builds the instant with
/// `DateTime::from_timestamp(..).unwrap()`, so the instant is at or after the
/// epoch, representable, and has fewer than a billion nanoseconds.
#[verifier::external_body]
pub(crate) fn current_instant() -> (r: UtcInstant)
    ensures
        r.wf(),
        r.secs >= 0,
        r.nanos < 1_000_000_000,
{
    let now = chrono::Utc::now();
    UtcInstant { secs: now.timestamp(), nanos: now.timestamp_subsec_nanos() }
}

} // verus!

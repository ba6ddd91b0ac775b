//! The timestamp type and its conversions to 64-bit milliseconds and to
//! calendar instants.
use vstd::prelude::*;

use crate::calendar::{calendar_representable, current_instant, representable, UtcInstant};

verus! {

/// What can go wrong when converting or decoding a timestamp.
#[derive(Clone, Copy, Debug, PartialEq, Eq, Structural)]
pub enum Error {
    /// The value does not fit in 64-bit signed milliseconds.
    Range,
    /// The calendar cannot represent the instant.
    Conversion,
    /// The text is not a well-formed encoding of a timestamp.
    Decode,
}

/// Milliseconds relative to 1970-01-01T00:00:00 UTC, over the full `i128` range.
#[derive(Clone, Copy, Debug, PartialEq, Eq, Structural, PartialOrd, Ord, Hash)]
pub struct Geotime(pub i128);

impl From<i32> for Geotime {
    fn from(n: i32) -> Self {
        Geotime(n as i128)
    }
}

impl vstd::std_specs::convert::FromSpecImpl<i32> for Geotime {
    open spec fn obeys_from_spec() -> bool {
        true
    }

    open spec fn from_spec(n: i32) -> Self {
        Geotime(n as i128)
    }
}

impl From<i64> for Geotime {
    fn from(n: i64) -> Self {
        Geotime(n as i128)
    }
}

impl vstd::std_specs::convert::FromSpecImpl<i64> for Geotime {
    open spec fn obeys_from_spec() -> bool {
        true
    }

    open spec fn from_spec(n: i64) -> Self {
        Geotime(n as i128)
    }
}

impl From<i128> for Geotime {
    fn from(n: i128) -> Self {
        Geotime(n)
    }
}

impl vstd::std_specs::convert::FromSpecImpl<i128> for Geotime {
    open spec fn obeys_from_spec() -> bool {
        true
    }

    open spec fn from_spec(n: i128) -> Self {
        Geotime(n)
    }
}

/// The milliseconds since the epoch of an instant, with any finer part
/// truncated toward zero.
pub open spec fn instant_millis(i: UtcInstant) -> int {
    let n = i.secs * 1_000_000_000 + i.nanos;
    if n >= 0 {
        n / 1_000_000
    } else {
        -((-n) / 1_000_000)
    }
}

/// The calendar instant of `ms`: whole seconds floored, the remaining
/// milliseconds as nanoseconds; a range error where `ms` does not fit in 64
/// bits, a conversion error where the calendar cannot represent the instant.
pub open spec fn instant_of(ms: int) -> Result<UtcInstant, Error> {
    match millis_of(ms) {
        Err(e) => Err(e),
        Ok(n) => {
            let secs = n / 1000;
            let nanos = (n % 1000) * 1_000_000;
            if calendar_representable(secs, nanos) {
                Ok(UtcInstant { secs: secs as i64, nanos: nanos as u32 })
            } else {
                Err(Error::Conversion)
            }
        },
    }
}

impl Geotime {
    /// The timestamp of a calendar instant, to the millisecond.
    pub fn from_instant(instant: &UtcInstant) -> (r: Geotime)
        ensures
            r.0 == instant_millis(*instant),
    {
        let n: i128 = instant.secs as i128 * 1_000_000_000 + instant.nanos as i128;
        let ms: i128 = if n >= 0 {
            n / 1_000_000
        } else {
            -((-n) / 1_000_000)
        };
        Geotime(ms)
    }

    /// The current time: the milliseconds of a representable instant at or
    /// after the epoch.
    pub fn now() -> (r: Geotime)
        ensures
            r.0 >= 0,
            exists|i: UtcInstant| i.wf() && i.secs >= 0 && r.0 == instant_millis(i),
    {
        let now = current_instant();
        let r = Geotime::from_instant(&now);
        assert(now.wf() && now.secs >= 0 && r.0 == instant_millis(now));
        r
    }

    /// The calendar instant of the timestamp.
    pub fn to_instant(&self) -> (r: Result<UtcInstant, Error>)
        ensures
            r == instant_of(self.0 as int),
    {
        match self.timestamp_millis() {
            Err(e) => Err(e),
            Ok(n) => {
                let secs = n.checked_div_euclid(1000).unwrap();
                let rem = n.checked_rem_euclid(1000).unwrap();
                let nanos = rem as u32 * 1_000_000;
                if representable(secs, nanos) {
                    Ok(UtcInstant { secs, nanos })
                } else {
                    Err(Error::Conversion)
                }
            },
        }
    }

    /// Narrows to 64-bit milliseconds, failing when the value does not fit.
    pub fn timestamp_millis(&self) -> (r: Result<i64, Error>)
        ensures
            r == millis_of(self.0 as int),
    {
        if i64::MIN as i128 <= self.0 && self.0 <= i64::MAX as i128 {
            Ok(self.0 as i64)
        } else {
            Err(Error::Range)
        }
    }
}

/// The 64-bit milliseconds of `ms`, or a range error where it does not fit.
pub open spec fn millis_of(ms: int) -> Result<i64, Error> {
    if i64::MIN <= ms <= i64::MAX {
        Ok(ms as i64)
    } else {
        Err(Error::Range)
    }
}


/// Widening 64-bit milliseconds and narrowing them back gives them unchanged.
pub proof fn narrowing_inverse(n: i64)
    ensures
        millis_of(<Geotime as vstd::std_specs::convert::FromSpec<i64>>::from_spec(n).0 as int)
            == Ok::<i64, Error>(n),
{
}

/// An instant that the calendar represents, on a whole millisecond and with
/// its milliseconds within 64 bits, comes back unchanged from its timestamp.
pub proof fn calendar_round_trip(t: UtcInstant)
    requires
        t.wf(),
        t.nanos < 1_000_000_000,
        t.nanos % 1_000_000 == 0,
        i64::MIN <= instant_millis(t) <= i64::MAX,
    ensures
        instant_of(instant_millis(t)) == Ok::<UtcInstant, Error>(t),
{
    let m = t.nanos / 1_000_000;
    assert(t.secs * 1_000_000_000 + t.nanos == (t.secs * 1000 + m) * 1_000_000);
    assert(instant_millis(t) == t.secs * 1000 + m);
}

} // verus!

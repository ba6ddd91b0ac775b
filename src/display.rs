//! Human-readable text for a timestamp: the calendar where it can render,
//! otherwise a count of years, otherwise the raw value.
use vstd::prelude::*;

use crate::calendar::{calendar_text, format_instant};
use crate::time::{instant_of, Geotime};

verus! {

pub const SECONDS_IN_DAY: i128 = 86400;

/// A deliberately rough year of 356 days, in milliseconds: year counts are
/// shown only as an order of magnitude.
pub const MILLISECONDS_IN_YEAR_APPROX: i128 = SECONDS_IN_DAY * 356 * 1000;

/// From this many years on, a count of years is no longer shown.
pub const MAX_YEARS: u128 = 1_000_000_000_000;

/// `MAX_YEARS` years of `MILLISECONDS_IN_YEAR_APPROX`: magnitudes in
/// milliseconds from which the raw value is shown.
pub const MAX_YEARS_IN_MILLISECONDS: u128 = 30_758_400_000_000_000_000_000;

pub const DECIMAL_DIGITS: &'static str = "0123456789";

/// Relies on `String::push`: the character is appended.
pub assume_specification[ String::push ](s: &mut String, ch: char)
    ensures
        final(s)@ == old(s)@.push(ch),
;

/// How to show a timestamp.
#[derive(Debug, PartialEq, Eq)]
pub enum Rendering {
    /// The calendar text under the pattern.
    Calendar(String),
    /// A count of years, `magnitude` milliseconds away in the past or the
    /// future, to be written as a scaled number by [`describe_years`].
    Years { magnitude: u128, past: bool },
    /// The raw value, complete.
    Raw(String),
}

/// The absolute value of `ms`.
pub open spec fn magnitude_of(ms: int) -> nat {
    if ms < 0 {
        (-ms) as nat
    } else {
        ms as nat
    }
}

/// The calendar text of `ms` under `pattern`, where the calendar can render it.
pub open spec fn calendar_rendering(ms: int, pattern: Seq<char>) -> Option<Seq<char>> {
    match instant_of(ms) {
        Ok(i) => calendar_text(i.secs as int, i.nanos as int, pattern),
        Err(_) => None,
    }
}

/// The decimal digits of `n`.
pub open spec fn decimal_of_nat(n: nat) -> Seq<char>
    decreases n,
{
    if n < 10 {
        seq![DECIMAL_DIGITS@[n as int]]
    } else {
        decimal_of_nat(n / 10).push(DECIMAL_DIGITS@[(n % 10) as int])
    }
}

/// `n` in decimal, with a minus sign where it is negative.
pub open spec fn decimal_of(n: int) -> Seq<char> {
    if n < 0 {
        seq!['-'] + decimal_of_nat(magnitude_of(n))
    } else {
        decimal_of_nat(magnitude_of(n))
    }
}

/// `desc`, the unit, and which side of the epoch the value lies on.
pub open spec fn phrase(desc: Seq<char>, unit: Seq<char>, past: bool) -> Seq<char> {
    desc + " "@ + unit + if past {
        " ago"@
    } else {
        " from now"@
    }
}

/// The raw text of a timestamp: its value as written in code.
pub open spec fn raw_text(ms: int) -> Seq<char> {
    phrase("Geotime("@ + decimal_of(ms) + ")"@, "ms"@, ms < 0)
}

/// Appends the decimal digits of `n`.
fn push_decimal(s: &mut String, n: u128)
    ensures
        final(s)@ == old(s)@ + decimal_of_nat(n as nat),
    decreases n,
{
    proof {
        reveal_strlit("0123456789");
    }
    if n >= 10 {
        push_decimal(s, n / 10);
    }
    s.push(DECIMAL_DIGITS.get_char((n % 10) as usize));
    proof {
        if n >= 10 {
            assert(old(s)@ + decimal_of_nat(n as nat) =~= old(s)@ + decimal_of_nat((n / 10) as nat)
                + seq![DECIMAL_DIGITS@[(n % 10) as int]]);
        }
    }
}

/// The absolute value of `ms`.
fn magnitude(ms: i128) -> (r: u128)
    ensures
        r == magnitude_of(ms as int),
{
    if ms < 0 {
        (-(ms + 1)) as u128 + 1
    } else {
        ms as u128
    }
}

/// `desc`, the unit, and `ago` or `from now`.
fn make_phrase(desc: String, unit: &str, past: bool) -> (r: String)
    ensures
        r@ == phrase(desc@, unit@, past),
{
    let mut s = desc;
    s.append(" ");
    s.append(unit);
    if past {
        s.append(" ago");
    } else {
        s.append(" from now");
    }
    s
}

/// The raw text of `ms`.
fn raw(ms: i128) -> (r: String)
    ensures
        r@ == raw_text(ms as int),
{
    let mut s = String::from_str("Geotime(");
    if ms < 0 {
        s.push('-');
    }
    push_decimal(&mut s, magnitude(ms));
    s.append(")");
    assert(s@ =~= "Geotime("@ + decimal_of(ms as int) + ")"@);
    make_phrase(s, "ms", ms < 0)
}

/// A year count, already written as a scaled number, as shown: for example
/// `299.87 M years from now`.
pub fn describe_years(magnitude: &str, past: bool) -> (r: String)
    ensures
        r@ == phrase(magnitude@, "years"@, past),
{
    make_phrase(String::from_str(magnitude), "years", past)
}

/// `r` is how `ms` is shown when the calendar cannot show it: a year count
/// below `MAX_YEARS` years, the raw value from there on.
pub open spec fn is_fallback(ms: int, r: Rendering) -> bool {
    match r {
        Rendering::Calendar(_) => false,
        Rendering::Years { magnitude, past } => {
            &&& magnitude == magnitude_of(ms)
            &&& magnitude < MAX_YEARS_IN_MILLISECONDS
            &&& past == (ms < 0)
        },
        Rendering::Raw(s) => {
            &&& magnitude_of(ms) >= MAX_YEARS_IN_MILLISECONDS
            &&& s@ == raw_text(ms)
        },
    }
}

impl Geotime {
    /// How to show the timestamp without the calendar: as a year count
    /// below `MAX_YEARS` years, otherwise as the raw value.
    pub fn fallback(&self) -> (r: Rendering)
        ensures
            is_fallback(self.0 as int, r),
    {
        let m = magnitude(self.0);
        if m < MAX_YEARS_IN_MILLISECONDS {
            Rendering::Years { magnitude: m, past: self.0 < 0 }
        } else {
            Rendering::Raw(raw(self.0))
        }
    }

    /// How to show the timestamp under a calendar pattern: the calendar text
    /// where the calendar represents the instant and the pattern formats,
    /// otherwise the fallback.
    pub fn render(&self, pattern: &str) -> (r: Rendering)
        ensures
            match calendar_rendering(self.0 as int, pattern@) {
                Some(text) => r matches Rendering::Calendar(s) && s@ == text,
                None => is_fallback(self.0 as int, r),
            },
    {
        if let Ok(instant) = self.to_instant() {
            if let Some(text) = format_instant(&instant, pattern) {
                return Rendering::Calendar(text);
            }
        }
        self.fallback()
    }
}

} // verus!

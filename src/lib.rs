//! A 128-bit signed millisecond timestamp anchored at the Unix epoch, with
//! textual encodings whose string order is the numeric order.

pub mod calendar;
pub mod codec;
pub mod display;
pub mod radix;
pub mod time;

pub use codec::{
    decode, delexify, encode, lexify, order_preserved, rejects_malformed, round_trip, Alphabet,
    Lexical16, Lexical32, Lexical64, LexicalGeohash,
};
pub use calendar::{UtcInstant, CALENDAR_MAX_SECS, CALENDAR_MIN_SECS};
pub use display::{
    describe_years, Rendering, MAX_YEARS, MAX_YEARS_IN_MILLISECONDS, MILLISECONDS_IN_YEAR_APPROX,
    SECONDS_IN_DAY,
};
pub use time::{calendar_round_trip, narrowing_inverse, Error, Geotime};

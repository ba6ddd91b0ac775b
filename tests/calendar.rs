use chrono::{DateTime, TimeZone, Utc};
use geotime::{
    Error, Geotime, UtcInstant, CALENDAR_MAX_SECS, CALENDAR_MIN_SECS, MILLISECONDS_IN_YEAR_APPROX,
};

fn instant_of(dt: &DateTime<Utc>) -> UtcInstant {
    UtcInstant::new(dt.timestamp(), dt.timestamp_subsec_nanos()).unwrap()
}

#[test]
fn from_chrono() {
    let dt = Utc.with_ymd_and_hms(1800, 1, 1, 0, 0, 0).unwrap();
    let ts = Geotime::from_instant(&instant_of(&dt));
    assert_eq!(dt.timestamp_millis(), ts.timestamp_millis().unwrap());
}

#[test]
fn to_chrono() {
    let ts = Geotime::from(0);
    let dt = Utc.with_ymd_and_hms(1970, 1, 1, 0, 0, 0).unwrap();
    let instant = ts.to_instant().unwrap();
    assert_eq!(DateTime::from_timestamp(instant.secs, instant.nanos).unwrap(), dt);
}

#[test]
fn now() {
    assert!(Geotime::now() > Geotime::from(0));
}

#[test]
fn min_and_max_years() {
    let n = i128::MAX as f64;
    assert_eq!(n / (MILLISECONDS_IN_YEAR_APPROX) as f64, 5.53153556298342e27);
    assert_eq!(-n / (MILLISECONDS_IN_YEAR_APPROX) as f64, -5.53153556298342e27);
}

#[test]
fn narrowing_keeps_64_bit_values() {
    for n in [i64::MIN, -1, 0, 1, 1_700_000_000_000, i64::MAX] {
        assert_eq!(Geotime::from(n).timestamp_millis(), Ok(n));
    }
}

#[test]
fn narrowing_rejects_wide_values() {
    assert_eq!(Geotime::from(i64::MAX as i128 + 1).timestamp_millis(), Err(Error::Range));
    assert_eq!(Geotime::from(i64::MIN as i128 - 1).timestamp_millis(), Err(Error::Range));
    assert_eq!(Geotime::from(i128::MIN).to_instant(), Err(Error::Range));
}

#[test]
fn widening_from_each_width() {
    assert_eq!(Geotime::from(-5i32), Geotime::from(-5i128));
    assert_eq!(Geotime::from(-5i64), Geotime::from(-5i128));
    assert_eq!(Geotime::from(i32::MIN).timestamp_millis(), Ok(i32::MIN as i64));
}

#[test]
fn instant_round_trip() {
    for (y, mo, d, h, mi, s, ms) in [
        (1970, 1, 1, 0, 0, 0, 0),
        (1969, 12, 31, 23, 59, 59, 999),
        (1800, 6, 15, 12, 30, 1, 5),
        (2038, 1, 19, 3, 14, 8, 250),
        (-4000, 3, 1, 0, 0, 0, 1),
    ] {
        let dt = Utc.with_ymd_and_hms(y, mo, d, h, mi, s).unwrap()
            + chrono::Duration::milliseconds(ms);
        let instant = instant_of(&dt);
        let ts = Geotime::from_instant(&instant);
        assert_eq!(ts.timestamp_millis(), Ok(dt.timestamp_millis()));
        assert_eq!(ts.to_instant(), Ok(instant));
    }
}

#[test]
fn to_instant_floors_before_the_epoch() {
    let instant = Geotime::from(-1).to_instant().unwrap();
    assert_eq!((instant.secs, instant.nanos), (-1, 999_000_000));
    let instant = Geotime::from(-1000).to_instant().unwrap();
    assert_eq!((instant.secs, instant.nanos), (-1, 0));
    let instant = Geotime::from(1_500).to_instant().unwrap();
    assert_eq!((instant.secs, instant.nanos), (1, 500_000_000));
}

#[test]
fn from_instant_truncates_toward_zero() {
    let before = UtcInstant::new(-1, 999_999_999).unwrap();
    assert_eq!(Geotime::from_instant(&before), Geotime::from(0));
    let before = UtcInstant::new(-2, 998_500_000).unwrap();
    assert_eq!(Geotime::from_instant(&before), Geotime::from(-1001));
    let after = UtcInstant::new(1, 2_900_000).unwrap();
    assert_eq!(Geotime::from_instant(&after), Geotime::from(1002));
}

#[test]
fn to_instant_out_of_calendar_range() {
    assert_eq!(Geotime::from(i64::MAX).to_instant(), Err(Error::Conversion));
    assert_eq!(Geotime::from(i64::MIN).to_instant(), Err(Error::Conversion));
}

#[test]
fn instant_new_checks_the_calendar() {
    assert!(UtcInstant::new(0, 0).is_some());
    assert!(UtcInstant::new(59, 1_500_000_000).is_some());
    assert!(UtcInstant::new(0, 2_000_000_000).is_none());
    assert!(UtcInstant::new(i64::MAX, 0).is_none());
    let i = UtcInstant::new(3, 4).unwrap();
    assert_eq!((i.secs(), i.nanos()), (3, 4));
}

#[test]
fn calendar_range_bounds() {
    assert!(UtcInstant::new(CALENDAR_MIN_SECS, 0).is_some());
    assert!(UtcInstant::new(CALENDAR_MIN_SECS - 1, 999_999_999).is_none());
    assert!(UtcInstant::new(CALENDAR_MAX_SECS, 999_999_999).is_some());
    assert!(UtcInstant::new(CALENDAR_MAX_SECS, 1_999_999_999).is_some());
    assert!(UtcInstant::new(CALENDAR_MAX_SECS + 1, 0).is_none());
    assert!(UtcInstant::new(60, 1_000_000_000).is_none());
    assert!(UtcInstant::new(-1, 1_000_000_000).is_some());
    let first = DateTime::from_timestamp(CALENDAR_MIN_SECS, 0).unwrap();
    assert_eq!(first, Utc.with_ymd_and_hms(-262143, 1, 1, 0, 0, 0).unwrap());
    let last = DateTime::from_timestamp(CALENDAR_MAX_SECS, 0).unwrap();
    assert_eq!(last, Utc.with_ymd_and_hms(262142, 12, 31, 23, 59, 59).unwrap());
}

#[test]
fn now_is_after_the_epoch() {
    let ms = Geotime::now().timestamp_millis().unwrap();
    assert!(ms > 1_500_000_000_000);
    assert!(Geotime::now().to_instant().is_ok());
}

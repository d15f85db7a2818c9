use liveplaya::time::{Duration, Timespan, Timestamp};

const BM_EPOCH_MILLIS: u64 = 519807600000;

#[test]
fn time_test_convert() {
    let ts = Timestamp::from_unix_millis(BM_EPOCH_MILLIS);
    let (year, month, day, _h, _m, _s) = ts.to_calendar_utc();
    assert_eq!(year, 1986);
    assert_eq!(month, 6);
    assert_eq!(day, 22);

    let back = Timestamp::from_calendar_utc(1986, 6, 22, 7, 0, 0).unwrap();
    assert_eq!(back, ts);
}

#[test]
fn time_test_add_timestamp() {
    let ts = Timestamp::from_calendar_utc(2022, 2, 2, 2, 2, 2).unwrap();
    let dur = Duration::from_secs(24 * 3600);
    assert_eq!(
        ts.add(dur).unwrap(),
        Timestamp::from_calendar_utc(2022, 2, 3, 2, 2, 2).unwrap()
    );
}

#[test]
fn time_test_subtract_timestamp() {
    let ts1 = Timestamp::from_calendar_utc(2022, 2, 2, 2, 2, 2).unwrap();
    let ts2 = Timestamp::from_calendar_utc(2022, 2, 2, 2, 3, 2).unwrap();
    assert_eq!(ts2.millis_between(ts1), 60000);
}

#[test]
fn time_test_entire_year_timespan() {
    let span = Timespan::entire_year(2019).unwrap();
    assert_eq!(span.start().to_iso_string_utc(), "2019-01-01T00:00:00Z");
    assert_eq!(span.end().to_iso_string_utc(), "2019-12-31T23:59:59Z");
    assert_eq!(span.duration().whole_days(), 364);
}

#[test]
fn time_test_timespan_overlap() {
    let ts1 = Timestamp::from_calendar_utc(2019, 12, 1, 0, 0, 0).unwrap();
    let ts2 = Timestamp::from_calendar_utc(2018, 12, 1, 0, 0, 0).unwrap();
    let span1 = Timespan::entire_year(2019).unwrap();
    let span2 = Timespan::entire_year(2022).unwrap();
    let span3 = Timespan::from_timestamp_and_days(ts1, 7).unwrap();
    let span4 = Timespan::from_timestamp_and_days(ts1, 60).unwrap();
    let span5 = Timespan::from_timestamp_and_days(ts2, 60).unwrap();

    assert_eq!(span1.overlaps(span2), false);
    assert_eq!(span2.overlaps(span1), false);

    assert_eq!(span1.overlaps(span3), true);
    assert_eq!(span3.overlaps(span1), true);
    assert_eq!(span1.overlaps(span4), true);
    assert_eq!(span4.overlaps(span1), true);
    assert_eq!(span1.overlaps(span5), true);
    assert_eq!(span5.overlaps(span1), true);
}

#[test]
fn test_iso_round_trip_values() {
    for ms in [
        0u64,
        1u64,
        999u64,
        1000u64,
        BM_EPOCH_MILLIS,
        1546300800000u64,
        1643767322000u64,
        253402300799999u64,
    ] {
        let ts = Timestamp::from_unix_millis(ms);
        let text = ts.to_iso_string_utc();
        let back = Timestamp::from_iso_string(&text).unwrap();
        assert_eq!(back.as_unix_millis(), ms);
    }
}

#[test]
fn test_iso_format_exact() {
    assert_eq!(
        Timestamp::from_unix_millis(0).to_iso_string_utc(),
        "1970-01-01T00:00:00Z"
    );
    assert_eq!(
        Timestamp::from_unix_millis(1500).to_iso_string_utc(),
        "1970-01-01T00:00:01.5Z"
    );
    assert_eq!(
        Timestamp::from_unix_millis(1510).to_iso_string_utc(),
        "1970-01-01T00:00:01.51Z"
    );
    assert_eq!(
        Timestamp::from_unix_millis(1511).to_iso_string_utc(),
        "1970-01-01T00:00:01.511Z"
    );
}

#[test]
fn test_iso_parse_offsets_and_errors() {
    let a = Timestamp::from_iso_string("2019-01-01T05:30:00+05:30").unwrap();
    assert_eq!(a.as_unix_millis(), 1546300800000);
    let b = Timestamp::from_iso_string("2018-12-31T19:00:00-05:00").unwrap();
    assert_eq!(b.as_unix_millis(), 1546300800000);
    assert!(Timestamp::from_iso_string("not-a-timestamp").is_err());
    assert!(Timestamp::from_iso_string("2019-13-01T00:00:00Z").is_err());
    assert!(Timestamp::from_iso_string("2019-01-01T24:00:00Z").is_err());
    assert!(Timestamp::from_iso_string("2019-01-01T00:00:00").is_err());
    // An instant before the epoch is out of range.
    assert!(Timestamp::from_iso_string("1969-12-31T23:59:59Z").is_err());
}

#[test]
fn test_saturating_arithmetic() {
    let ts = Timestamp::from_unix_millis(5000);
    assert_eq!(
        ts.saturating_sub(Duration::from_millis(10000)).as_unix_millis(),
        0
    );
    assert_eq!(
        ts.saturating_add(Duration::from_millis(1000)).as_unix_millis(),
        6000
    );
    let near_max = Timestamp::from_unix_millis(u64::MAX - 10);
    assert_eq!(
        near_max
            .saturating_add(Duration::from_millis(100))
            .as_unix_millis(),
        u64::MAX
    );
    assert!(ts.sub(Duration::from_millis(10000)).is_err());
    assert!(near_max.add(Duration::from_millis(100)).is_err());
}

#[test]
fn test_timespan_includes_is_half_open() {
    let span = Timespan::new(
        Timestamp::from_unix_millis(100),
        Timestamp::from_unix_millis(200),
    );
    assert!(span.includes(Timestamp::from_unix_millis(100)));
    assert!(span.includes(Timestamp::from_unix_millis(199)));
    assert!(!span.includes(Timestamp::from_unix_millis(200)));
    assert!(!span.includes(Timestamp::from_unix_millis(99)));
    assert!(Timestamp::from_unix_millis(150).intersects(span));
}

#[test]
fn test_from_calendar_rejects_bad_components() {
    assert!(Timestamp::from_calendar_utc(2019, 2, 29, 0, 0, 0).is_err());
    assert!(Timestamp::from_calendar_utc(2020, 2, 29, 0, 0, 0).is_ok());
    assert!(Timestamp::from_calendar_utc(2019, 0, 1, 0, 0, 0).is_err());
    assert!(Timestamp::from_calendar_utc(2019, 1, 0, 0, 0, 0).is_err());
    assert!(Timestamp::from_calendar_utc(2019, 1, 1, 24, 0, 0).is_err());
    assert!(Timestamp::from_calendar_and_offset(2019, 1, 1, 0, 0, 0, 26).is_err());
    assert!(Timestamp::from_calendar_pdt(2019, 8, 25, 12, 0, 0).is_ok());
    // Pacific daylight time reads seven hours behind UTC.
    let pdt = Timestamp::from_calendar_pdt(2019, 8, 25, 12, 0, 0).unwrap();
    let utc = Timestamp::from_calendar_utc(2019, 8, 25, 19, 0, 0).unwrap();
    assert_eq!(pdt, utc);
}

use liveplaya::jsonlog::{format_line, parse_line, query_lines, split_line, Record};
use liveplaya::time::{Timespan, Timestamp};

fn ts(ms: u64) -> Timestamp {
    Timestamp::from_unix_millis(ms)
}

fn rec(data: &str) -> Record {
    Record::AprsPacket {
        data: data.to_string(),
    }
}

fn data_of(r: &Record) -> &str {
    match r {
        Record::AprsPacket { data } => data,
    }
}

#[test]
fn test_format_line_exact() {
    let line = format_line(ts(1546300800000), &rec("A>APRS:!4040.00N/11920.00W>"));
    assert_eq!(
        line,
        "2019-01-01T00:00:00Z {\"type\":\"aprs\",\"data\":\"A>APRS:!4040.00N/11920.00W>\"}"
    );
}

#[test]
fn test_format_line_escapes() {
    let line = format_line(ts(0), &rec("a\"b\\c\nd"));
    assert_eq!(
        line,
        "1970-01-01T00:00:00Z {\"type\":\"aprs\",\"data\":\"a\\\"b\\\\c\\nd\"}"
    );
}

#[test]
fn test_split_line() {
    let (t, rest) = split_line("2019-01-01T00:00:00Z payload here").unwrap();
    assert_eq!(t.as_unix_millis(), 1546300800000);
    assert_eq!(rest, "payload here");
    assert!(split_line("no-space-anywhere").is_err());
    assert!(split_line("not-a-timestamp {}").is_err());
}

/// Round trip: every appended record comes back from a covering query,
/// in order, with the same packet text.
#[test]
fn test_log_round_trip() {
    let records = [
        (100u64, "A>APRS:!4040.00N/11920.00W>"),
        (200u64, "B>APRS:!4041.00N/11921.00W- with \"quotes\" and \\slashes\\"),
        (300u64, "not a position but still stored"),
        (400u64, "tabs\tand\nnewlines"),
    ];
    let lines: Vec<String> = records
        .iter()
        .map(|(t, d)| format_line(ts(*t), &rec(d)))
        .collect();
    let span = Timespan::new(ts(0), ts(1000));
    let out = query_lines(&lines, span);
    assert_eq!(out.len(), records.len());
    for (i, (t, d)) in records.iter().enumerate() {
        assert_eq!(out[i].0.as_unix_millis(), *t);
        assert_eq!(data_of(&out[i].1), *d);
    }
}

/// The query span is closed-open and filters by timestamp.
#[test]
fn test_query_filters_by_span() {
    let lines: Vec<String> = [100u64, 200, 300]
        .iter()
        .map(|t| format_line(ts(*t), &rec("x>APRS:!4040.00N/11920.00W>")))
        .collect();
    let out = query_lines(&lines, Timespan::new(ts(150), ts(300)));
    assert_eq!(out.len(), 1);
    assert_eq!(out[0].0.as_unix_millis(), 200);
}

/// A malformed line between two well-formed ones is skipped.
#[test]
fn test_malformed_line_is_skipped() {
    let good1 = format_line(ts(100), &rec("A>APRS:!4040.00N/11920.00W>"));
    let good2 = format_line(ts(200), &rec("B>APRS:!4041.00N/11921.00W>"));
    let lines = vec![good1, "not-a-timestamp {}".to_string(), good2];
    let out = query_lines(&lines, Timespan::new(ts(0), ts(1000)));
    assert_eq!(out.len(), 2);
    assert_eq!(out[0].0.as_unix_millis(), 100);
    assert_eq!(out[1].0.as_unix_millis(), 200);
    assert!(parse_line("not-a-timestamp {}").is_err());
}

#[test]
fn test_parse_line_round_trip_control_chars() {
    let odd = "bell\u{7} and esc\u{1b} chars";
    let line = format_line(ts(123456), &rec(odd));
    let (t, r) = parse_line(&line).unwrap();
    assert_eq!(t.as_unix_millis(), 123456);
    assert_eq!(data_of(&r), odd);
}

#[test]
fn test_unknown_record_shape_is_error() {
    assert!(parse_line("2019-01-01T00:00:00Z {\"type\":\"other\",\"data\":\"x\"}").is_err());
    assert!(parse_line("2019-01-01T00:00:00Z {\"type\":\"aprs\",\"data\":\"unterminated}").is_err());
}

use liveplaya::aprs::{Log, Packet};
use liveplaya::err::Error;
use liveplaya::time::Timestamp;

fn ts(ms: u64) -> Timestamp {
    Timestamp::from_unix_millis(ms)
}

#[test]
fn test_parse_position_report() {
    let pk = Packet::parse("A>APRS:!4040.00N/11920.00W>").unwrap();
    let Packet::Position(rep) = pk;
    assert_eq!(rep.src_callsign, "A");
    // 40 degrees 40.00 minutes north, 119 degrees 20.00 minutes west,
    // in hundredths of a minute of arc.
    assert_eq!(rep.pos.lat_cmin, 40 * 6000 + 4000);
    assert_eq!(rep.pos.lng_cmin, -(119 * 6000 + 2000));
    assert_eq!(rep.pos.course_deg, None);
    assert_eq!(rep.pos.speed_kn, None);
    assert_eq!(rep.comment, None);
}

#[test]
fn test_parse_course_speed_and_comment() {
    let pk = Packet::parse("DISCOF>APT314,WIDE1:=4046.40N/11912.12W-347/001 chasing dust").unwrap();
    let Packet::Position(rep) = pk;
    assert_eq!(rep.src_callsign, "DISCOF");
    assert_eq!(rep.pos.course_deg, Some(347));
    assert_eq!(rep.pos.speed_kn, Some(1));
    assert_eq!(rep.comment.as_deref(), Some(" chasing dust"));
}

#[test]
fn test_parse_rejects_non_position() {
    assert!(Packet::parse("not an aprs packet").is_err());
    assert!(Packet::parse("A>APRS:>status only").is_err());
    assert!(Packet::parse(">APRS:!4040.00N/11920.00W>").is_err());
    // A latitude south of the pole is out of range.
    assert!(Packet::parse("A>APRS:!9940.00N/11920.00W>").is_err());
}

/// The out-of-order insert is rejected with an ordering error and the
/// cache is left exactly as it was.
#[test]
fn test_out_of_order_insert_rejected() {
    let mut cache = Log::new();
    cache
        .push(ts(100), "A>APRS:!4040.00N/11920.00W>".to_string())
        .unwrap();
    let r = cache.push(ts(90), "B>APRS:!4041.00N/11921.00W>".to_string());
    assert!(matches!(r, Err(Error::AprsOrder { .. })));
    assert_eq!(cache.station_count(), 1);
    assert_eq!(cache.recent_entries().len(), 1);
    assert_eq!(cache.recent_entries()[0].raw, "A>APRS:!4040.00N/11920.00W>");
}

/// Capacity three, five entries: the buffer keeps the last three and the
/// latest-position slot holds the newest report.
#[test]
fn test_capacity_evicts_oldest_first() {
    let mut cache = Log::with_capacity(3);
    for i in 1..=5u64 {
        let raw = format!("X1ABC>APRS:!404{}.00N/11920.00W>", i);
        cache.push(ts(i * 10), raw).unwrap();
    }
    let entries = cache.recent_entries();
    assert_eq!(entries.len(), 3);
    assert_eq!(entries[0].id, 3);
    assert_eq!(entries[1].id, 4);
    assert_eq!(entries[2].id, 5);
    assert_eq!(entries[0].raw, "X1ABC>APRS:!4043.00N/11920.00W>");
    assert_eq!(cache.station_count(), 1);
    let slots = cache.last_positions();
    assert_eq!(slots.len(), 1);
    assert_eq!(slots[0].0, "X1ABC");
    assert_eq!(slots[0].1.as_unix_millis(), 50);
    assert_eq!(slots[0].2.pos.lat_cmin, 40 * 6000 + 4500);
}

/// Equal timestamps are accepted and the newer report wins the slot.
#[test]
fn test_latest_position_per_source() {
    let mut cache = Log::new();
    cache
        .push(ts(10), "A>APRS:!4040.00N/11920.00W>".to_string())
        .unwrap();
    cache
        .push(ts(20), "B>APRS:!4141.00N/11821.00W>".to_string())
        .unwrap();
    cache
        .push(ts(30), "A>APRS:!4042.00N/11922.00W>".to_string())
        .unwrap();
    assert_eq!(cache.station_count(), 2);
    let slots = cache.last_positions();
    let a = slots.iter().find(|s| s.0 == "A").unwrap();
    assert_eq!(a.1.as_unix_millis(), 30);
    assert_eq!(a.2.pos.lat_cmin, 40 * 6000 + 4200);
    let b = slots.iter().find(|s| s.0 == "B").unwrap();
    assert_eq!(b.1.as_unix_millis(), 20);
}

/// A parse failure is kept as a log entry but never becomes a station.
#[test]
fn test_parse_failures_are_kept_not_mapped() {
    let mut cache = Log::new();
    cache.push(ts(10), "garbage".to_string()).unwrap();
    cache
        .push(ts(20), "A>APRS:!4040.00N/11920.00W>".to_string())
        .unwrap();
    assert_eq!(cache.recent_entries().len(), 2);
    assert!(cache.recent_entries()[0].parsed.is_err());
    assert!(cache.recent_entries()[1].parsed.is_ok());
    assert_eq!(cache.station_count(), 1);
}

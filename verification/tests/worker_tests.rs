use liveplaya::jsonlog::{format_line, Record};
use liveplaya::time::{Timespan, Timestamp};
use liveplaya::worker::{make_slug, seen_recently, sort_pois, FeatureRef, LogMessage, PoiRef, Worker};

fn ts(ms: u64) -> Timestamp {
    Timestamp::from_unix_millis(ms)
}

fn poi(name: &str, favorite: bool, known: bool, near: bool, recent: bool) -> PoiRef {
    PoiRef {
        name: name.to_string(),
        slug: make_slug(name),
        location: "9:00 & K".to_string(),
        lastseen: ts(1000),
        favorite,
        known,
        near,
        recent,
    }
}

fn ref_name(r: &FeatureRef) -> &str {
    match r {
        FeatureRef::Beacon { name, .. } => name,
    }
}

#[test]
fn test_sort_order_favorites_first() {
    let pois = vec![
        poi("plain", false, false, false, false),
        poi("recent", false, false, false, true),
        poi("near", false, false, true, false),
        poi("known", false, true, false, false),
        poi("fav", true, true, true, true),
    ];
    let sorted = sort_pois(pois);
    let names: Vec<&str> = sorted.iter().map(|p| p.name.as_str()).collect();
    assert_eq!(names, vec!["fav", "known", "near", "recent", "plain"]);
}

#[test]
fn test_make_slug_lowers_callsign() {
    assert_eq!(make_slug("K7ABC-9"), "aprs/k7abc-9");
    assert_eq!(make_slug("discof"), "aprs/discof");
}

#[test]
fn test_seen_recently_window() {
    let now = ts(100_000_000);
    assert!(seen_recently(ts(100_000_000 - 3 * 3600 * 1000 + 1), now));
    assert!(!seen_recently(ts(100_000_000 - 3 * 3600 * 1000), now));
}

#[test]
fn test_render_view_headings_and_log() {
    let mut w = Worker::new();
    w.post_aprs(ts(100), "A>APRS:!4040.00N/11920.00W>".to_string())
        .unwrap();
    w.post_aprs(ts(200), "garbage".to_string()).unwrap();
    let v = w.render_view(vec![poi("A", false, false, true, true)], ts(300), 2023);
    assert_eq!(v.name, "Black Rock City 2023");
    assert_eq!(v.description, "Watching 1 APRS stations.");
    assert_eq!(v.time.as_unix_millis(), 300);
    assert_eq!(v.refs.len(), 1);
    assert_eq!(ref_name(&v.refs[0]), "A");
    assert_eq!(v.log.len(), 2);
    match &v.log[0] {
        LogMessage::Info { id, time, text } => {
            assert_eq!(*id, 1);
            assert_eq!(time.as_unix_millis(), 100);
            assert_eq!(text, "A>APRS:!4040.00N/11920.00W>");
        }
        _ => panic!("expected an info message"),
    }
    match &v.log[1] {
        LogMessage::Error { id, text, .. } => {
            assert_eq!(*id, 2);
            assert_eq!(
                text,
                "garbage: can't parse APRS packet garbage: not an uncompressed position report"
            );
        }
        _ => panic!("expected an error message"),
    }
}

/// Replaying the same event log twice into two fresh caches yields
/// identical latest positions and identical recency-buffer contents.
#[test]
fn test_replay_is_deterministic() {
    let lines: Vec<String> = vec![
        format_line(ts(100), &Record::AprsPacket { data: "A>APRS:!4040.00N/11920.00W>".into() }),
        format_line(ts(200), &Record::AprsPacket { data: "not a position".into() }),
        format_line(ts(300), &Record::AprsPacket { data: "B>APRS:!4041.00N/11921.00W>".into() }),
        "not-a-timestamp {}".to_string(),
        format_line(ts(400), &Record::AprsPacket { data: "A>APRS:!4042.00N/11922.00W>".into() }),
    ];
    let span = Timespan::new(ts(0), ts(1000));
    let mut w1 = Worker::new();
    let mut w2 = Worker::new();
    let n1 = w1.preload(&lines, span);
    let n2 = w2.preload(&lines, span);
    assert_eq!(n1, 4);
    assert_eq!(n1, n2);
    let c1 = w1.packets();
    let c2 = w2.packets();
    assert_eq!(c1.station_count(), 2);
    assert_eq!(c1.station_count(), c2.station_count());
    assert_eq!(c1.recent_entries().len(), c2.recent_entries().len());
    for (a, b) in c1.recent_entries().iter().zip(c2.recent_entries().iter()) {
        assert_eq!(a.id, b.id);
        assert_eq!(a.ts, b.ts);
        assert_eq!(a.raw, b.raw);
        assert_eq!(a.parsed.is_ok(), b.parsed.is_ok());
    }
    let mut s1: Vec<_> = c1.last_positions().iter().map(|s| (s.0.clone(), s.1)).collect();
    let mut s2: Vec<_> = c2.last_positions().iter().map(|s| (s.0.clone(), s.1)).collect();
    s1.sort();
    s2.sort();
    assert_eq!(s1, s2);
    // The latest position per source survives the replay.
    let a = c1.last_positions().iter().find(|s| s.0 == "A").unwrap();
    assert_eq!(a.1.as_unix_millis(), 400);
}

/// Replay feeds records through the same path as live traffic, so the
/// cache keeps advancing afterwards.
#[test]
fn test_preload_then_live_traffic() {
    let lines = vec![format_line(
        ts(100),
        &Record::AprsPacket { data: "A>APRS:!4040.00N/11920.00W>".into() },
    )];
    let mut w = Worker::new();
    let n = w.preload(&lines, Timespan::new(ts(0), ts(1000)));
    assert_eq!(n, 1);
    w.post_aprs(ts(150), "B>APRS:!4041.00N/11921.00W>".to_string())
        .unwrap();
    assert_eq!(w.station_count(), 2);
    assert!(w.post_aprs(ts(50), "C>APRS:!4041.00N/11921.00W>".to_string()).is_err());
    assert_eq!(w.station_count(), 2);
}

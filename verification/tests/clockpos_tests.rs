use liveplaya::clockpos::ClockPos;

#[test]
fn clockpos_test_parse() {
    let c = "02:00".parse::<ClockPos>().unwrap();
    assert_eq!(c.hr(), 2);
    assert_eq!(c.min(), 0);

    let c = "02:15".parse::<ClockPos>().unwrap();
    assert_eq!(c.hr(), 2);
    assert_eq!(c.min(), 15);

    let c = " 2:15".parse::<ClockPos>().unwrap();
    assert_eq!(c.hr(), 2);
    assert_eq!(c.min(), 15);

    let c = " 2:17 ".parse::<ClockPos>().unwrap();
    assert_eq!(c.hr(), 2);
    assert_eq!(c.min(), 17);

    let c = "4:15".parse::<ClockPos>().unwrap();
    assert_eq!(c.hr(), 4);
    assert_eq!(c.min(), 15);

    let c = "12:15".parse::<ClockPos>().unwrap();
    assert_eq!(c.hr(), 12);
    assert_eq!(c.min(), 15);

    assert!(matches!("11:60".parse::<ClockPos>(), Err(_)));
    assert!(matches!("13:15".parse::<ClockPos>(), Err(_)));
    assert!(matches!("7::15".parse::<ClockPos>(), Err(_)));
    assert!(matches!("foo".parse::<ClockPos>(), Err(_)));
}

#[test]
fn test_ordering() {
    let noon = ClockPos::new(12, 0).unwrap();
    let two = ClockPos::new(2, 0).unwrap();
    let three = ClockPos::new(3, 0).unwrap();
    assert!(noon > three);
    assert!(two < three);
    assert!(ClockPos::new(2, 15).unwrap() < ClockPos::new(2, 16).unwrap());
    assert!(ClockPos::new(3, 1).unwrap() > ClockPos::new(2, 59).unwrap());
    assert!(ClockPos::new(11, 59).unwrap() < ClockPos::new(12, 0).unwrap());
    assert!(ClockPos::new(12, 1).unwrap() > ClockPos::new(12, 0).unwrap());
}

#[test]
fn test_hour_zero_reads_as_twelve() {
    let c = ClockPos::new(0, 30).unwrap();
    assert_eq!(c.hr(), 12);
    assert_eq!(c.min(), 30);
    assert!(matches!(ClockPos::new(13, 0), Err(_)));
    assert!(matches!(ClockPos::new(1, 60), Err(_)));
}

#[test]
fn test_unpack() {
    let c = ClockPos::unpack(215).unwrap();
    assert_eq!(c.hr(), 2);
    assert_eq!(c.min(), 15);
    assert!(ClockPos::unpack(1360).is_err());
}

#[test]
fn test_to_hhmm_string() {
    assert_eq!(ClockPos::new(2, 15).unwrap().to_hhmm_string(), "2:15");
    assert_eq!(ClockPos::new(12, 5).unwrap().to_hhmm_string(), "12:05");
}

use vault::time::Time;

fn mk(
    year: u32,
    month: u32,
    day: u32,
    hour: u32,
    minute: u32,
    second: u32,
    nanos: u32,
) -> Time {
    Time { year, month, day, hour, minute, second, nanos }
}

#[test]
fn time_smoke_time() {
    for _ in 0..1000 {
        let now = Time::now().unwrap();
        let l_str = Time::to_string(&now);
        match Time::from_string(l_str.as_str()) {
            Some(m_dt) => assert_eq!(l_str, Time::to_string(&m_dt).as_str()),
            None => assert!(false),
        };
    }
}

#[test]
fn util_smoke_time() {
    for _ in 0..1000 {
        let now = Time::now().unwrap();
        let l_str = Time::to_string(&now);
        match Time::from_string(l_str.as_str()) {
            Some(m_dt) => assert_eq!(l_str, Time::to_string(&m_dt).as_str()),
            None => assert!(false),
        };
    }
}

#[test]
fn format_exact() {
    let t = mk(2023, 5, 20, 4, 55, 11, 7_757_100);
    assert_eq!(Time::to_string(&t), "2023-05-20_04-55-11.007757100");
    let zero = mk(0, 1, 1, 0, 0, 0, 0);
    assert_eq!(Time::to_string(&zero), "0000-01-01_00-00-00.000000000");
    let max = mk(9999, 12, 31, 23, 59, 59, 999_999_999);
    assert_eq!(Time::to_string(&max), "9999-12-31_23-59-59.999999999");
}

#[test]
fn parse_exact() {
    let t = Time::from_string("2023-05-20_04-55-11.007757100").unwrap();
    assert_eq!(t.year, 2023);
    assert_eq!(t.month, 5);
    assert_eq!(t.day, 20);
    assert_eq!(t.hour, 4);
    assert_eq!(t.minute, 55);
    assert_eq!(t.second, 11);
    assert_eq!(t.nanos, 7_757_100);
}

#[test]
fn parse_round_trip_samples() {
    // A spread of instants, every calendar corner represented: leap
    // days, year bounds, month lengths, field extremes.
    let mut samples: Vec<Time> = Vec::new();
    for y in [0, 1, 1900, 1970, 1999, 2000, 2023, 2024, 9999] {
        for m in [1, 2, 6, 12] {
            for d in [1, 28, 31] {
                let t = mk(y, m, d, 23, 59, 59, 123_456_789);
                if Time::from_string(Time::to_string(&t).as_str()).is_some() {
                    samples.push(t);
                }
            }
        }
    }
    assert!(samples.len() >= 72);
    let mut trials = 0;
    while trials < 1000 {
        for t in &samples {
            let s = Time::to_string(t);
            let back = Time::from_string(s.as_str()).unwrap();
            assert_eq!(s, Time::to_string(&back));
            assert_eq!(t.year, back.year);
            assert_eq!(t.nanos, back.nanos);
            trials += 1;
        }
    }
}

#[test]
fn parse_rejects_bad_shapes() {
    assert!(Time::from_string("").is_none());
    assert!(Time::from_string("2023-05-20").is_none());
    assert!(Time::from_string("2023-05-20_04-55-11.0077571000").is_none());
    assert!(Time::from_string("2023x05-20_04-55-11.007757100").is_none());
    assert!(Time::from_string("2023-05-20 04-55-11.007757100").is_none());
    assert!(Time::from_string("2023-05-20_04:55:11.007757100").is_none());
    assert!(Time::from_string("2023-05-20_04-55-11,007757100").is_none());
    assert!(Time::from_string("2023-05-20_04-55-1a.007757100").is_none());
}

#[test]
fn parse_rejects_impossible_fields() {
    assert!(Time::from_string("2023-00-20_04-55-11.007757100").is_none());
    assert!(Time::from_string("2023-13-20_04-55-11.007757100").is_none());
    assert!(Time::from_string("2023-05-00_04-55-11.007757100").is_none());
    assert!(Time::from_string("2023-05-32_04-55-11.007757100").is_none());
    assert!(Time::from_string("2023-04-31_04-55-11.007757100").is_none());
    assert!(Time::from_string("2023-05-20_24-55-11.007757100").is_none());
    assert!(Time::from_string("2023-05-20_04-60-11.007757100").is_none());
    assert!(Time::from_string("2023-05-20_04-55-60.007757100").is_none());
}

#[test]
fn parse_leap_years() {
    assert!(Time::from_string("2024-02-29_00-00-00.000000000").is_some());
    assert!(Time::from_string("2023-02-29_00-00-00.000000000").is_none());
    assert!(Time::from_string("2000-02-29_00-00-00.000000000").is_some());
    assert!(Time::from_string("1900-02-29_00-00-00.000000000").is_none());
    assert!(Time::from_string("2024-02-30_00-00-00.000000000").is_none());
}

#[test]
fn plus_seconds_carries() {
    let t = mk(2023, 12, 31, 23, 59, 55, 1);
    let u = t.plus_seconds(10).unwrap();
    assert_eq!(Time::to_string(&u), "2024-01-01_00-00-05.000000001");

    // Across a leap day.
    let v = mk(2024, 2, 28, 23, 0, 0, 0).plus_seconds(2 * 3600).unwrap();
    assert_eq!(Time::to_string(&v), "2024-02-29_01-00-00.000000000");

    // A non-leap year goes straight to March.
    let w = mk(2023, 2, 28, 23, 0, 0, 0).plus_seconds(2 * 3600).unwrap();
    assert_eq!(Time::to_string(&w), "2023-03-01_01-00-00.000000000");

    // Zero seconds is the identity.
    let x = mk(2023, 5, 20, 4, 55, 11, 7).plus_seconds(0).unwrap();
    assert_eq!(Time::to_string(&x), "2023-05-20_04-55-11.000000007");
}

#[test]
fn plus_seconds_range_end() {
    let close = mk(9999, 12, 31, 23, 59, 59, 0);
    assert!(close.plus_seconds(0).is_some());
    assert!(close.plus_seconds(1).is_none());
}

#[test]
fn before_orders_instants() {
    let a = mk(2023, 5, 20, 4, 55, 11, 0);
    let b = mk(2023, 5, 20, 4, 55, 11, 1);
    let c = mk(2023, 5, 20, 4, 55, 12, 0);
    assert!(a.before(&b));
    assert!(b.before(&c));
    assert!(a.before(&c));
    assert!(!b.before(&a));
    assert!(!a.before(&a));
    // Lexicographic order of the canonical strings matches.
    assert!(Time::to_string(&a) < Time::to_string(&b));
    assert!(Time::to_string(&b) < Time::to_string(&c));
}

#[test]
fn from_fields_checks_ranges() {
    let t = Time::from_fields(2023, 5, 20, 4, 55, 11, 7_757_100).unwrap();
    assert_eq!(t, mk(2023, 5, 20, 4, 55, 11, 7_757_100));
    // Each field outside its range is rejected.
    assert!(Time::from_fields(-1, 5, 20, 4, 55, 11, 0).is_none());
    assert!(Time::from_fields(10000, 5, 20, 4, 55, 11, 0).is_none());
    assert!(Time::from_fields(2023, 0, 20, 4, 55, 11, 0).is_none());
    assert!(Time::from_fields(2023, 13, 20, 4, 55, 11, 0).is_none());
    assert!(Time::from_fields(2023, 2, 29, 4, 55, 11, 0).is_none());
    assert!(Time::from_fields(2024, 2, 29, 4, 55, 11, 0).is_some());
    assert!(Time::from_fields(2023, 5, 20, 24, 55, 11, 0).is_none());
    assert!(Time::from_fields(2023, 5, 20, 4, 60, 11, 0).is_none());
    assert!(Time::from_fields(2023, 5, 20, 4, 55, 60, 0).is_none());
    // The fraction of a leap second lies outside the canonical format.
    assert!(Time::from_fields(2023, 5, 20, 4, 55, 11, 1_000_000_000).is_none());
}

#[test]
fn now_is_well_formed() {
    let t = Time::now().unwrap();
    assert!(t.month >= 1 && t.month <= 12);
    assert!(t.day >= 1 && t.day <= 31);
    assert!(t.year >= 2020);
    let s = Time::to_string(&t);
    assert_eq!(s.len(), 29);
    assert!(Time::from_string(s.as_str()).is_some());
}

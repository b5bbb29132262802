use almanac::time::{add_hour, is_ymd, next_date, parse_instant, to_ics_utc};

#[test]
fn rfc3339_z_and_offset() {
    assert_eq!(
        parse_instant("2026-08-16T20:05:00.000Z").unwrap(),
        "2026-08-16T20:05:00.000Z"
    );
    assert_eq!(
        parse_instant("2026-08-16T13:05:00-07:00").unwrap(),
        "2026-08-16T20:05:00.000Z"
    );
    assert_eq!(to_ics_utc("2026-08-16T20:05:00.000Z").unwrap(), "20260816T200500Z");
    assert_eq!(next_date("2026-08-16").unwrap(), "2026-08-17");
    assert_eq!(add_hour("2026-08-16T19:00:00.000Z"), "2026-08-16T20:00:00.000Z");
}

#[test]
fn dates_roll_over_months_and_leap_days() {
    assert_eq!(next_date("2028-02-28").unwrap(), "2028-02-29");
    assert_eq!(next_date("2026-12-31").unwrap(), "2027-01-01");
    assert!(!is_ymd("2026-02-30"));
    assert!(parse_instant("2026-13-01T00:00:00Z").is_none());
}

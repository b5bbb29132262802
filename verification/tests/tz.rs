use almanac::tz::{check, is_utc, vtimezone_lines};

#[test]
fn allows_listed_zones_only() {
    assert!(check("UTC").is_ok());
    assert!(check("America/Los_Angeles").is_ok());
    let err = check("Mars/Base").unwrap_err();
    assert!(err.contains("America/Los_Angeles"));
    assert!(vtimezone_lines("UTC").is_none());
    let la = vtimezone_lines("America/Los_Angeles").unwrap();
    assert!(la.contains(&"TZID:America/Los_Angeles"));
    assert!(la.iter().any(|l| l.contains("BYDAY=2SU")));
}

#[test]
fn utc_is_recognized() {
    assert!(is_utc("UTC"));
    assert!(!is_utc("Europe/London"));
}

use almanac::rrule::canonicalize;

#[test]
fn canonicalizes_weekly() {
    assert_eq!(
        canonicalize("freq=weekly;INTERVAL=1;BYDAY=tu,th", false).unwrap(),
        "FREQ=WEEKLY;BYDAY=TU,TH"
    );
}

#[test]
fn keeps_interval_and_monthly_ordinal() {
    assert_eq!(
        canonicalize("FREQ=MONTHLY;INTERVAL=2;BYDAY=+1MO", false).unwrap(),
        "FREQ=MONTHLY;INTERVAL=2;BYDAY=1MO"
    );
}

#[test]
fn accepts_until_forms() {
    assert_eq!(
        canonicalize("FREQ=DAILY;UNTIL=20261231T235959Z", false).unwrap(),
        "FREQ=DAILY;UNTIL=20261231T235959Z"
    );
    assert_eq!(
        canonicalize("FREQ=DAILY;UNTIL=20261231", true).unwrap(),
        "FREQ=DAILY;UNTIL=20261231"
    );
}

#[test]
fn rejects_unknown_parts_and_conflicts() {
    assert!(canonicalize("FREQ=WEEKLY;BYHOUR=9", false).is_err());
    assert!(canonicalize("FREQ=DAILY;COUNT=2;UNTIL=20261231T000000Z", false).is_err());
    assert!(canonicalize("FREQ=WEEKLY;BYDAY=1MO", false).is_err());
    assert!(canonicalize("RRULE:FREQ=DAILY", false).is_err());
    assert!(canonicalize("FREQ=DAILY;UNTIL=20261231", false).is_err());
    assert!(canonicalize("FREQ=DAILY;UNTIL=20261231T000000Z", true).is_err());
    assert!(canonicalize("INTERVAL=2", false).is_err());
}

#[test]
fn a_canonical_rule_stays_as_it_is() {
    let once = canonicalize("freq=weekly;byday=tu,th;interval=2", false).unwrap();
    assert_eq!(canonicalize(&once, false).unwrap(), once);
}

#[test]
fn a_canonical_rule_is_canonical_again() {
    let inputs = [
        ("  freq=yearly;bymonth=03,12;BYMONTHDAY=+5,-1;byday=-1su;count=010 ", false),
        ("FREQ=MONTHLY;INTERVAL=01;BYDAY=+2we,mo", false),
        ("FREQ=weekly;UNTIL=20260101;BYDAY=+SA", true),
        ("FREQ=DAILY;INTERVAL=1", false),
    ];
    for (raw, all_day) in inputs {
        let once = canonicalize(raw, all_day).unwrap();
        assert_eq!(canonicalize(&once, all_day).unwrap(), once);
    }
    assert_eq!(
        canonicalize("  freq=yearly;bymonth=03,12;BYMONTHDAY=+5,-1;byday=-1su;count=010 ", false)
            .unwrap(),
        "FREQ=YEARLY;BYMONTH=3,12;BYMONTHDAY=5,-1;BYDAY=-1SU;COUNT=10"
    );
}

#[test]
fn a_canonical_rule_has_its_parts_in_order() {
    assert_eq!(
        canonicalize("UNTIL=20260101T000000Z;byday=mo;FREQ=weekly;INTERVAL=1;BYMONTH=2", false).unwrap(),
        "FREQ=WEEKLY;BYMONTH=2;BYDAY=MO;UNTIL=20260101T000000Z"
    );
    assert!(canonicalize("FREQ=DAILY;COUNT=2;UNTIL=20260101T000000Z", false).is_err());
    assert!(canonicalize("FREQ=DAILY;FREQ=DAILY", false).is_err());
}

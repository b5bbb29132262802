use almanac::db::{file_kind, parse_wall, FileKind};
use almanac::db::{
    calendar_name, exception_id, home_changes, json_event, parse_event_input, parse_override_input,
    plan_exdate, plan_override, plan_patch, plan_upsert, require_series, CalendarRow, EventOverride,
    EventPatch, EventRow,
};
use almanac::json::parse;

#[test]
fn requires_summary_and_start() {
    let miss = parse_event_input(&parse(r#"{"summary":"x"}"#).unwrap());
    assert!(miss.is_err());
    let ok = parse_event_input(&parse(r#"{"summary":"Dinner","start":"2026-08-16T19:00:00-07:00"}"#).unwrap())
        .unwrap();
    assert_eq!(ok.summary, "Dinner");
}

#[test]
fn rejects_a_bad_uid() {
    let bad = parse_event_input(
        &parse(r#"{"uid":"has spaces","summary":"x","start":"2026-08-16T19:00:00Z"}"#).unwrap(),
    );
    assert!(bad.is_err());
}

fn row(uid: &str) -> EventRow {
    EventRow {
        uid: uid.into(),
        summary: "Standup".into(),
        description: "daily".into(),
        location: "room".into(),
        dtstart: "2026-09-22T09:00:00".into(),
        dtend: "2026-09-22T09:15:00".into(),
        all_day: false,
        transparent: true,
        sequence: 3,
        created_at: "c".into(),
        updated_at: "u".into(),
        rrule: "FREQ=WEEKLY;BYDAY=TU".into(),
        tzid: "America/Los_Angeles".into(),
        seal: String::new(),
        exdates: vec!["2026-10-06T09:00:00".into()],
        overrides: vec![EventOverride {
            recurrence_id: "2026-10-13T09:00:00".into(),
            summary: "late".into(),
            description: String::new(),
            location: String::new(),
            dtstart: "2026-10-13T10:00:00".into(),
            dtend: "2026-10-13T10:15:00".into(),
            all_day: false,
            transparent: true,
            sequence: 4,
            updated_at: "u".into(),
        }],
    }
}

#[test]
fn treats_ymd_as_all_day_and_keeps_omitted_text() {
    let input = parse_event_input(&parse(r#"{"summary":"Off","start":"2026-08-20"}"#).unwrap()).unwrap();
    let w = plan_upsert(&input, &None).unwrap();
    assert!(w.all_day);
    assert_eq!((w.dtstart.as_str(), w.dtend.as_str()), ("2026-08-20", "2026-08-21"));
    assert_eq!(w.description, "");
    assert!(w.transparent);
    let mut existing = row("e");
    existing.rrule = String::new();
    existing.tzid = String::new();
    existing.exdates.clear();
    existing.overrides.clear();
    let input = parse_event_input(&parse(r#"{"summary":"Call","start":"2026-08-16T13:05:00-07:00"}"#).unwrap())
        .unwrap();
    let w = plan_upsert(&input, &Some(existing)).unwrap();
    assert_eq!(w.description, "daily");
    assert_eq!(w.dtstart, "2026-08-16T20:05:00.000Z");
    assert_eq!(w.dtend, "2026-08-16T21:05:00.000Z");
}

#[test]
fn rejects_end_before_start() {
    let input = parse_event_input(
        &parse(r#"{"summary":"Bad","start":"2026-08-16T19:00:00Z","end":"2026-08-16T18:00:00Z"}"#).unwrap(),
    )
    .unwrap();
    assert_eq!(plan_upsert(&input, &None).unwrap_err(), "end must be after start");
}

#[test]
fn a_series_keeps_wall_clock_and_needs_a_zone() {
    let input = parse_event_input(
        &parse(r#"{"summary":"S","start":"2026-09-22T09:00:00","rrule":"freq=weekly","timeZone":"Europe/Paris"}"#)
            .unwrap(),
    )
    .unwrap();
    let w = plan_upsert(&input, &None).unwrap();
    assert_eq!(w.rrule, "FREQ=WEEKLY");
    assert_eq!(w.tzid, "Europe/Paris");
    assert_eq!((w.dtstart.as_str(), w.dtend.as_str()), ("2026-09-22T09:00:00", "2026-09-22T10:00:00"));
    let no_zone = parse_event_input(&parse(r#"{"summary":"S","start":"2026-09-22T09:00:00","rrule":"FREQ=DAILY"}"#).unwrap())
        .unwrap();
    assert_eq!(plan_upsert(&no_zone, &None).unwrap_err(), "timeZone is required");
}

#[test]
fn exceptions_block_clearing_the_rule() {
    let patch = EventPatch {
        summary: None,
        description: None,
        location: None,
        start: None,
        end: None,
        all_day: None,
        transparent: None,
        rrule: Some(String::new()),
        time_zone: None,
    };
    assert_eq!(plan_patch(&row("s"), &patch).unwrap_err(), "clear exceptions first");
    let keep = EventPatch { rrule: None, summary: Some("Renamed".into()), ..patch };
    let w = plan_patch(&row("s"), &keep).unwrap();
    assert_eq!(w.summary, "Renamed");
    assert_eq!(w.location, "room");
    assert_eq!(w.rrule, "FREQ=WEEKLY;BYDAY=TU");
}

#[test]
fn overrides_and_exdates_find_what_was_there() {
    let ev = row("s");
    let (rid, created) = plan_exdate(&ev, "2026-10-06T09:00:00").unwrap();
    assert_eq!(rid, "2026-10-06T09:00:00");
    assert!(!created);
    assert!(plan_exdate(&ev, "2026-10-20T09:00:00").unwrap().1);
    assert!(plan_exdate(&ev, "2026-10-20T09:00:00Z").is_err());
    let input = parse_override_input(
        &parse(r#"{"recurrenceId":"2026-10-13T09:00:00","start":"2026-10-13T11:00:00"}"#).unwrap(),
    )
    .unwrap();
    let w = plan_override(&ev, &input).unwrap();
    assert_eq!(w.sequence, 5);
    assert!(!w.created);
    assert_eq!(w.summary, "Standup");
    assert_eq!(w.dtend, "2026-10-13T12:00:00");
    let mut single = row("one");
    single.rrule = String::new();
    assert_eq!(exception_id(&single, "2026-10-13T09:00:00").unwrap_err(), "event is not recurring");
    assert_eq!(require_series(None).unwrap_err(), "not found");
}

#[test]
fn a_calendar_name_is_trimmed_defaulted_and_capped() {
    assert_eq!(calendar_name(None).unwrap(), "Almanac");
    assert_eq!(calendar_name(Some("  ")).unwrap(), "Almanac");
    assert_eq!(calendar_name(Some(" Trip ")).unwrap(), "Trip");
    assert_eq!(calendar_name(Some(&"x".repeat(81))).unwrap_err(), "name is too long");
}

#[test]
fn home_reports_each_changed_field() {
    let cal = CalendarRow {
        id: "home".into(),
        feed_token: "f".into(),
        key_hash: "h".into(),
        name: "Almanac".into(),
        created_at: "c".into(),
        feed: "plain".into(),
    };
    assert!(home_changes(&cal, "h", "f", "Almanac").is_empty());
    assert_eq!(home_changes(&cal, "h2", "f", "Other"), vec!["agent_key", "name"]);
}

#[test]
fn a_sealed_event_shows_only_its_seal() {
    let mut ev = row("s");
    ev.seal = "wire".into();
    assert_eq!(
        almanac::json::stringify(&json_event(&ev)),
        r#"{"createdAt":"c","seal":"wire","uid":"s","updatedAt":"u"}"#
    );
}

#[test]
fn the_file_kind_comes_from_its_first_bytes() {
    assert_eq!(file_kind(None), FileKind::Missing);
    assert_eq!(file_kind(Some(Some(&[][..]))), FileKind::Missing);
    assert_eq!(file_kind(Some(Some(&b"SQLite format 3\0"[..]))), FileKind::Plaintext);
    assert_eq!(file_kind(Some(Some(&b"SQLite format 3"[..]))), FileKind::Encrypted);
    assert_eq!(file_kind(Some(Some(&[7u8; 16][..]))), FileKind::Encrypted);
    assert_eq!(file_kind(Some(None)), FileKind::Encrypted);
}

#[test]
fn a_stored_wall_time_reads_back_as_itself() {
    let once = parse_wall("2026-03-01T09:05:07.250+01:00").unwrap();
    assert_eq!(once, "2026-03-01T09:05:07");
    assert_eq!(parse_wall(&once).unwrap(), once);
    assert!(parse_wall("2026-03-01 09:05:07").is_err());
}

#[test]
fn a_patch_without_times_keeps_a_series_as_stored() {
    let patch = EventPatch {
        summary: Some("Retro".into()),
        description: Some(String::new()),
        location: None,
        start: None,
        end: None,
        all_day: None,
        transparent: Some(false),
        rrule: None,
        time_zone: None,
    };
    let ev = row("s");
    let w = plan_patch(&ev, &patch).unwrap();
    assert_eq!(w.rrule, ev.rrule);
    assert_eq!(w.tzid, ev.tzid);
    assert_eq!(w.dtstart, ev.dtstart);
    assert_eq!(w.dtend, ev.dtend);
    assert!(!w.all_day);
    assert_eq!(w.summary, "Retro");
    assert_eq!(w.description, "");
}

#[test]
fn only_the_replaced_override_needs_room_for_its_revision() {
    let mut ev = row("s");
    let mut other = ev.overrides[0].clone();
    other.recurrence_id = "2026-10-20T09:00:00".into();
    other.sequence = i64::MAX;
    ev.overrides.push(other);
    let input = parse_override_input(
        &parse(r#"{"recurrenceId":"2026-10-13T09:00:00","start":"2026-10-13T11:00:00"}"#).unwrap(),
    )
    .unwrap();
    let w = plan_override(&ev, &input).unwrap();
    assert_eq!(w.sequence, 5);
    assert!(!w.created);
}

use almanac::ics::{escape_text, fold_line, render_calendar, render_todos, IcsEvent, IcsOverride, IcsTodo};
use almanac::time::{next_date, to_ics_date, to_ics_utc};
fn todo(title: &str) -> IcsTodo {
    IcsTodo {
        uid: "todo-1".into(),
        title: title.into(),
        description: String::new(),
        due: String::new(),
        done: false,
        completed_at: String::new(),
        priority: 0,
        tags: vec![],
        sequence: 0,
        created_at: "2026-09-01T10:00:00.000Z".into(),
        updated_at: "2026-09-02T11:30:00.000Z".into(),
    }
}

#[test]
fn renders_an_open_todo() {
    let ics = render_todos("Home", &[todo("Buy milk")]);
    assert_eq!(
        ics,
        "BEGIN:VCALENDAR\r\nVERSION:2.0\r\nPRODID:-//Steve//almanac//EN\r\n\
         CALSCALE:GREGORIAN\r\nMETHOD:PUBLISH\r\nX-WR-CALNAME:Home Todos\r\n\
         BEGIN:VTODO\r\nUID:todo-1\r\nDTSTAMP:20260902T113000Z\r\n\
         CREATED:20260901T100000Z\r\nLAST-MODIFIED:20260902T113000Z\r\nSEQUENCE:0\r\n\
         SUMMARY:Buy milk\r\nSTATUS:NEEDS-ACTION\r\nEND:VTODO\r\nEND:VCALENDAR\r\n"
    );
}

#[test]
fn renders_due_priority_tags_and_completion() {
    let mut t = todo("Ship it");
    t.due = "2026-10-01".into();
    t.priority = 1;
    t.tags = vec!["work".into(), "q4".into()];
    t.done = true;
    t.completed_at = "2026-09-30T18:00:00.000Z".into();
    let ics = render_todos("Home", &[t.clone()]);
    assert!(ics.contains("DUE;VALUE=DATE:20261001\r\n"), "{ics}");
    assert!(ics.contains("PRIORITY:1\r\n"));
    assert!(ics.contains("CATEGORIES:work,q4\r\n"));
    assert!(ics.contains("STATUS:COMPLETED\r\n"));
    assert!(ics.contains("PERCENT-COMPLETE:100\r\n"));
    assert!(ics.contains("COMPLETED:20260930T180000Z\r\n"));
    assert!(!ics.contains("NEEDS-ACTION"));

    t.due = "2026-10-01T16:00:00.000Z".into();
    assert!(render_todos("Home", &[t]).contains("DUE:20261001T160000Z\r\n"));
}

#[test]
fn escapes_and_folds_text_and_never_breaks_a_line() {
    let mut t = todo("Call Bob; then, Alice\\Eve\nnext");
    t.description = "é".repeat(100);
    let ics = render_todos("A;B", &[t]);
    assert!(ics.contains("X-WR-CALNAME:A\\;B Todos\r\n"), "{ics}");
    assert!(ics.contains("SUMMARY:Call Bob\\; then\\, Alice\\\\Eve\\nnext\r\n"), "{ics}");
    for line in ics.split("\r\n") {
        assert!(line.len() <= 75, "unfolded line of {} octets: {line}", line.len());
    }
    // A title cannot inject a property by carrying a newline.
    let evil = render_todos("x", &[todo("a\r\nSTATUS:COMPLETED")]);
    let statuses: Vec<&str> = evil.split("\r\n").filter(|l| l.starts_with("STATUS:")).collect();
    assert_eq!(statuses, ["STATUS:NEEDS-ACTION"], "{evil}");
}

#[test]
fn escapes_ics_specials() {
    assert_eq!(escape_text("a;b,c\\d\ne"), "a\\;b\\,c\\\\d\\ne");
}

#[test]
fn drops_control_characters_but_keeps_tabs_and_newlines() {
    assert_eq!(escape_text("a\u{0}b\u{7}c\u{1b}[0m\u{7f}d\u{85}e"), "abc[0mde");
    assert_eq!(escape_text("a\tb"), "a\tb");
    assert_eq!(escape_text("a\r\nb\rc\nd"), "a\\nb\\nc\\nd");
    assert_eq!(escape_text("é ✓ 日本"), "é ✓ 日本");
}

#[test]
fn leaves_short_lines_alone() {
    assert_eq!(fold_line("SUMMARY:Giants"), "SUMMARY:Giants");
}

#[test]
fn folds_long_lines_at_75_octets() {
    let line = format!("DESCRIPTION:{}", "x".repeat(80));
    let folded = fold_line(&line);
    assert!(folded.contains("\r\n "));
    let first = folded.split("\r\n").next().unwrap();
    assert!(first.len() <= 75);
}

#[test]
fn formats_utc_instants() {
    assert_eq!(
        to_ics_utc("2026-08-16T20:05:00.000Z").unwrap(),
        "20260816T200500Z"
    );
}

#[test]
fn formats_all_day_dates() {
    assert_eq!(to_ics_date("2026-08-16").unwrap(), "20260816");
    assert_eq!(next_date("2026-08-16").unwrap(), "2026-08-17");
}

#[test]
fn emits_a_subscribeable_publish_calendar() {
    let ics = render_calendar(
        "My Calendar",
        &[IcsEvent {
            uid: "game-1@almanac".into(),
            summary: "Rockies @ Giants".into(),
            description: "NBCS BA".into(),
            location: "Oracle Park".into(),
            dtstart: "2026-08-16T20:05:00.000Z".into(),
            dtend: "2026-08-16T23:05:00.000Z".into(),
            all_day: false,
            transparent: true,
            sequence: 0,
            updated_at: "2026-08-13T17:00:00.000Z".into(),
            rrule: String::new(),
            tzid: String::new(),
            exdates: Vec::new(),
            overrides: Vec::new(),
        }],
    );
    assert!(ics.starts_with("BEGIN:VCALENDAR"));
    assert!(ics.contains("X-WR-CALNAME:My Calendar"));
    assert!(ics.contains("UID:game-1@almanac"));
    assert!(ics.contains("DTSTART:20260816T200500Z"));
    assert!(ics.contains("TRANSP:TRANSPARENT"));
    assert!(ics.ends_with("END:VCALENDAR\r\n"));
}

#[test]
fn uses_value_date_for_all_day_events() {
    let ics = render_calendar(
        "My Calendar",
        &[IcsEvent {
            uid: "off-1".into(),
            summary: "Out".into(),
            description: String::new(),
            location: String::new(),
            dtstart: "2026-08-20".into(),
            dtend: "2026-08-21".into(),
            all_day: true,
            transparent: true,
            sequence: 1,
            updated_at: "2026-08-13T17:00:00.000Z".into(),
            rrule: String::new(),
            tzid: String::new(),
            exdates: Vec::new(),
            overrides: Vec::new(),
        }],
    );
    assert!(ics.contains("DTSTART;VALUE=DATE:20260820"));
    assert!(ics.contains("DTEND;VALUE=DATE:20260821"));
    assert!(!ics.contains("RRULE:"));
}

#[test]
fn emits_rrule_timezone_exdate_and_override() {
    let ics = render_calendar(
        "My Calendar",
        &[IcsEvent {
            uid: "standup".into(),
            summary: "Standup".into(),
            description: String::new(),
            location: String::new(),
            dtstart: "2026-09-22T09:00:00".into(),
            dtend: "2026-09-22T09:15:00".into(),
            all_day: false,
            transparent: true,
            sequence: 2,
            updated_at: "2026-09-01T17:00:00.000Z".into(),
            rrule: "FREQ=WEEKLY;BYDAY=TU".into(),
            tzid: "America/Los_Angeles".into(),
            exdates: vec!["2026-10-06T09:00:00".into()],
            overrides: vec![IcsOverride {
                recurrence_id: "2026-10-13T09:00:00".into(),
                summary: "Standup late".into(),
                description: String::new(),
                location: String::new(),
                dtstart: "2026-10-13T10:00:00".into(),
                dtend: "2026-10-13T10:15:00".into(),
                all_day: false,
                transparent: true,
                sequence: 1,
                updated_at: "2026-09-02T17:00:00.000Z".into(),
            }],
        }],
    );
    assert!(ics.contains("BEGIN:VTIMEZONE"));
    assert!(ics.contains("TZID:America/Los_Angeles"));
    assert!(ics.contains("DTSTART;TZID=America/Los_Angeles:20260922T090000"));
    assert!(ics.contains("DTEND;TZID=America/Los_Angeles:20260922T091500"));
    assert!(ics.contains("RRULE:FREQ=WEEKLY;BYDAY=TU"));
    assert!(ics.contains("EXDATE;TZID=America/Los_Angeles:20261006T090000"));
    assert!(ics.contains("RECURRENCE-ID;TZID=America/Los_Angeles:20261013T090000"));
    assert!(ics.contains("SUMMARY:Standup late"));
    assert_eq!(ics.matches("BEGIN:VTIMEZONE").count(), 1);
    assert!(!ics.contains("DTSTART:20260922T090000Z"));
}

#[test]
fn emits_all_day_rrule_without_a_timezone() {
    let ics = render_calendar(
        "My Calendar",
        &[IcsEvent {
            uid: "off".into(),
            summary: "Off".into(),
            description: String::new(),
            location: String::new(),
            dtstart: "2026-09-22".into(),
            dtend: "2026-09-23".into(),
            all_day: true,
            transparent: true,
            sequence: 0,
            updated_at: "2026-09-01T17:00:00.000Z".into(),
            rrule: "FREQ=WEEKLY".into(),
            tzid: String::new(),
            exdates: vec!["2026-10-06".into()],
            overrides: Vec::new(),
        }],
    );
    assert!(ics.contains("DTSTART;VALUE=DATE:20260922"));
    assert!(ics.contains("RRULE:FREQ=WEEKLY"));
    assert!(ics.contains("EXDATE;VALUE=DATE:20261006"));
    assert!(!ics.contains("TZID="));
    assert!(!ics.contains("VTIMEZONE"));
}

#[test]
fn a_folded_line_unfolds_to_itself_and_every_line_fits() {
    for line in [
        format!("DESCRIPTION:{}", "é".repeat(100)),
        format!("SUMMARY:{}", "x\r".repeat(60)),
        "SUMMARY:short".to_string(),
    ] {
        let folded = fold_line(&line);
        assert_eq!(folded.replace("\r\n ", ""), line);
        assert!(folded.split("\r\n").all(|seg| seg.len() <= 75));
        if line.len() <= 75 {
            assert_eq!(folded, line);
        }
    }
}

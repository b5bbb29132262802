use almanac::db::CalendarRow;
use almanac::export::{export_json, export_markdown};
use almanac::json::Value;
use almanac::notes::NoteRow;
use almanac::todos::TodoRow;

fn cal() -> CalendarRow {
    CalendarRow {
        id: "cal_1".into(),
        feed_token: "SECRET-FEED".into(),
        key_hash: "SECRET-HASH".into(),
        name: "Trip\nPlan".into(),
        created_at: "2026-09-01T00:00:00.000Z".into(),
        feed: "plain".into(),
    }
}

fn todo(title: &str, done: bool) -> TodoRow {
    TodoRow {
        uid: "t".into(),
        title: title.into(),
        description: "line one\nline two".into(),
        due: "2026-10-01".into(),
        priority: 1,
        done,
        completed_at: String::new(),
        tags: vec!["home".into(), "q4".into()],
        sequence: 0,
        created_at: "c".into(),
        updated_at: "u".into(),
        seal: String::new(),
    }
}

fn note() -> NoteRow {
    NoteRow {
        uid: "n".into(),
        title: "Ideas\nfor later".into(),
        body: "# Heading\n- one\n\n".into(),
        tags: vec!["work".into()],
        pinned: true,
        sequence: 0,
        created_at: "c".into(),
        updated_at: "2026-09-02T00:00:00.000Z".into(),
        seal: String::new(),
    }
}

#[test]
fn json_carries_everything_but_no_secrets() {
    let v = export_json(&cal(), "now", &[], &[todo("Milk", false)], &[note()]);
    let text = almanac::json::stringify(&v);
    assert!(!text.contains("SECRET"), "{text}");
    assert!(!text.contains("subscribe"), "{text}");
    assert_eq!(v.get("todos").and_then(Value::as_array).unwrap().len(), 1);
    let notes = v.get("notes").and_then(Value::as_array).unwrap();
    assert_eq!(notes[0].get("body").and_then(Value::as_str), Some("# Heading\n- one\n\n"));
}

#[test]
fn markdown_reads_like_a_document() {
    let md = export_markdown(
        &cal(),
        "2026-09-03T00:00:00.000Z",
        &[],
        &[todo("Milk", false), todo("Done", true)],
        &[note()],
    );
    assert_eq!(
        md,
        "# Trip Plan\n\nExported 2026-09-03T00:00:00.000Z\n\
         \n## Events\n\nNone.\n\
         \n## Todos\n\n\
         - [ ] Milk — due 2026-10-01 · priority 1 · #home · #q4\n  line one\n  line two\n\
         - [x] Done — due 2026-10-01 · priority 1 · #home · #q4\n  line one\n  line two\n\
         \n## Notes\n\
         \n### Ideas for later\n\n\
         *tags: work · pinned · updated 2026-09-02T00:00:00.000Z*\n\
         \n# Heading\n- one\n"
    );
    assert!(!md.contains("SECRET"));
}

#[test]
fn an_empty_calendar_still_exports() {
    let md = export_markdown(&cal(), "now", &[], &[], &[]);
    assert_eq!(md.matches("None.").count(), 3);
}

#[test]
fn one_line_joins_the_pieces_of_a_broken_line() {
    assert_eq!(almanac::export::one_line("  a \r\n\n b  \rc"), "a b c");
    assert_eq!(almanac::export::one_line("\n\n"), "");
}

#[test]
fn sealed_rows_show_only_their_uid() {
    let mut t = todo("Secret", false);
    t.seal = "wire".into();
    let md = export_markdown(&cal(), "now", &[], &[t], &[]);
    assert!(md.contains("- sealed · `t`\n"));
    assert!(!md.contains("Secret"));
}

use almanac::notes::NoteRow;
use almanac::db::CalendarRow;
use almanac::server::{feed_response, feed_source, feed_token_of, route_of, FeedBody, FeedSource, Route};
use almanac::todos::TodoRow;

fn todo() -> TodoRow {
    TodoRow {
        uid: "t1".into(),
        title: "Buy milk".into(),
        description: String::new(),
        due: "2026-10-01".into(),
        priority: 1,
        done: false,
        completed_at: String::new(),
        tags: vec!["home".into()],
        sequence: 0,
        created_at: "2026-09-01T00:00:00.000Z".into(),
        updated_at: "2026-09-02T00:00:00.000Z".into(),
        seal: String::new(),
    }
}

fn note(uid: &str, updated: &str) -> NoteRow {
    NoteRow {
        uid: uid.into(),
        title: format!("Note {uid}"),
        body: "a < b".into(),
        tags: Vec::new(),
        pinned: false,
        sequence: 0,
        created_at: "2026-01-01T00:00:00.000Z".into(),
        updated_at: updated.into(),
        seal: String::new(),
    }
}

fn header<'a>(res: &'a almanac::http::Response, key: &str) -> &'a str {
    res.header_value(key).unwrap_or("")
}

#[test]
fn a_todo_feed_is_an_inline_calendar_of_vtodos() {
    let res = feed_response(FeedBody::Todos("Trip".into(), vec![todo()]));
    assert_eq!(res.status, 200);
    assert_eq!(header(&res, "content-type"), "text/calendar; charset=utf-8");
    assert_eq!(header(&res, "cache-control"), "no-cache");
    assert_eq!(header(&res, "content-disposition"), "inline; filename=\"todos.ics\"");
    let text = String::from_utf8(res.body).unwrap();
    assert!(text.starts_with("BEGIN:VCALENDAR\r\n"));
    assert!(text.contains("BEGIN:VTODO\r\n"));
    assert!(text.contains("UID:t1\r\n"));
    assert!(text.contains("SUMMARY:Buy milk\r\n"));
    assert!(text.contains("X-WR-CALNAME:Trip Todos\r\n"));
}

#[test]
fn a_note_feed_is_updated_when_its_newest_note_was() {
    let res = feed_response(FeedBody::Notes(
        "cal_1".into(),
        "Trip".into(),
        vec![note("a", "2026-02-01T00:00:00.000Z"), note("b", "2026-03-01T00:00:00.000Z")],
    ));
    assert_eq!(header(&res, "content-type"), "application/atom+xml; charset=utf-8");
    assert_eq!(header(&res, "content-disposition"), "inline; filename=\"notes.atom\"");
    let text = String::from_utf8(res.body).unwrap();
    assert!(text.contains("<id>urn:almanac:cal_1:notes</id>"));
    assert!(text.contains("<title>Trip Notes</title>"));
    assert!(text.contains("<updated>2026-03-01T00:00:00.000Z</updated>"));
    assert!(text.contains("<id>urn:almanac:cal_1:a</id>"));
    assert!(text.contains("a &lt; b"));
}

#[test]
fn an_empty_event_feed_is_still_a_calendar() {
    let res = feed_response(FeedBody::Events("Trip".into(), Vec::new()));
    assert_eq!(header(&res, "content-disposition"), "inline; filename=\"calendar.ics\"");
    let text = String::from_utf8(res.body).unwrap();
    assert!(text.starts_with("BEGIN:VCALENDAR\r\n"));
    assert!(text.ends_with("END:VCALENDAR\r\n"));
    assert!(!text.contains("BEGIN:VEVENT"));
}

#[test]
fn a_title_cannot_inject_ics_properties_into_the_feed() {
    let mut t = todo();
    t.uid = "t".into();
    t.title = "a\r\nSTATUS:COMPLETED\r\nEND:VTODO".into();
    t.description = "x\nBEGIN:VTODO".into();
    let res = feed_response(FeedBody::Todos("Trip".into(), vec![t]));
    let ics = String::from_utf8(res.body).unwrap();
    let lines: Vec<&str> = ics.split("\r\n").collect();
    assert_eq!(lines.iter().filter(|l| **l == "BEGIN:VTODO").count(), 1, "{ics}");
    assert_eq!(lines.iter().filter(|l| l.starts_with("STATUS:")).count(), 1, "{ics}");
    assert_eq!(lines.iter().filter(|l| **l == "END:VTODO").count(), 1, "{ics}");
}

#[test]
fn an_empty_notes_feed_is_still_a_valid_feed() {
    let res = feed_response(FeedBody::Notes("cal_1".into(), "Trip".into(), Vec::new()));
    assert_eq!(res.status, 200);
    let xml = String::from_utf8(res.body).unwrap();
    assert!(xml.contains("<updated>20"), "a feed needs an updated time: {xml}");
    assert!(xml.contains("<title>Trip Notes</title>"));
    assert!(!xml.contains("<entry>"));
}

#[test]
fn the_notes_feed_is_atom_and_holds_only_notes() {
    let mut n = note("n1", "2026-02-01T00:00:00.000Z");
    n.title = "R&D <plan>".into();
    n.body = "a & b\n</content><evil/>".into();
    n.tags = vec!["work".into()];
    let res = feed_response(FeedBody::Notes("cal_1".into(), "Trip".into(), vec![n]));
    assert_eq!(res.status, 200);
    assert!(header(&res, "content-type").starts_with("application/atom+xml"));
    let xml = String::from_utf8(res.body).unwrap();
    assert!(xml.starts_with("<?xml version=\"1.0\" encoding=\"utf-8\"?>\n<feed xmlns="));
    assert_eq!(xml.matches("<entry>").count(), 1);
    assert!(xml.contains("<id>urn:almanac:cal_1:n1</id>"));
    assert!(xml.contains("<title>R&amp;D &lt;plan&gt;</title>"), "{xml}");
    assert!(xml.contains("<category term=\"work\"/>"));
    assert!(!xml.contains("<evil"), "{xml}");
    assert!(xml.trim_end().ends_with("</feed>"));

    // Its token is found under both spellings; anything else is no token.
    let path = "/feed/n0tesT0ken.atom";
    match route_of("GET", path) {
        Route::Feed(raw, head) => {
            assert!(!head);
            assert_eq!(feed_token_of(&raw), "n0tesT0ken");
        }
        other => panic!("{other:?}"),
    }
    match route_of("GET", &path.replace(".atom", ".ics")) {
        Route::Feed(raw, _) => assert_eq!(feed_token_of(&raw), "n0tesT0ken"),
        other => panic!("{other:?}"),
    }
    match route_of("GET", &format!("{path}x")) {
        Route::Feed(raw, _) => assert_ne!(feed_token_of(&raw), "n0tesT0ken"),
        Route::NotFound => {}
        other => panic!("{other:?}"),
    }
    assert!(matches!(route_of("POST", path), Route::NotFound));
}

#[test]
fn a_token_opens_one_feed() {
    let cal = CalendarRow {
        id: "cal_1".into(),
        feed_token: "evTok".into(),
        key_hash: "h".into(),
        name: "Trip".into(),
        created_at: "c".into(),
        feed: "plain".into(),
    };
    assert!(matches!(feed_source("evTok", Some(&cal), None), FeedSource::Events));
    let notes = Some(("cal_1".to_string(), "notes".to_string()));
    match feed_source("nTok", Some(&cal), notes.clone()) {
        FeedSource::Notes(id) => assert_eq!(id, "cal_1"),
        other => panic!("{other:?}"),
    }
    match feed_source("tTok", None, Some(("cal_2".to_string(), "todos".to_string()))) {
        FeedSource::Todos(id) => assert_eq!(id, "cal_2"),
        other => panic!("{other:?}"),
    }
    assert!(matches!(feed_source("x", None, Some(("cal_2".into(), "events".into()))), FeedSource::NotFound));
    assert!(matches!(feed_source("", None, None), FeedSource::NotFound));
}

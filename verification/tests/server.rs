use almanac::db::{CalendarRow, EventOverride, EventRow};
use almanac::http::Request;
use almanac::json::{parse, Value};
use almanac::server::{
    bearer, calendar_view, exceptions_full, feed_token_of, head_of, json_err, parse_calendar_name,
    query_param, redact_feed, request_base, route_of, safe_equal, seal_uid, search_text, todo_status,
    urlencoding_decode, wants_html, Route, Target,
};

fn cal() -> CalendarRow {
    CalendarRow {
        id: "cal_1".into(),
        feed_token: "tok".into(),
        key_hash: "h".into(),
        name: "Trip".into(),
        created_at: "c".into(),
        feed: "plain".into(),
    }
}

#[test]
fn routes_by_method_and_path() {
    assert!(matches!(route_of("GET", "/"), Route::Home));
    assert!(matches!(route_of("GET", "/health?x=1"), Route::Health));
    assert!(matches!(route_of("POST", "/calendars"), Route::CreateCalendar));
    assert!(matches!(route_of("PUT", "/calendars"), Route::NotFound));
    match route_of("HEAD", "/feed/abc.ics") {
        Route::Feed(t, head) => assert_eq!((t.as_str(), head), ("abc.ics", true)),
        _ => panic!("feed"),
    }
    assert!(matches!(route_of("POST", "/feed/abc.ics"), Route::NotFound));
    match route_of("PUT", "/v1/c/cal_1/events/u1/exdates") {
        Route::Events(c, Target::Exdates(u)) => assert_eq!((c.as_str(), u.as_str()), ("cal_1", "u1")),
        _ => panic!("exdates"),
    }
    assert!(matches!(route_of("GET", "/v1/c/cal_1/events/u1/exdates"), Route::NotFound));
    match route_of("PATCH", "/v1/todos/t1") {
        Route::Todos(c, Some(u)) => assert_eq!((c.as_str(), u.as_str()), ("home", "t1")),
        _ => panic!("todos"),
    }
    assert!(matches!(route_of("GET", "/v1/notes/a/b"), Route::NotFound));
    assert!(matches!(route_of("GET", "/v1/notes/"), Route::NotFound));
    assert!(matches!(route_of("DELETE", "/v1/c/cal_1"), Route::DeleteCalendar(_)));
    assert!(matches!(route_of("POST", "/v1/c/cal_1"), Route::NotFound));
    assert!(matches!(route_of("GET", "/v1/c/cal_1/export?format=md"), Route::Export(_)));
    assert!(matches!(route_of("POST", "/v1/export"), Route::NotFound));
}

#[test]
fn query_values_are_decoded() {
    let req = Request::new("GET", "/v1/notes?q=a%20b+c&tag=Work&empty");
    assert_eq!(query_param(&req, "q").as_deref(), Some("a b c"));
    assert_eq!(query_param(&req, "tag").as_deref(), Some("Work"));
    assert_eq!(query_param(&req, "empty").as_deref(), Some(""));
    assert_eq!(query_param(&req, "none"), None);
    assert_eq!(query_param(&Request::new("GET", "/x"), "q"), None);
    assert_eq!(urlencoding_decode("%41%zz%4"), "A%zz%4");
}

#[test]
fn auth_compares_whole_values() {
    assert!(safe_equal("abc", "abc"));
    assert!(!safe_equal("abd", "abc"));
    assert!(!safe_equal("ab", "abc"));
    assert!(!safe_equal("", ""));
    assert_eq!(bearer("Bearer k1"), "k1");
    assert_eq!(bearer("bearer k1"), "");
}

#[test]
fn feed_tokens_and_logs() {
    assert_eq!(feed_token_of("abc.ICS"), "abc");
    assert_eq!(feed_token_of("abc.atom"), "abc");
    assert_eq!(feed_token_of(".ics"), ".ics");
    assert_eq!(redact_feed("/FEED/secret.ics?x"), "/FEED/<token>");
    assert_eq!(redact_feed("/feed/a/b"), "/feed/<token>/b");
    assert_eq!(redact_feed("/v1/events"), "/v1/events");
}

#[test]
fn base_and_format_of_a_request() {
    let req = Request::new("GET", "/").with_header("Host", "cal.example").with_header("Accept", "text/html");
    assert_eq!(request_base(&req, ""), "http://cal.example");
    assert_eq!(request_base(&req, "https://x.example//"), "https://x.example");
    assert!(wants_html(&req));
    let both = Request::new("GET", "/").with_header("accept", "text/html, application/json");
    assert!(!wants_html(&both));
}

#[test]
fn a_calendar_name_comes_from_json_or_a_form() {
    assert_eq!(parse_calendar_name("application/json", br#"{"name":"Trip"}"#).unwrap(), Some("Trip".into()));
    assert_eq!(parse_calendar_name("application/json", b"  ").unwrap(), None);
    assert_eq!(parse_calendar_name("application/json", b"[1]").unwrap_err(), "body must be an object");
    assert_eq!(parse_calendar_name("application/json", br#"{"name":1}"#).unwrap_err(), "name must be a string");
    assert_eq!(parse_calendar_name("application/json", b"{").unwrap_err(), "body must be valid JSON");
    assert_eq!(
        parse_calendar_name("application/x-www-form-urlencoded", b"x=1&name=My+Cal%21").unwrap(),
        Some("My Cal!".into())
    );
    assert_eq!(parse_calendar_name("text/plain", b"name=x").unwrap(), None);
}

#[test]
fn a_calendar_view_links_its_feeds() {
    let v = calendar_view(&cal(), Some("KEY"), "https://a.example/", "tt", "nn");
    let todos = v.get("todos").unwrap();
    assert_eq!(todos.get("subscribe").and_then(Value::as_str), Some("https://a.example/feed/tt.ics"));
    assert_eq!(v.get("notes").and_then(|n| n.get("write")).and_then(Value::as_str), Some("https://a.example/v1/c/cal_1/notes"));
    assert_eq!(v.get("key").and_then(Value::as_str), Some("KEY"));
    assert_eq!(v.get("subscribe").and_then(Value::as_str), Some("https://a.example/feed/tok.ics"));
    assert!(calendar_view(&cal(), None, "x", "t", "n").get("key").is_none());
}

#[test]
fn the_exception_cap_allows_a_replacement() {
    let ev = EventRow {
        uid: "s".into(),
        summary: String::new(),
        description: String::new(),
        location: String::new(),
        dtstart: "2026-09-22T09:00:00".into(),
        dtend: "2026-09-22T10:00:00".into(),
        all_day: false,
        transparent: true,
        sequence: 0,
        created_at: String::new(),
        updated_at: String::new(),
        rrule: "FREQ=DAILY".into(),
        tzid: "UTC".into(),
        seal: String::new(),
        exdates: vec!["2026-09-23T09:00:00".into()],
        overrides: vec![EventOverride {
            recurrence_id: "2026-09-24T09:00:00".into(),
            summary: String::new(),
            description: String::new(),
            location: String::new(),
            dtstart: String::new(),
            dtend: String::new(),
            all_day: false,
            transparent: true,
            sequence: 0,
            updated_at: String::new(),
        }],
    };
    assert!(exceptions_full(&ev, "2026-09-25T09:00:00", 2));
    assert!(!exceptions_full(&ev, "2026-09-24T09:00:00", 2));
    assert!(!exceptions_full(&ev, "2026-09-23T09:00:00", 2));
    assert!(!exceptions_full(&ev, "2026-09-25T09:00:00", 3));
    assert!(!exceptions_full(&ev, "bad", 2));
}

#[test]
fn errors_and_heads() {
    let res = json_err(404, "not found");
    assert_eq!(res.status, 404);
    assert_eq!(res.body, br#"{"error":"not found"}"#);
    let head = head_of(res);
    assert!(head.body.is_empty());
    assert_eq!(head.header_value("content-length"), Some("21"));
}

#[test]
fn list_parameters() {
    assert_eq!(todo_status(Some("open")).unwrap(), Some(false));
    assert_eq!(todo_status(None).unwrap(), None);
    assert!(todo_status(Some("x")).is_err());
    assert_eq!(search_text(Some("  ")).unwrap(), None);
    assert_eq!(search_text(Some(&"q".repeat(201))).unwrap_err(), "q is too long");
    let body = parse(r#"{"seal":"w","uid":"b"}"#).unwrap();
    assert_eq!(seal_uid(None, &body).as_deref(), Some("b"));
    assert_eq!(seal_uid(Some("p"), &body).as_deref(), Some("p"));
    assert_eq!(seal_uid(Some(""), &body), None);
    let _ = almanac::json::stringify(&body);
}

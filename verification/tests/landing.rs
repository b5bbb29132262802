use almanac::db::CalendarRow;
use almanac::json::Value;
use almanac::landing::{html_created, html_home, json_index, llms_txt};

#[test]
fn the_index_points_at_create_and_docs() {
    let v = json_index("https://a.example/");
    assert_eq!(v.get("create").and_then(Value::as_str), Some("POST https://a.example/calendars"));
    assert_eq!(v.get("docs").and_then(Value::as_str), Some("https://a.example/llms.txt"));
    assert!(almanac::json::stringify(&v).contains("Almanac"));
}

#[test]
fn llms_txt_uses_the_origin() {
    let t = llms_txt("https://a.example/");
    assert!(t.starts_with("# Almanac\n"));
    assert!(t.contains("POST https://a.example/calendars\n"));
    assert!(t.contains("PUT https://a.example/v1/c/{id}/events/{uid}\n"));
    assert!(!t.ends_with('\n') || t.ends_with("\n"));
}

#[test]
fn pages_escape_what_they_show() {
    let home = html_home("https://a.example");
    assert!(home.starts_with("<!doctype html>"));
    assert!(home.contains("<meta property=\"og:url\" content=\"https://a.example\">"));
    assert!(home.contains("1. GET https://a.example/llms.txt and follow it."));
    let row = CalendarRow {
        id: "cal<1>".into(),
        feed_token: "tok".into(),
        key_hash: "h".into(),
        name: "n".into(),
        created_at: "c".into(),
        feed: "plain".into(),
    };
    let page = html_created(&row, "k&y", "t", "n", "");
    assert!(page.contains("<code>cal&lt;1&gt;</code>"));
    assert!(page.contains("Bearer k&amp;y"));
    assert!(page.contains("content=\"/og.png\""));
    assert!(!page.contains("og:url"));
}

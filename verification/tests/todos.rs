use almanac::json::parse;
use almanac::todos::{
    completion, json_todo, pack_tags, parse_todo_fields, plan_todo_patch, plan_todo_upsert, unpack_tags,
    TodoFields, TodoRow,
};

fn fields(json: &str, partial: bool) -> Result<TodoFields, String> {
    parse_todo_fields(&parse(json).unwrap(), partial)
}

#[test]
fn todos_a_full_body_needs_a_title() {
    assert!(fields(r#"{"title":"Buy milk"}"#, false).is_ok());
    assert_eq!(fields(r#"{}"#, false).unwrap_err(), "title is required");
    assert_eq!(fields(r#"{"title":"  "}"#, false).unwrap_err(), "title is required");
    assert!(fields(&format!(r#"{{"title":"{}"}}"#, "x".repeat(513)), false).is_err());
}

#[test]
fn a_patch_needs_something_to_change() {
    assert_eq!(fields(r#"{}"#, true).unwrap_err(), "no fields to update");
    assert_eq!(fields(r#"{"title":""}"#, true).unwrap_err(), "title cannot be empty");
    assert!(fields(r#"{"done":true}"#, true).is_ok());
}

#[test]
fn todos_wrong_types_are_rejected_not_ignored() {
    for bad in [
        r#"{"title":"x","description":5}"#,
        r#"{"title":"x","due":5}"#,
        r#"{"title":"x","priority":"high"}"#,
        r#"{"title":"x","priority":10}"#,
        r#"{"title":"x","priority":-1}"#,
        r#"{"title":"x","done":"yes"}"#,
        r#"{"title":"x","done":null}"#,
        r#"{"title":"x","tags":"a"}"#,
        r#"{"title":"x","tags":[1]}"#,
        r#"{"title":5}"#,
        r#"{"title":"x","uid":"has space"}"#,
    ] {
        assert!(fields(bad, false).is_err(), "{bad}");
    }
}

#[test]
fn due_is_a_day_an_instant_or_cleared() {
    let due = |v: &str| fields(&format!(r#"{{"title":"x","due":{v}}}"#), false).map(|f| f.due);
    assert_eq!(due(r#""2026-10-01""#).unwrap(), Some("2026-10-01".into()));
    assert_eq!(due(r#""2026-10-01T09:00:00-07:00""#).unwrap(), Some("2026-10-01T16:00:00.000Z".into()));
    assert_eq!(due(r#""""#).unwrap(), Some(String::new()));
    assert_eq!(due("null").unwrap(), Some(String::new()));
    assert!(due(r#""tomorrow""#).is_err());
    assert!(due(r#""2026-13-01""#).is_err());
    assert!(due(r#""2026-10-0é""#).is_err());
}

#[test]
fn tags_are_normalized_and_bounded() {
    let tags = |v: &str| fields(&format!(r#"{{"title":"x","tags":{v}}}"#), false).map(|f| f.tags);
    assert_eq!(
        tags(r#"[" Home ","work","HOME","a_b-1"]"#).unwrap(),
        Some(vec!["home".into(), "work".into(), "a_b-1".into()])
    );
    assert_eq!(tags("[]").unwrap(), Some(vec![]));
    assert!(tags(r#"["has space"]"#).is_err());
    assert!(tags(r#"["a,b"]"#).is_err());
    assert!(tags(r#"[""]"#).is_err());
    assert!(tags(&format!(r#"["{}"]"#, "x".repeat(33))).is_err());
    let eleven: Vec<String> = (0..11).map(|i| format!("\"t{i}\"")).collect();
    assert!(tags(&format!("[{}]", eleven.join(","))).is_err());
}

#[test]
fn tags_survive_the_round_trip_through_storage() {
    assert_eq!(unpack_tags(&pack_tags(&["a".into(), "b-c".into()])), vec!["a", "b-c"]);
    assert_eq!(pack_tags(&[]), "");
    assert!(unpack_tags("").is_empty());
}

fn row() -> TodoRow {
    TodoRow {
        uid: "t".into(),
        title: "Old".into(),
        description: "desc".into(),
        due: "2026-10-01".into(),
        priority: 3,
        done: true,
        completed_at: "2026-09-30T18:00:00.000Z".into(),
        tags: vec!["a".into()],
        sequence: 2,
        created_at: "c".into(),
        updated_at: "u".into(),
        seal: String::new(),
    }
}

#[test]
fn completion_is_stamped_kept_and_cleared() {
    assert_eq!(completion(true, None, "NOW"), "NOW");
    assert_eq!(completion(true, Some(&row()), "NOW"), "2026-09-30T18:00:00.000Z");
    assert_eq!(completion(false, Some(&row()), "NOW"), "");
}

#[test]
fn a_write_keeps_what_it_leaves_out() {
    let f = fields(r#"{"title":"New","priority":null}"#, false).unwrap();
    let w = plan_todo_upsert(&f, &Some(row()), "NOW").unwrap();
    assert_eq!((w.title.as_str(), w.description.as_str(), w.priority), ("New", "desc", 0));
    assert_eq!(w.tags, ",a,");
    assert!(w.done);
    let w = plan_todo_upsert(&f, &None, "NOW").unwrap();
    assert_eq!((w.description.as_str(), w.due.as_str(), w.tags.as_str()), ("", "", ""));
    let p = fields(r#"{"done":false}"#, true).unwrap();
    let w = plan_todo_patch(&row(), &p, "NOW");
    assert_eq!((w.title.as_str(), w.done, w.completed_at.as_str()), ("Old", false, ""));
}

#[test]
fn an_open_todo_shows_nulls_for_empty_dates() {
    let mut r = row();
    r.done = false;
    r.completed_at = String::new();
    r.due = String::new();
    let text = almanac::json::stringify(&json_todo(&r));
    assert!(text.contains(r#""completedAt":null"#), "{text}");
    assert!(text.contains(r#""due":null"#), "{text}");
    assert!(text.contains(r#""tags":["a"]"#), "{text}");
}

use almanac::json::parse;
use almanac::notes::{json_note, like_pattern, parse_note_fields, plan_note_patch, NoteFields, NoteRow, MAX_BODY};

fn fields(json: &str, partial: bool) -> Result<NoteFields, String> {
    parse_note_fields(&parse(json).unwrap(), partial)
}

#[test]
fn notes_a_full_body_needs_a_title() {
    assert!(fields(r#"{"title":"Ideas"}"#, false).is_ok());
    assert_eq!(fields("{}", false).unwrap_err(), "title is required");
    assert!(fields(&format!(r#"{{"title":"{}"}}"#, "x".repeat(201)), false).is_err());
    assert!(fields(&format!(r#"{{"title":"{}"}}"#, "x".repeat(200)), false).is_ok());
}

#[test]
fn the_body_has_a_size_cap() {
    let body = |n: usize| format!(r#"{{"title":"t","body":"{}"}}"#, "x".repeat(n));
    assert!(fields(&body(MAX_BODY), false).is_ok());
    assert_eq!(fields(&body(MAX_BODY + 1), false).unwrap_err(), "body is too long");
}

#[test]
fn notes_wrong_types_are_rejected_not_ignored() {
    for bad in [
        r#"{"title":"x","body":5}"#,
        r#"{"title":"x","pinned":"yes"}"#,
        r#"{"title":"x","pinned":null}"#,
        r#"{"title":"x","tags":"a"}"#,
        r#"{"title":"x","tags":["A B"]}"#,
        r#"{"title":5}"#,
        r#"{"title":"x","uid":"bad uid"}"#,
    ] {
        assert!(fields(bad, false).is_err(), "{bad}");
    }
    assert_eq!(fields("{}", true).unwrap_err(), "no fields to update");
}

#[test]
fn like_wildcards_are_made_literal() {
    assert_eq!(like_pattern("100%"), "%100\\%%");
    assert_eq!(like_pattern("a_b"), "%a\\_b%");
    assert_eq!(like_pattern("c:\\d"), "%c:\\\\d%");
    assert_eq!(like_pattern("it's"), "%it's%");
}

fn row() -> NoteRow {
    NoteRow {
        uid: "n".into(),
        title: "Ideas".into(),
        body: "héllo".into(),
        tags: vec!["work".into()],
        pinned: false,
        sequence: 0,
        created_at: "c".into(),
        updated_at: "u".into(),
        seal: String::new(),
    }
}

#[test]
fn a_list_entry_gives_the_size_not_the_body() {
    let text = almanac::json::stringify(&json_note(&row(), false));
    assert_eq!(text, r#"{"createdAt":"c","pinned":false,"size":6,"tags":["work"],"title":"Ideas","uid":"n","updatedAt":"u"}"#);
    assert!(almanac::json::stringify(&json_note(&row(), true)).contains(r#""body":"héllo""#));
}

#[test]
fn a_note_patch_changes_only_what_it_names() {
    let p = fields(r#"{"pinned":true,"tags":null}"#, true).unwrap();
    let w = plan_note_patch(&row(), &p);
    assert_eq!((w.title.as_str(), w.body.as_str(), w.tags.as_str(), w.pinned), ("Ideas", "héllo", "", true));
}

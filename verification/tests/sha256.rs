use almanac::db::{CalendarRow, EventRow};
use almanac::http::Request;
use almanac::json::Value;
use almanac::seal::derive_key;
use almanac::server::{calendar_auth, parse_body, render_events};
use almanac::sha256::{sha256, sha256_hex};

#[test]
fn digests_of_the_standard_vectors() {
    assert_eq!(
        sha256_hex(""),
        "e3b0c44298fc1c149afbf4c8996fb92427ae41e4649b934ca495991b7852b855"
    );
    assert_eq!(
        sha256_hex("abc"),
        "ba7816bf8f01cfea414140de5dae2223b00361a396177a9cb410ff61f20015ad"
    );
    // 56 bytes: the length no longer fits in the first block.
    assert_eq!(
        sha256_hex("abcdbcdecdefdefgefghfghighijhijkijkljklmklmnlmnomnopnopq"),
        "248d6a61d20638b8e5c026930c3e6039a33ce45964ff2167f6ecedd419db06c1"
    );
    assert_eq!(
        sha256_hex(
            "abcdefghbcdefghicdefghijdefghijkefghijklfghijklmghijklmnhijklmnoijklmnopjklmnopqklmnopqrlmnopqrsmnopqrstnopqrstu"
        ),
        "cf5b16a778af8380036ce59e7b0492370b249b11e8f07a51afac45037afee9d1"
    );
}

#[test]
fn digest_of_a_million_a() {
    let text = "a".repeat(1_000_000);
    assert_eq!(
        sha256_hex(&text),
        "cdc76e5c9914fb9281a1c7e284d73e67f1809a48a497200e046d39ccc7112cd0"
    );
}

#[test]
fn a_digest_is_32_bytes() {
    for n in [0usize, 1, 55, 56, 63, 64, 65, 119, 120, 200] {
        assert_eq!(sha256(&vec![7u8; n]).len(), 32);
    }
}

#[test]
fn the_seal_key_is_not_the_stored_hash() {
    let mut msg = b"k".to_vec();
    msg.extend_from_slice(b"almanac-seal-v1");
    assert_eq!(derive_key("k"), sha256(&msg));
    assert_ne!(derive_key("k"), sha256(b"k"));
}

fn cal(key_hash: String) -> CalendarRow {
    CalendarRow {
        id: "cal_1".into(),
        feed_token: "tok".into(),
        key_hash,
        name: "Trip".into(),
        created_at: "c".into(),
        feed: "plain".into(),
    }
}

#[test]
fn only_the_write_key_authenticates() {
    let row = cal(sha256_hex("k1"));
    assert!(calendar_auth(Some(row.clone()), "Bearer k1").is_some());
    assert!(calendar_auth(Some(row.clone()), "Bearer k2").is_none());
    assert!(calendar_auth(Some(row.clone()), "k1").is_none());
    assert!(calendar_auth(Some(row), "").is_none());
    assert!(calendar_auth(None, "Bearer k1").is_none());
    // A row without a hash never authenticates, not even an empty key.
    assert!(calendar_auth(Some(cal(String::new())), "Bearer ").is_none());
}

fn post(body: &[u8]) -> Request {
    Request::new("POST", "/v1/events").with_body(body.to_vec())
}

#[test]
fn a_body_must_be_non_empty_json() {
    match parse_body(&post(br#"{"a":1}"#)) {
        Ok(Value::Object(m)) => assert_eq!(m.len(), 1),
        _ => panic!("object"),
    }
    assert!(matches!(parse_body(&post(b"[1]")), Ok(Value::Array(_))));
    for bad in [&b""[..], b"nope", b"{", &[0xff, 0xfe]] {
        assert_eq!(parse_body(&post(bad)).unwrap_err(), "body must be an object");
    }
}

#[test]
fn the_event_feed_carries_each_event() {
    let ev = EventRow {
        uid: "evt-1".into(),
        summary: "Dentist".into(),
        description: String::new(),
        location: String::new(),
        dtstart: "2026-03-01T10:00:00Z".into(),
        dtend: "2026-03-01T11:00:00Z".into(),
        all_day: false,
        transparent: false,
        sequence: 2,
        created_at: "2026-01-01T00:00:00Z".into(),
        updated_at: "2026-01-02T00:00:00Z".into(),
        rrule: String::new(),
        tzid: String::new(),
        seal: String::new(),
        exdates: Vec::new(),
        overrides: Vec::new(),
    };
    let ics = render_events("Trip", &[ev]);
    assert!(ics.starts_with("BEGIN:VCALENDAR\r\n"));
    assert!(ics.contains("UID:evt-1\r\n"));
    assert!(ics.contains("SUMMARY:Dentist\r\n"));
    assert!(ics.contains("DTSTART:20260301T100000Z\r\n"));
    assert!(ics.contains("SEQUENCE:2\r\n"));
    assert!(ics.ends_with("END:VCALENDAR\r\n"));
}

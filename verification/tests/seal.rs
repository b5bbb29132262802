use almanac::json::parse;
use almanac::seal::{
    aad, base64url, base64url_decode, check_sealable, classify, credentials_key, decode_wire, feed_mode, kind_ok,
    pack_wire, seal_args, unpack_wire, validate_wire,
};

fn sample_wire() -> String {
    pack_wire(&[1u8; 12], b"ciphertext", &[2u8; 16]).unwrap()
}

#[test]
fn a_sealed_calendar_rejects_a_field_write() {
    let body = parse(r#"{"summary":"Dentist","start":"2026-08-18"}"#).unwrap();
    assert_eq!(classify(&body, "seal").unwrap_err(), "calendar is sealed");
    let wire = sample_wire();
    let sealed = parse(&format!(r#"{{"seal":"{wire}"}}"#)).unwrap();
    assert_eq!(classify(&sealed, "seal").unwrap().as_deref(), Some(wire.as_str()));
    let mixed = parse(&format!(r#"{{"seal":"{wire}","title":"x"}}"#)).unwrap();
    assert_eq!(classify(&mixed, "plain").unwrap_err(), "seal replaces the item");
    // A plain calendar takes a field write as one.
    assert_eq!(classify(&body, "plain").unwrap(), None);
    // A seal may carry its uid.
    let with_uid = parse(&format!(r#"{{"seal":"{wire}","uid":"u1"}}"#)).unwrap();
    assert_eq!(classify(&with_uid, "plain").unwrap().as_deref(), Some(wire.as_str()));
}

#[test]
fn base64url_has_no_padding_and_reads_back() {
    assert_eq!(base64url(b""), "");
    assert_eq!(base64url(b"f"), "Zg");
    assert_eq!(base64url(b"fo"), "Zm8");
    assert_eq!(base64url(b"foo"), "Zm9v");
    assert_eq!(base64url(&[0xfb, 0xff]), "-_8");
    for bytes in [&b""[..], b"f", b"fo", b"foo", b"foob", &[0u8, 255, 254, 1, 2]] {
        assert_eq!(base64url_decode(&base64url(bytes)).unwrap(), bytes);
    }
    assert!(base64url_decode("a").is_err());
    assert!(base64url_decode("a$").is_err());
}

#[test]
fn a_wire_carries_nonce_ciphertext_and_tag() {
    let wire = sample_wire();
    assert!(wire.starts_with("alm1."));
    assert!(validate_wire(&wire).is_ok());
    let packed = decode_wire(&wire).unwrap();
    assert_eq!(packed.len(), 12 + 10 + 16);
    let (nonce, ciphertext, tag) = unpack_wire("todo", &wire).unwrap();
    assert_eq!(nonce, vec![1u8; 12]);
    assert_eq!(ciphertext, b"ciphertext".to_vec());
    assert_eq!(tag, vec![2u8; 16]);
    assert_eq!(unpack_wire("journal", &wire).unwrap_err(), "kind must be event, todo, or note");
    for bad in ["", "alm1.", "alm2.AAAA", "alm1.!!!!", "alm1.AAAA"] {
        assert_eq!(validate_wire(bad).unwrap_err(), "seal is invalid", "{bad:?}");
    }
    let long = pack_wire(&[0u8; 12], &vec![0u8; 50_000], &[0u8; 16]);
    assert_eq!(long.unwrap_err(), "seal is too long");
}

#[test]
fn what_is_checked_before_encrypting() {
    assert!(kind_ok("event") && kind_ok("todo") && kind_ok("note"));
    assert!(!kind_ok("Event"));
    assert!(check_sealable("note", "n1", b"text").is_ok());
    assert_eq!(check_sealable("memo", "n1", b"x").unwrap_err(), "kind must be event, todo, or note");
    assert_eq!(check_sealable("note", "", b"x").unwrap_err(), "uid is required");
    assert_eq!(check_sealable("note", "n1", &vec![0u8; 48 * 1024 + 1]).unwrap_err(), "item is too long");
    assert!(check_sealable("note", "n1", &vec![0u8; 48 * 1024]).is_ok());
    assert_eq!(aad("cal", "todo", "u"), b"cal\0todo\0u".to_vec());
    assert_eq!(feed_mode("seal").unwrap(), "seal");
    assert_eq!(feed_mode("plain").unwrap(), "plain");
    assert_eq!(feed_mode("Seal").unwrap_err(), "feed must be seal or plain");
}

fn args(list: &[&str]) -> Vec<String> {
    list.iter().map(|s| s.to_string()).collect()
}

#[test]
fn the_command_reads_its_flags_in_pairs() {
    let (cal, kind, uid) = seal_args(&args(&["--kind", "todo", "--uid", "milk"])).unwrap();
    assert_eq!((cal, kind.as_str(), uid.as_str()), (None, "todo", "milk"));
    let (cal, _, _) = seal_args(&args(&["--cal", "c1", "--kind", "note", "--uid", "n"])).unwrap();
    assert_eq!(cal.as_deref(), Some("c1"));
    assert_eq!(seal_args(&args(&["--kind"])).unwrap_err(), "missing value for --kind");
    assert_eq!(
        seal_args(&args(&["--x", "1"])).unwrap_err(),
        "usage: almanac seal|open --cal ID --kind event|todo|note --uid UID"
    );
    assert_eq!(seal_args(&args(&["--uid", "u"])).unwrap_err(), "kind is required");
    assert_eq!(seal_args(&args(&["--kind", "event"])).unwrap_err(), "uid is required");
}

#[test]
fn the_key_comes_from_the_credentials_file() {
    let one = parse(r#"{"id":"c1","key":"k1"}"#).unwrap();
    assert_eq!(credentials_key(&one, None).unwrap(), ("c1".to_string(), "k1".to_string()));
    assert_eq!(credentials_key(&one, Some("c2")).unwrap_err(), "could not read the calendar key");
    let many = parse(r#"[{"id":"c1","key":"k1"},{"id":"c2","key":"k2"}]"#).unwrap();
    assert_eq!(credentials_key(&many, None).unwrap().0, "c1");
    assert_eq!(credentials_key(&many, Some("c2")).unwrap().1, "k2");
    assert!(credentials_key(&parse("[]").unwrap(), None).is_err());
    assert!(credentials_key(&parse(r#"{"id":"c1","key":""}"#).unwrap(), None).is_err());
}

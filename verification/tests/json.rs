use almanac::json::{parse, Value};

#[test]
fn roundtrip_object() {
    let v = parse(r#"{"summary":"Dinner","allDay":false,"n":1}"#).unwrap();
    assert_eq!(v.get("summary").and_then(Value::as_str), Some("Dinner"));
    assert_eq!(v.get("allDay").and_then(Value::as_bool), Some(false));
    let back = parse(&almanac::json::stringify(&v)).unwrap();
    assert_eq!(v, back);
}

#[test]
fn keys_come_out_sorted_and_text_escaped() {
    let v = Value::object(&[("b", Value::Number(2)), ("a", Value::String("x\"\n".into()))]);
    assert_eq!(almanac::json::stringify(&v), r#"{"a":"x\"\n","b":2}"#);
}

#[test]
fn rejects_trailing_garbage_and_bad_input() {
    assert!(parse("{} x").is_err());
    assert!(parse("[1,]").is_err());
    assert!(parse("").is_err());
    assert_eq!(parse(" [true, null, -3] ").unwrap(), Value::Array(vec![Value::Bool(true), Value::Null, Value::Number(-3)]));
}

#[test]
fn deep_json_does_not_kill_the_process() {
    for body in ["[".repeat(200_000), "{\"a\":".repeat(200_000)] {
        assert_eq!(parse(&body).unwrap_err(), "json nested too deeply");
    }
    let ok = format!("{}{}", "[".repeat(6000), "]".repeat(6000));
    assert!(parse(&ok).is_ok());
    let deep = format!("{}{}", "[".repeat(6001), "]".repeat(6001));
    assert_eq!(parse(&deep).unwrap_err(), "json nested too deeply");
}

#[test]
fn what_parse_gives_writes_back_to_the_same_value() {
    let v = parse(r#" {"b":1,"a":[true,null,{"z":"\u00e9\n","y":-7}],"b":2} "#).unwrap();
    let text = almanac::json::stringify(&v);
    assert_eq!(text, r#"{"a":[true,null,{"y":-7,"z":"é\n"}],"b":2}"#);
    assert_eq!(parse(&text).unwrap(), v);
}

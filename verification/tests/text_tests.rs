use typed_pager::errors::CodecError;
use typed_pager::text::{from_text, to_text};
use typed_pager::tree::StoredValue;

#[test]
fn render_scalars() {
    assert_eq!(to_text(&StoredValue::Null), "null");
    assert_eq!(to_text(&StoredValue::Bool(true)), "true");
    assert_eq!(to_text(&StoredValue::Bool(false)), "false");
    assert_eq!(to_text(&StoredValue::Int(0)), "0");
    assert_eq!(to_text(&StoredValue::Int(-42)), "-42");
    assert_eq!(to_text(&StoredValue::Int(i64::MAX)), "9223372036854775807");
    assert_eq!(to_text(&StoredValue::Int(i64::MIN)), "-9223372036854775808");
    assert_eq!(to_text(&StoredValue::Text("hi".to_string())), "\"hi\"");
}

#[test]
fn render_structures() {
    let v = StoredValue::Arr(vec![
        StoredValue::Null,
        StoredValue::Int(7),
        StoredValue::Arr(Vec::new()),
    ]);
    assert_eq!(to_text(&v), "[null,7,[]]");
    let o = StoredValue::Obj(vec![
        ("a".to_string(), StoredValue::Int(1)),
        ("b".to_string(), StoredValue::Obj(Vec::new())),
    ]);
    assert_eq!(to_text(&o), "{\"a\":1,\"b\":{}}");
}

#[test]
fn render_matches_json_reader() {
    let v = StoredValue::Obj(vec![
        ("xs".to_string(), StoredValue::Arr(vec![StoredValue::Int(-3), StoredValue::Bool(false)])),
        ("s".to_string(), StoredValue::Text("line\nbreak \"q\"".to_string())),
    ]);
    let text = to_text(&v);
    let j: serde_json::Value = serde_json::from_str(&text).unwrap();
    assert_eq!(j["xs"][0], serde_json::Value::from(-3i64));
    assert_eq!(j["s"], serde_json::Value::String("line\nbreak \"q\"".to_string()));
}

#[test]
fn parse_scalars() {
    assert!(matches!(from_text("null"), Ok(StoredValue::Null)));
    assert!(matches!(from_text("true"), Ok(StoredValue::Bool(true))));
    assert!(matches!(from_text("-42"), Ok(StoredValue::Int(-42))));
    assert!(matches!(from_text("9223372036854775807"), Ok(StoredValue::Int(i64::MAX))));
    assert!(matches!(from_text("-9223372036854775808"), Ok(StoredValue::Int(i64::MIN))));
    match from_text("\"hi\"") {
        Ok(StoredValue::Text(s)) => assert_eq!(s, "hi"),
        other => panic!("unexpected: {:?}", other),
    }
}

#[test]
fn parse_render_round_trip() {
    let v = StoredValue::Obj(vec![
        ("k \"q\"".to_string(), StoredValue::Text("a\\b\u{2}c".to_string())),
        ("n".to_string(), StoredValue::Int(-900)),
        ("xs".to_string(), StoredValue::Arr(vec![StoredValue::Null])),
    ]);
    let text = to_text(&v);
    let back = from_text(&text).unwrap();
    assert_eq!(to_text(&back), text);
}

#[test]
fn parse_rejects_bad_text() {
    assert_eq!(from_text("").unwrap_err(), CodecError::Malformed);
    assert_eq!(from_text("nul").unwrap_err(), CodecError::Malformed);
    assert_eq!(from_text("[1,2").unwrap_err(), CodecError::Malformed);
    assert_eq!(from_text("{\"a\":}").unwrap_err(), CodecError::Malformed);
    assert_eq!(from_text("\"unterminated").unwrap_err(), CodecError::Malformed);
    assert_eq!(from_text("12ab").unwrap_err(), CodecError::Malformed);
    // A value below the integer column's range is not representable.
    assert_eq!(from_text("9223372036854775808").unwrap_err(), CodecError::Malformed);
    assert_eq!(from_text("-9223372036854775809").unwrap_err(), CodecError::Malformed);
}

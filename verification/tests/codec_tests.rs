use typed_pager::errors::CodecError;
use typed_pager::payload::{
    Meta, ReqWxMessageData4KeywordTemplate, ReqWxMessageDataValue, Structured, TypedMeta, decode,
    decode_text, encode, encode_text,
};

fn sample_template() -> ReqWxMessageData4KeywordTemplate {
    ReqWxMessageData4KeywordTemplate {
        first: ReqWxMessageDataValue { value: "first".to_string() },
        remark: ReqWxMessageDataValue { value: "remark".to_string() },
    }
}

fn sample_data() -> Vec<(String, String)> {
    vec![
        ("foo".to_string(), "1".to_string()),
        ("bar".to_string(), "1".to_string()),
    ]
}

#[test]
fn round_trip_typed_meta() {
    let p = TypedMeta { meta: Some(sample_template()), data: Some(sample_data()) };
    let stored = encode(&p);
    let back: TypedMeta<ReqWxMessageData4KeywordTemplate> = decode(&stored).unwrap();
    assert_eq!(back, p);
}

#[test]
fn round_trip_string_meta() {
    let p: TypedMeta<String> = TypedMeta {
        meta: Some("plain text".to_string()),
        data: Some(vec![("k".to_string(), "v".to_string())]),
    };
    let back: TypedMeta<String> = decode(&encode(&p)).unwrap();
    assert_eq!(back, p);
}

#[test]
fn round_trip_empty_payload() {
    let p: TypedMeta<String> = TypedMeta { meta: None, data: None };
    let back: TypedMeta<String> = decode(&encode(&p)).unwrap();
    assert_eq!(back, p);
    assert!(back.meta.is_none());
    assert!(back.data.is_none());
}

#[test]
fn round_trip_meta_struct() {
    let m = Meta { meta: Some("note".to_string()), data: Some(sample_data()) };
    let tree = m.to_tree();
    let back = Meta::from_tree(&tree).unwrap();
    assert_eq!(back, m);
}

#[test]
fn codec_mismatch_shapes() {
    // Encode a payload whose meta is shaped {first, remark}, then decode the
    // raw stored value expecting a meta shaped {value}: the shapes differ,
    // so decoding must fail loudly, returning no partial value.
    let p = TypedMeta { meta: Some(sample_template()), data: Some(sample_data()) };
    let stored = encode(&p);
    let r: Result<TypedMeta<ReqWxMessageDataValue>, CodecError> = decode(&stored);
    assert_eq!(r.unwrap_err(), CodecError::SchemaMismatch);
}

#[test]
fn compatible_shape_cross_decode() {
    // The same stored bytes decode into a different type exactly when the
    // structural shapes match: a {value} meta reads back as {value}.
    let p = TypedMeta { meta: Some(ReqWxMessageDataValue { value: "x".to_string() }), data: None };
    let stored = encode(&p);
    let back: TypedMeta<ReqWxMessageDataValue> = decode(&stored).unwrap();
    assert_eq!(back, p);
}

#[test]
fn text_round_trip_typed_meta() {
    let p = TypedMeta { meta: Some(sample_template()), data: Some(sample_data()) };
    let text = encode_text(&p);
    let back: TypedMeta<ReqWxMessageData4KeywordTemplate> = decode_text(&text).unwrap();
    assert_eq!(back, p);
}

#[test]
fn text_form_is_json_readable() {
    // The canonical column text must be readable by an ordinary JSON reader.
    let p = TypedMeta { meta: Some(sample_template()), data: Some(sample_data()) };
    let text = encode_text(&p);
    let v: serde_json::Value = serde_json::from_str(&text).unwrap();
    assert_eq!(v["meta"]["first"]["value"], serde_json::Value::String("first".to_string()));
    assert_eq!(v["data"]["foo"], serde_json::Value::String("1".to_string()));
}

#[test]
fn text_escaping_survives_special_characters() {
    let tricky = "a \"quoted\" \\ backslash\nnewline\ttab \u{1} control".to_string();
    let p: TypedMeta<String> = TypedMeta {
        meta: Some(tricky.clone()),
        data: Some(vec![("key \"q\"".to_string(), tricky.clone())]),
    };
    let text = encode_text(&p);
    // An ordinary JSON reader recovers the same characters.
    let v: serde_json::Value = serde_json::from_str(&text).unwrap();
    assert_eq!(v["meta"], serde_json::Value::String(tricky.clone()));
    // And so does the library's own decoder.
    let back: TypedMeta<String> = decode_text(&text).unwrap();
    assert_eq!(back, p);
}

#[test]
fn decode_text_malformed() {
    let r: Result<TypedMeta<String>, CodecError> = decode_text("this is not tree text");
    assert_eq!(r.unwrap_err(), CodecError::Malformed);
    let r2: Result<TypedMeta<String>, CodecError> = decode_text("{\"meta\":null,\"data\":null");
    assert_eq!(r2.unwrap_err(), CodecError::Malformed);
    let r3: Result<TypedMeta<String>, CodecError> = decode_text("");
    assert_eq!(r3.unwrap_err(), CodecError::Malformed);
}

#[test]
fn decode_text_mismatch() {
    // Well-formed tree text whose shape is not a payload: rejected as a
    // schema mismatch, not as malformed text.
    let r: Result<TypedMeta<String>, CodecError> = decode_text("{\"meta\":-5,\"data\":null}");
    assert_eq!(r.unwrap_err(), CodecError::SchemaMismatch);
    let r2: Result<TypedMeta<String>, CodecError> = decode_text("[1,2,3]");
    assert_eq!(r2.unwrap_err(), CodecError::SchemaMismatch);
}

#[test]
fn data_mapping_equality_ignores_key_order() {
    let p1: TypedMeta<String> = TypedMeta {
        meta: None,
        data: Some(vec![("a".to_string(), "1".to_string()), ("b".to_string(), "2".to_string())]),
    };
    let p2: TypedMeta<String> = TypedMeta {
        meta: None,
        data: Some(vec![("b".to_string(), "2".to_string()), ("a".to_string(), "1".to_string())]),
    };
    assert_eq!(p1, p2);
    // A shadowed duplicate binding counts as its last value.
    let p3: TypedMeta<String> = TypedMeta {
        meta: None,
        data: Some(vec![("a".to_string(), "1".to_string()), ("a".to_string(), "3".to_string())]),
    };
    let p4: TypedMeta<String> =
        TypedMeta { meta: None, data: Some(vec![("a".to_string(), "3".to_string())]) };
    assert_eq!(p3, p4);
    // A differing value is still a difference.
    let p5: TypedMeta<String> = TypedMeta {
        meta: None,
        data: Some(vec![("a".to_string(), "9".to_string()), ("b".to_string(), "2".to_string())]),
    };
    assert!(p1 != p5);
    // And so is a missing key.
    let p6: TypedMeta<String> =
        TypedMeta { meta: None, data: Some(vec![("a".to_string(), "1".to_string())]) };
    assert!(p1 != p6);
}

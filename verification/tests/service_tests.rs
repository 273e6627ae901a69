use typed_pager::errors::{HtyErr, HtyErrCode};
use typed_pager::service::{HostHeader, MyResponse, err_response, ok_response, path_of, uuid};

#[test]
fn uuid_has_canonical_form() {
    for _ in 0..8 {
        let id = uuid();
        let chars: Vec<char> = id.chars().collect();
        assert_eq!(chars.len(), 36);
        for (i, c) in chars.iter().enumerate() {
            if i == 8 || i == 13 || i == 18 || i == 23 {
                assert_eq!(*c, '-');
            } else {
                assert!(c.is_ascii_hexdigit() && !c.is_ascii_uppercase());
            }
        }
        assert_eq!(chars[14], '4');
    }
}

#[test]
fn path_of_empty_segment() {
    assert_eq!(path_of(String::new()), "<NONE>");
    assert_eq!(path_of("abc".to_string()), "abc");
}

#[test]
fn response_builders() {
    let ok: MyResponse<i64> = ok_response(7);
    assert!(ok.r);
    assert_eq!(ok.d, Some(7));
    assert!(ok.e.is_none());
    let err: MyResponse<i64> = err_response("boom".to_string());
    assert!(!err.r);
    assert!(err.d.is_none());
    assert_eq!(err.e, Some("boom".to_string()));
}

#[test]
fn host_header_value() {
    let h = HostHeader("localhost:3000".to_string());
    assert_eq!(h.value().as_str(), "localhost:3000");
}

#[test]
fn error_text_and_equality() {
    let e = HtyErr { code: HtyErrCode::DbErr, reason: Some("boom".to_string()) };
    assert_eq!(e.to_text(), "DbErr -> boom");
    let bare = HtyErr { code: HtyErrCode::NotFoundErr, reason: None };
    assert_eq!(bare.to_text(), "NotFoundErr -> ");
    assert_eq!(e, e.clone());
    let other = HtyErr { code: HtyErrCode::DbErr, reason: Some("other".to_string()) };
    assert!(e != other);
    assert_eq!(HtyErrCode::AuthenticationFailed.to_text(), "AuthenticationFailed");
}

//! Service-level values the request handlers compute: identifier and
//! timestamp generation, the response envelope, and small path helpers. The
//! transport around them (routing, extraction, serialization) stays outside
//! the library.

use vstd::prelude::*;

use crate::text::is_hex_lower;

verus! {

/// The response envelope: a success flag, the data, and an error text.
#[derive(Debug)]
pub struct MyResponse<T> {
    pub r: bool,
    pub d: Option<T>,
    pub e: Option<String>,
}

/// A successful response carrying `d`.
pub fn ok_response<T>(d: T) -> (resp: MyResponse<T>)
    ensures
        resp.r == true,
        resp.d matches Some(v) && v == d,
        resp.e is None,
{
    MyResponse { r: true, d: Some(d), e: None }
}

/// A failed response carrying the error text.
pub fn err_response<T>(e: String) -> (resp: MyResponse<T>)
    ensures
        resp.r == false,
        resp.d is None,
        resp.e matches Some(m) && m@ == e@,
{
    MyResponse { r: false, d: None, e: Some(e) }
}

/// The request's host header value.
#[derive(Debug)]
pub struct HostHeader(pub String);

impl HostHeader {
    /// The header text.
    pub fn value(&self) -> (r: &String)
        ensures
            r@ == self.0@,
    {
        &self.0
    }
}

/// A path segment as the echo handlers show it: the segment itself, or a
/// placeholder when it is empty.
pub fn path_of(id: String) -> (r: String)
    ensures
        id@.len() == 0 ==> r@ == "<NONE>"@,
        id@.len() > 0 ==> r@ == id@,
{
    if id.as_str().is_empty() {
        "<NONE>".to_owned()
    } else {
        id
    }
}

/// The canonical hyphenated form of a generated identifier: 36 characters,
/// hyphens at positions 8, 13, 18 and 23, lower-case hexadecimal digits
/// everywhere else, and the version digit `4` at position 14.
pub open spec fn is_canonical_id(s: Seq<char>) -> bool {
    s.len() == 36 && s[8] == '-' && s[13] == '-' && s[18] == '-' && s[23] == '-' && s[14] == '4'
        && forall|i: int|
        0 <= i < 36 && i != 8 && i != 13 && i != 18 && i != 23 ==> is_hex_lower(#[trigger] s[i])
}

/// Relies on `uuid::Uuid::new_v4` and its `Display` form: a fresh random
/// version-4 identifier rendered in the canonical hyphenated lower-case
/// form. The value itself is random, so nothing further is assumed of it;
/// in particular, distinctness of two draws is not assumed — the store
/// rejects a colliding identifier on insert.
#[verifier::external_body]
fn fresh_uuid_text() -> (r: String)
    ensures
        is_canonical_id(r@),
{
    uuid::Uuid::new_v4().to_string()
}

/// A globally unique identifier for a new record, in the canonical
/// hyphenated form.
pub fn uuid() -> (r: String)
    ensures
        is_canonical_id(r@),
        r@.len() == 36,
{
    fresh_uuid_text()
}

/// Relies on `chrono::Utc::now` for the wall clock: the current time in
/// microseconds since the epoch. The value depends on the clock, so nothing
/// is assumed of it.
#[verifier::external_body]
pub fn now_micros() -> i64 {
    chrono::Utc::now().timestamp_micros()
}

} // verus!

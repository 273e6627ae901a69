//! Error taxonomy: codec failures, pagination failures, and the service-level
//! error record used by the record operations.

use vstd::prelude::*;

verus! {

/// Failure of the payload codec.
///
/// `Malformed` says the raw column text is not valid tree-structured data at
/// all; `SchemaMismatch` says the tree is well formed but its shape does not
/// match the statically expected payload shape.
#[derive(Clone, Copy, Debug, PartialEq, Eq, Structural)]
pub enum CodecError {
    Malformed,
    SchemaMismatch,
}

/// Failure of a pagination call.
///
/// `InvalidParameter` reports a non-positive `page_size`, rejected before any
/// row is read. `Codec` propagates a per-row payload decode failure.
#[derive(Clone, Copy, Debug, PartialEq, Eq, Structural)]
pub enum PageError {
    InvalidParameter,
    Codec(CodecError),
}

/// The service error codes.
#[derive(Clone, Copy, Debug, PartialEq, Eq, Structural)]
pub enum HtyErrCode {
    DbErr,
    InternalErr,
    CommonError,
    WebErr,
    JwtErr,
    WxErr,
    NullErr,
    NotFoundErr,
    NotEqualErr,
    AuthenticationFailed,
    ConflictErr,
}

impl HtyErrCode {
    /// The code's display name.
    pub fn to_text(&self) -> (r: String)
        ensures
            r@ == self.spec_name(),
    {
        match self {
            HtyErrCode::DbErr => "DbErr".to_owned(),
            HtyErrCode::InternalErr => "InternalErr".to_owned(),
            HtyErrCode::CommonError => "CommonError".to_owned(),
            HtyErrCode::WebErr => "WebErr".to_owned(),
            HtyErrCode::JwtErr => "JwtErr".to_owned(),
            HtyErrCode::WxErr => "WxErr".to_owned(),
            HtyErrCode::NullErr => "NullErr".to_owned(),
            HtyErrCode::NotFoundErr => "NotFoundErr".to_owned(),
            HtyErrCode::NotEqualErr => "NotEqualErr".to_owned(),
            HtyErrCode::AuthenticationFailed => "AuthenticationFailed".to_owned(),
            HtyErrCode::ConflictErr => "ConflictErr".to_owned(),
        }
    }

    /// The display name of each code, as a sequence of characters.
    pub open spec fn spec_name(self) -> Seq<char> {
        match self {
            HtyErrCode::DbErr => "DbErr"@,
            HtyErrCode::InternalErr => "InternalErr"@,
            HtyErrCode::CommonError => "CommonError"@,
            HtyErrCode::WebErr => "WebErr"@,
            HtyErrCode::JwtErr => "JwtErr"@,
            HtyErrCode::WxErr => "WxErr"@,
            HtyErrCode::NullErr => "NullErr"@,
            HtyErrCode::NotFoundErr => "NotFoundErr"@,
            HtyErrCode::NotEqualErr => "NotEqualErr"@,
            HtyErrCode::AuthenticationFailed => "AuthenticationFailed"@,
            HtyErrCode::ConflictErr => "ConflictErr"@,
        }
    }
}

/// The service error record: a code plus an optional human-readable reason.
#[derive(Debug)]
pub struct HtyErr {
    pub code: HtyErrCode,
    pub reason: Option<String>,
}

impl HtyErr {
    /// The reason text, or the empty string when none was recorded.
    pub open spec fn spec_reason(self) -> Seq<char> {
        match self.reason {
            Some(r) => r@,
            None => Seq::<char>::empty(),
        }
    }

    /// The error rendered as `code -> reason`.
    pub fn to_text(&self) -> (r: String)
        ensures
            r@ == self.code.spec_name() + " -> "@ + self.spec_reason(),
    {
        let mut out = self.code.to_text();
        out.append(" -> ");
        match &self.reason {
            Some(reason) => {
                out.append(reason.as_str());
            },
            None => {},
        }
        out
    }
}

impl Clone for HtyErr {
    fn clone(&self) -> (r: Self)
        ensures
            r == *self,
    {
        HtyErr {
            code: self.code,
            reason: match &self.reason {
                Some(s) => Some(s.clone()),
                None => None,
            },
        }
    }
}

impl PartialEq for HtyErr {
    fn eq(&self, other: &Self) -> (r: bool) {
        self.code == other.code && match (&self.reason, &other.reason) {
            (Some(a), Some(b)) => *a == *b,
            (None, None) => true,
            _ => false,
        }
    }
}

impl vstd::std_specs::cmp::PartialEqSpecImpl for HtyErr {
    open spec fn obeys_eq_spec() -> bool {
        true
    }

    open spec fn eq_spec(&self, other: &Self) -> bool {
        self.code == other.code && self.reason.deep_view() == other.reason.deep_view()
    }
}

} // verus!

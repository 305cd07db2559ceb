//! The identity extractor: turns the opaque identity string the
//! session-transport collaborator supplies into a typed authenticated-user
//! value for handler code, or refuses the request.

use vstd::prelude::*;
use vstd::string::StringSliceAdditionalSpecFns;

use crate::auth::{decode_jwt, decode_spec};
use crate::errors::ApiError;

verus! {

/// A read-only projection of a decoded claim set, built per request and
/// discarded at request end.
#[derive(Clone, Debug, PartialEq)]
pub struct AuthUser {
    pub id: String,
    pub email: String,
}

impl AuthUser {
    /// Builds the authenticated user for a request from its opaque identity
    /// string, under the server signing key and the current time.
    ///
    /// Succeeds exactly when an identity is present and decodes to an
    /// unexpired claim set; the user is that claim set's projection. Every
    /// failure is `Unauthorized` — never a panic, never an empty user.
    pub fn from_request(identity: Option<&str>, key: &[u8], now: i64) -> (r: Result<
        AuthUser,
        ApiError,
    >)
        ensures
            match r {
                Ok(au) => match identity {
                    Some(t) => match decode_spec(t.spec_bytes(), key@) {
                        Some(c) => au.id@ == c.user_id && au.email@ == c.email && now < c.exp,
                        None => false,
                    },
                    None => false,
                },
                Err(e) => e is Unauthorized && match identity {
                    Some(t) => match decode_spec(t.spec_bytes(), key@) {
                        Some(c) => now >= c.exp,
                        None => true,
                    },
                    None => true,
                },
            },
    {
        match identity {
            None => Err(ApiError::Unauthorized(String::from_str("unauthorized"))),
            Some(t) => match decode_jwt(t, key, now) {
                Ok(claim) => Ok(
                    AuthUser { id: claim.user_id().to_text(), email: claim.email().clone() },
                ),
                Err(_) => Err(ApiError::Unauthorized(String::from_str("unauthorized"))),
            },
        }
    }
}

} // verus!

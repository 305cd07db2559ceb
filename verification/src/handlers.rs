//! The request and response bodies of the authentication endpoints that the
//! embedding HTTP layer exchanges with clients.

use vstd::prelude::*;

verus! {

/// Credentials presented to the login endpoint.
#[derive(Clone, Debug, PartialEq)]
pub struct LoginRequest {
    pub email: String,
    pub password: String,
}

/// What the liveness endpoint reports.
#[derive(Debug, PartialEq)]
pub struct HealthResponse {
    pub status: String,
    pub version: String,
}

impl HealthResponse {
    /// A healthy report carrying the service version.
    pub fn new(version: String) -> (r: HealthResponse)
        ensures
            r.status@ == "ok"@,
            r.version@ == version@,
    {
        HealthResponse { status: String::from_str("ok"), version }
    }
}

} // verus!

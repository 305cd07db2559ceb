//! The error taxonomy of the service, and the response body shape that
//! carries user-facing error messages.

use vstd::prelude::*;

verus! {

/// Every failure the service surfaces, by kind, each carrying its message.
#[derive(Clone, Debug, PartialEq)]
pub enum ApiError {
    BadRequest(String),
    BlockingError(String),
    CacheError(String),
    CannotDecodeJwtToken(String),
    CannotEncodeJwtToken(String),
    ConfigurationError(String),
    InternalServerError(String),
    NotFound(String),
    ParseError(String),
    PoolError(String),
    ValidationError(Vec<String>),
    Unauthorized(String),
}

/// User-friendly error messages.
#[derive(Clone, Debug, PartialEq)]
pub struct ErrorResponse {
    errors: Vec<String>,
}

impl ErrorResponse {
    /// The messages carried by this response.
    pub closed spec fn messages(&self) -> Seq<Seq<char>> {
        self.errors.deep_view()
    }

    /// Wraps one message.
    pub fn from_message(error: &String) -> (r: ErrorResponse)
        ensures
            r.messages() =~= seq![error@],
    {
        let mut errors: Vec<String> = Vec::new();
        errors.push(error.clone());
        ErrorResponse { errors }
    }

    /// Wraps a list of messages.
    pub fn from_messages(errors: Vec<String>) -> (r: ErrorResponse)
        ensures
            r.messages() == errors.deep_view(),
    {
        ErrorResponse { errors }
    }
}

} // verus!

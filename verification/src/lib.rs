//! Authentication core: a signed, time-bounded token codec, a deterministic
//! salted password hasher, an identity extractor, and the request gate that
//! decides whether a request may reach its handler.
//!
//! The embedding HTTP server, session transport and storage are
//! collaborators around this crate: they hand in plain values — the opaque
//! identity string, the request path, the current time, the configured
//! secrets — and act on the values and decisions handed back.

pub mod auth;
pub mod b64;
pub mod claims;
pub mod config;
pub mod decimal;
pub mod errors;
pub mod escape;
pub mod extractors;
pub mod handlers;
pub mod middleware;
pub mod text;
pub mod validate;

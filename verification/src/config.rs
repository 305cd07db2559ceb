//! The process-wide configuration: loaded once at startup by the embedding
//! program and passed by reference into the authentication core, which never
//! looks configuration up behind the caller's back.

use vstd::prelude::*;

verus! {

/// Which database engine the deployment uses.
#[derive(Clone, Copy, Debug, PartialEq, Eq, Structural)]
pub enum DatabaseConnection {
    Cockroach,
    Mysql,
    Postgres,
    Sqlite,
}

/// Immutable server-wide settings. The authentication core reads
/// `auth_salt`, `jwt_expiration` and `jwt_key`; the session-transport and
/// storage collaborators consume the rest.
#[derive(Clone, Debug)]
pub struct Config {
    pub auth_salt: String,
    pub database: DatabaseConnection,
    pub database_url: String,
    pub jwt_expiration: i64,
    pub jwt_key: String,
    pub redis_url: String,
    pub rust_backtrace: u8,
    pub rust_log: String,
    pub server: String,
    pub session_key: String,
    pub session_name: String,
    pub session_secure: bool,
    pub session_timeout: i64,
}

} // verus!

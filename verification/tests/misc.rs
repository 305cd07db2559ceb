use auth_core::claims::UserId;
use auth_core::config::{Config, DatabaseConnection};
use auth_core::errors::{ApiError, ErrorResponse};
use auth_core::handlers::{HealthResponse, LoginRequest};
use auth_core::validate::{collect_errors, FieldError};

#[test]
fn test_get_health() {
    let response = HealthResponse::new("1.0.0".to_string());
    assert_eq!(response.status, "ok".to_string());
    assert_eq!(response.version, "1.0.0".to_string());
}

#[test]
fn it_collects_errors() {
    let errors = vec![FieldError { field: "first_name".to_string(), message: None }];
    let response = collect_errors(errors);
    assert!(response.len() > 0);
    assert_eq!(response[0], "first_name is required");
}

#[test]
fn it_keeps_supplied_messages() {
    let errors = vec![
        FieldError {
            field: "first_name".to_string(),
            message: Some("first_name is required and must be at least 3 characters".to_string()),
        },
        FieldError { field: "last_name".to_string(), message: None },
    ];
    let response = collect_errors(errors);
    assert_eq!(
        response,
        vec![
            "first_name is required and must be at least 3 characters".to_string(),
            "last_name is required".to_string(),
        ]
    );
}

#[test]
fn error_response_wraps_messages() {
    let single = ErrorResponse::from_message(&"boom".to_string());
    let listed = ErrorResponse::from_messages(vec!["boom".to_string()]);
    assert_eq!(single, listed);
}

#[test]
fn user_id_accepts_canonical_text() {
    let id = UserId::new("67e55044-10b1-426f-9247-bb680e5fe0c8".to_string()).unwrap();
    assert_eq!(id.as_str(), "67e55044-10b1-426f-9247-bb680e5fe0c8");
    assert_eq!(id.to_text(), "67e55044-10b1-426f-9247-bb680e5fe0c8".to_string());
}

#[test]
fn user_id_rejects_malformed_text() {
    for bad in [
        "",
        "not-a-uuid",
        "67E55044-10B1-426F-9247-BB680E5FE0C8",
        "67e55044-10b1-426f-9247-bb680e5fe0c",
        "67e55044-10b1-426f-9247-bb680e5fe0c88",
        "67e5504410b1-426f-9247-bb680e5fe0c88",
    ] {
        let r = UserId::new(bad.to_string());
        assert!(matches!(r, Err(ApiError::ParseError(_))));
    }
}

#[test]
fn config_carries_auth_settings() {
    let config = Config {
        auth_salt: "shhhh-secret".to_string(),
        database: DatabaseConnection::Postgres,
        database_url: "postgres://localhost/test".to_string(),
        jwt_expiration: 24,
        jwt_key: "SECRET-REDACTED".to_string(),
        redis_url: "".to_string(),
        rust_backtrace: 0,
        rust_log: "info".to_string(),
        server: "127.0.0.1:3000".to_string(),
        session_key: "SECRET-REDACTED".to_string(),
        session_name: "auth".to_string(),
        session_secure: false,
        session_timeout: 20,
    };
    assert_ne!(config.server, "".to_string());
    assert_eq!(config.database, DatabaseConnection::Postgres);
}

#[test]
fn login_request_holds_credentials() {
    let request = LoginRequest {
        email: "satoshi@nakamotoinstitute.org".to_string(),
        password: "123456".to_string(),
    };
    let copy = request.clone();
    assert_eq!(request, copy);
}

use auth_core::auth::{create_jwt, now_timestamp};
use auth_core::claims::{PrivateClaim, UserId};
use auth_core::errors::ApiError;
use auth_core::extractors::AuthUser;
use auth_core::middleware::{Authentication, AuthenticationMiddleware, GateDecision};
use uuid::Uuid;

static KEY: &[u8] = b"SECRET-REDACTED";
static LOGIN_ROUTE: &str = "/api/v1/auth/login";

fn gate() -> AuthenticationMiddleware {
    let factory = Authentication::new(vec![LOGIN_ROUTE.to_string()], KEY.to_vec());
    factory.new_transform()
}

fn valid_token() -> (String, String, String) {
    let id_text = Uuid::new_v4().to_string();
    let email = "gate@test.com".to_string();
    let user_id = UserId::new(id_text.clone()).unwrap();
    let claim = PrivateClaim::new(user_id, email.clone(), now_timestamp(), 1);
    (create_jwt(claim, KEY).unwrap(), id_text, email)
}

/// Drives one request through the interceptor the way the surrounding pipeline
/// does: the handler runs exactly when the decision is `Forward`.
fn drive(gate: &AuthenticationMiddleware, path: &str, identity: &str, calls: &mut u32) -> bool {
    match gate.call(path, identity, now_timestamp()) {
        GateDecision::Forward => {
            *calls += 1;
            true
        }
        GateDecision::Reject => false,
    }
}

#[test]
fn exempt_route_is_forwarded_without_identity() {
    let gate = gate();
    let mut handler_calls: u32 = 0;
    let forwarded = drive(&gate, LOGIN_ROUTE, "", &mut handler_calls);
    assert!(forwarded);
    assert_eq!(handler_calls, 1);
}

#[test]
fn protected_route_with_empty_identity_is_rejected() {
    let gate = gate();
    let mut handler_calls: u32 = 0;
    let forwarded = drive(&gate, "/api/v1/users", "", &mut handler_calls);
    assert!(!forwarded);
    assert_eq!(handler_calls, 0);
}

#[test]
fn protected_route_with_invalid_identity_is_rejected() {
    let gate = gate();
    let mut handler_calls: u32 = 0;
    let forwarded = drive(&gate, "/api/v1/users", "garbage.token.here", &mut handler_calls);
    assert!(!forwarded);
    assert_eq!(handler_calls, 0);
}

#[test]
fn protected_route_with_valid_identity_is_forwarded() {
    let gate = gate();
    let (token, _, _) = valid_token();
    let mut handler_calls: u32 = 0;
    let forwarded = drive(&gate, "/api/v1/users", &token, &mut handler_calls);
    assert!(forwarded);
    assert_eq!(handler_calls, 1);
}

#[test]
fn extractor_builds_auth_user_from_valid_identity() {
    let (token, id_text, email) = valid_token();
    let user = AuthUser::from_request(Some(&token), KEY, now_timestamp()).unwrap();
    assert_eq!(user.id, id_text);
    assert_eq!(user.email, email);
}

#[test]
fn extractor_rejects_missing_identity() {
    let r = AuthUser::from_request(None, KEY, now_timestamp());
    assert!(matches!(r, Err(ApiError::Unauthorized(_))));
}

#[test]
fn extractor_rejects_invalid_identity() {
    let r = AuthUser::from_request(Some("bad.token.text"), KEY, now_timestamp());
    assert!(matches!(r, Err(ApiError::Unauthorized(_))));
}

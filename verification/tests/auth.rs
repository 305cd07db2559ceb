use auth_core::auth::{create_jwt, decode_jwt, hash, mask_str, now_timestamp};
use auth_core::claims::{PrivateClaim, UserId};
use auth_core::errors::ApiError;
use rand::distr::Alphanumeric;
use rand::RngExt;
use uuid::Uuid;

static EMAIL: &str = "test@test.com";
static KEY: &[u8] = b"SECRET-REDACTED";
static AUTH_SALT: &str = "test-secret-salt";

fn random_salt() -> String {
    rand::rng().sample_iter(Alphanumeric).take(32).map(char::from).collect::<String>()
}

fn fresh_claim() -> PrivateClaim {
    let user_id = UserId::new(Uuid::new_v4().to_string()).unwrap();
    PrivateClaim::new(user_id, EMAIL.into(), now_timestamp(), 1)
}

#[test]
fn it_hashes_a_password() {
    let password = "password";
    let salt = random_salt();
    let hashed = hash(password, &salt, &AUTH_SALT.to_string()).unwrap();
    assert_ne!(password, hashed);
}

#[test]
fn it_matches_2_hashed_passwords() {
    let password = "password";
    let salt = random_salt();
    let hashed = hash(password, &salt, &AUTH_SALT.to_string()).unwrap();
    let hashed_again = hash(password, &salt, &AUTH_SALT.to_string()).unwrap();
    assert_eq!(hashed, hashed_again);
}

#[test]
fn it_creates_a_jwt() {
    let private_claim = fresh_claim();
    let jwt = create_jwt(private_claim, KEY);
    assert!(jwt.is_ok());
}

#[test]
fn it_decodes_a_jwt() {
    let private_claim = fresh_claim();
    let jwt = create_jwt(private_claim.clone(), KEY).unwrap();
    let decoded = decode_jwt(&jwt, KEY, now_timestamp()).unwrap();
    assert_eq!(private_claim, decoded);
}

#[test]
fn it_masks_a_string() {
    let salt = "salt1salt2salt3".to_string();
    let mask = "mask52632".to_string();
    let masked = mask_str(&salt, &mask);
    assert_ne!(masked, "".to_string());
}

#[test]
fn masking_changes_and_keeps_length() {
    let salt = "salt1salt2salt3".to_string();
    let mask = "mask52632".to_string();
    let masked = mask_str(&salt, &mask);
    assert_eq!(masked.len(), salt.len());
    assert_ne!(masked, salt);
}

#[test]
fn digests_differ_for_different_passwords() {
    let salt = random_salt();
    let d1 = hash("password-one", &salt, &AUTH_SALT.to_string()).unwrap();
    let d2 = hash("password-two", &salt, &AUTH_SALT.to_string()).unwrap();
    assert_ne!(d1, d2);
}

#[test]
fn digest_is_64_lowercase_hex_chars() {
    let salt = random_salt();
    let d = hash("password", &salt, &AUTH_SALT.to_string()).unwrap();
    assert_eq!(d.len(), 64);
    assert!(d.chars().all(|c| c.is_ascii_hexdigit() && !c.is_ascii_uppercase()));
}

#[test]
fn empty_salt_is_rejected() {
    let r = hash("password", &"".to_string(), &AUTH_SALT.to_string());
    assert!(matches!(r, Err(ApiError::ConfigurationError(_))));
}

#[test]
fn short_salt_is_rejected() {
    let r = hash("password", &"seven77".to_string(), &AUTH_SALT.to_string());
    assert!(matches!(r, Err(ApiError::ConfigurationError(_))));
}

#[test]
fn empty_secret_is_rejected() {
    let r = hash("password", &random_salt(), &"".to_string());
    assert!(matches!(r, Err(ApiError::ConfigurationError(_))));
}

#[test]
fn token_has_three_segments() {
    let jwt = create_jwt(fresh_claim(), KEY).unwrap();
    assert_eq!(jwt.split('.').count(), 3);
}

#[test]
fn round_trip_concrete_scenario() {
    let user_id = UserId::new("67e55044-10b1-426f-9247-bb680e5fe0c8".to_string()).unwrap();
    let now = now_timestamp();
    let claim = PrivateClaim::new(user_id, "a@b.com".into(), now - 3600, 2);
    assert_eq!(claim.expires_at(), now + 3600);
    let jwt = create_jwt(claim.clone(), KEY).unwrap();
    let decoded = decode_jwt(&jwt, KEY, now).unwrap();
    assert_eq!(claim, decoded);
}

#[test]
fn expired_token_is_rejected() {
    let user_id = UserId::new("67e55044-10b1-426f-9247-bb680e5fe0c8".to_string()).unwrap();
    let now = now_timestamp();
    let claim = PrivateClaim::new(user_id, "a@b.com".into(), now - 1, 0);
    let jwt = create_jwt(claim, KEY).unwrap();
    let decoded = decode_jwt(&jwt, KEY, now);
    assert!(matches!(decoded, Err(ApiError::CannotDecodeJwtToken(_))));
}

#[test]
fn token_under_other_key_is_rejected() {
    let jwt = create_jwt(fresh_claim(), KEY).unwrap();
    let decoded = decode_jwt(&jwt, b"another-signing-key", now_timestamp());
    assert!(matches!(decoded, Err(ApiError::CannotDecodeJwtToken(_))));
}

#[test]
fn tampered_token_is_rejected() {
    let jwt = create_jwt(fresh_claim(), KEY).unwrap();
    let mut tampered = jwt.clone();
    tampered.pop();
    assert!(decode_jwt(&tampered, KEY, now_timestamp()).is_err());
    assert!(decode_jwt("not-a-token", KEY, now_timestamp()).is_err());
    assert!(decode_jwt("", KEY, now_timestamp()).is_err());
}

#[test]
fn email_with_specials_round_trips() {
    let user_id = UserId::new(Uuid::new_v4().to_string()).unwrap();
    let email = "we\u{00ef}rd \"quoted\" b\\ck\nslash@t\u{00e9}st.com";
    let claim = PrivateClaim::new(user_id, email.into(), now_timestamp(), 1);
    let jwt = create_jwt(claim.clone(), KEY).unwrap();
    let decoded = decode_jwt(&jwt, KEY, now_timestamp()).unwrap();
    assert_eq!(claim, decoded);
    assert_eq!(decoded.email().as_str(), email);
}

use rust_auth_server::errors::ServiceError;
use rust_auth_server::models::SlimUser;
use rust_auth_server::utils::Token;
use rust_auth_server::utils::TOKEN_VALIDITY_SECONDS;

const SECRET: &[u8] = b"0123012301230123012301230123012.";
const OTHER_SECRET: &[u8] = b"another secret entirely..........";
const DOMAIN: &str = "localhost";

fn issue(email: &str, now: i64) -> Token {
    let user = SlimUser {
        email: email.to_string(),
    };
    Token::create_token(&user, DOMAIN, SECRET, now).expect("token issuance")
}

#[test]
fn issue_then_verify_yields_same_identity() {
    let now: i64 = 1_700_000_000;
    let token = issue("user@example.com", now);
    let claim = Token::decode_token(&token, SECRET, now).expect("fresh token verifies");
    assert_eq!(claim.issued_at(), now);
    assert_eq!(claim.expires_at(), now + TOKEN_VALIDITY_SECONDS);
    assert_eq!(claim.get_email(), "user@example.com");
}

#[test]
fn verify_with_wrong_secret_fails_with_unauthorized() {
    let now: i64 = 1_700_000_000;
    let token = issue("user@example.com", now);
    let r = Token::decode_token(&token, OTHER_SECRET, now);
    assert!(matches!(r, Err(ServiceError::Unauthorized)));
}

#[test]
fn expiry_boundary_is_strict() {
    let now: i64 = 1_700_000_000;
    let token = issue("user@example.com", now);
    let just_before = now + TOKEN_VALIDITY_SECONDS - 1;
    assert!(Token::decode_token(&token, SECRET, just_before).is_ok());
    let at_expiry = now + TOKEN_VALIDITY_SECONDS;
    assert!(matches!(
        Token::decode_token(&token, SECRET, at_expiry),
        Err(ServiceError::Unauthorized)
    ));
    let just_after = now + TOKEN_VALIDITY_SECONDS + 1;
    assert!(matches!(
        Token::decode_token(&token, SECRET, just_after),
        Err(ServiceError::Unauthorized)
    ));
}

#[test]
fn tampered_token_fails() {
    let now: i64 = 1_700_000_000;
    let token = issue("user@example.com", now);
    let raw = token.into_string();
    let mut chars: Vec<char> = raw.chars().collect();
    let dot = chars.iter().position(|c| *c == '.').expect("token has a dot");
    let i = dot / 2;
    chars[i] = if chars[i] == 'A' { 'B' } else { 'A' };
    let tampered: String = chars.into_iter().collect();
    let r = Token::decode_token(&Token::from_string(tampered), SECRET, now);
    assert!(matches!(r, Err(ServiceError::Unauthorized)));
}

#[test]
fn malformed_tokens_fail() {
    let now: i64 = 1_700_000_000;
    for raw in ["", ".", "no dot at all", "head.tail", "a.b.c", "!!!.???"] {
        let r = Token::decode_token(&Token::from_string(raw.to_string()), SECRET, now);
        assert!(matches!(r, Err(ServiceError::Unauthorized)), "{raw:?}");
    }
}

#[test]
fn token_round_trips_unusual_emails() {
    let now: i64 = 1_700_000_000;
    for email in ["", "a", "dotted.user@example.com", "uni\u{00e9}code@\u{2603}.example"] {
        let token = issue(email, now);
        let claim = Token::decode_token(&token, SECRET, now).expect("verifies");
        assert_eq!(claim.get_email(), email);
    }
}

#[test]
fn swapped_payload_fails() {
    let now: i64 = 1_700_000_000;
    let token_a = issue("alice@example.com", now).into_string();
    let token_b = issue("bob@example.com", now).into_string();
    let head_a = token_a.split('.').next().unwrap();
    let tail_b = token_b.split('.').nth(1).unwrap();
    let franken = format!("{head_a}.{tail_b}");
    let r = Token::decode_token(&Token::from_string(franken), SECRET, now);
    assert!(matches!(r, Err(ServiceError::Unauthorized)));
}

use rust_auth_server::codec::encode_fields;
use rust_auth_server::codec::parse_fields;
use rust_auth_server::errors::ServiceError;
use rust_auth_server::utils::hash_password;
use rust_auth_server::utils::hashing_cost;
use rust_auth_server::utils::parse_u32;
use rust_auth_server::utils::DEFAULT_HASH_COST;
use rust_auth_server::utils::TOKEN_VALIDITY_SECONDS;

#[test]
fn claim_fields_round_trip_through_the_codec() {
    let bytes = encode_fields("localhost", "auth", "user@example.com", 1_700_000_000, -5);
    let (iss, sub, email, iat, exp) = parse_fields(&bytes).expect("canonical bytes parse");
    assert_eq!(iss, "localhost");
    assert_eq!(sub, "auth");
    assert_eq!(email, "user@example.com");
    assert_eq!(iat, 1_700_000_000);
    assert_eq!(exp, -5);
}

#[test]
fn codec_rejects_truncated_and_padded_input() {
    let bytes = encode_fields("localhost", "auth", "user@example.com", 1, 2);
    assert!(parse_fields(&bytes[..bytes.len() - 1]).is_none());
    let mut padded = bytes.clone();
    padded.push(0);
    assert!(parse_fields(&padded).is_none());
    assert!(parse_fields(&[]).is_none());
    assert!(parse_fields(&[7, 0, 0, 0, 0, 0, 0, 0]).is_none());
}

#[test]
fn codec_layout_is_length_prefixed_little_endian() {
    let bytes = encode_fields("ab", "", "c", 1, 256);
    let expected: Vec<u8> = vec![
        2, 0, 0, 0, 0, 0, 0, 0, b'a', b'b', // issuer
        0, 0, 0, 0, 0, 0, 0, 0, // empty subject
        1, 0, 0, 0, 0, 0, 0, 0, b'c', // email
        1, 0, 0, 0, 0, 0, 0, 0, // issued-at
        0, 1, 0, 0, 0, 0, 0, 0, // expiry
    ];
    assert_eq!(bytes, expected);
}

#[test]
fn parse_u32_matches_std_semantics() {
    assert_eq!(parse_u32("12"), Some(12));
    assert_eq!(parse_u32("+7"), Some(7));
    assert_eq!(parse_u32("012"), Some(12));
    assert_eq!(parse_u32("0"), Some(0));
    assert_eq!(parse_u32("4294967295"), Some(u32::MAX));
    assert_eq!(parse_u32("4294967296"), None);
    assert_eq!(parse_u32("99999999999999999999"), None);
    assert_eq!(parse_u32(""), None);
    assert_eq!(parse_u32("+"), None);
    assert_eq!(parse_u32("12a"), None);
    assert_eq!(parse_u32("-3"), None);
    assert_eq!(parse_u32(" 5"), None);
}

#[test]
fn hashing_cost_falls_back_to_the_default() {
    assert_eq!(hashing_cost(None), DEFAULT_HASH_COST);
    assert_eq!(hashing_cost(Some("10")), 10);
    assert_eq!(hashing_cost(Some("abc")), DEFAULT_HASH_COST);
    assert_eq!(hashing_cost(Some("")), DEFAULT_HASH_COST);
}

#[test]
fn hash_password_enforces_bcrypt_cost_range() {
    assert!(hash_password("pw", 4).is_ok());
    assert!(matches!(
        hash_password("pw", 3),
        Err(ServiceError::InternalServerError)
    ));
    assert!(matches!(
        hash_password("pw", 32),
        Err(ServiceError::InternalServerError)
    ));
}

#[test]
fn error_messages_match_the_original_wording() {
    assert_eq!(
        ServiceError::InternalServerError.message(),
        "Internal Server Error"
    );
    assert_eq!(ServiceError::Unauthorized.message(), "Unauthorized");
    assert_eq!(
        ServiceError::BadRequest("nope".to_string()).message(),
        "BadRequest: nope"
    );
}

#[test]
fn token_validity_window_is_24_hours() {
    assert_eq!(TOKEN_VALIDITY_SECONDS, 24 * 3600);
}

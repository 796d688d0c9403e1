use rust_auth_server::auth_handler::login_attempt;
use rust_auth_server::auth_handler::AuthData;
use rust_auth_server::change_password_handler::hash_new_password;
use rust_auth_server::change_password_handler::ChangePassword;
use rust_auth_server::errors::ServiceError;
use rust_auth_server::invitation_handler::new_invitation;
use rust_auth_server::invitation_handler::INVITATION_VALIDITY_SECONDS;
use rust_auth_server::logged_user::authorize;
use rust_auth_server::logged_user::authorize_at;
use rust_auth_server::logged_user::fill_auth_from_fetch;
use rust_auth_server::logged_user::users_to_logged;
use rust_auth_server::logged_user::AuthCache;
use rust_auth_server::logged_user::AuthorizedUsers;
use rust_auth_server::logged_user::LoggedUser;
use rust_auth_server::models::Invitation;
use rust_auth_server::models::SlimUser;
use rust_auth_server::models::User;
use rust_auth_server::register_handler::register_decision;
use rust_auth_server::utils::hash_password;
use rust_auth_server::utils::Token;

const SECRET: &[u8] = b"0123012301230123012301230123012.";
const DOMAIN: &str = "localhost";
const COST: u32 = 4;

#[test]
fn login_with_right_password_issues_verifiable_token() {
    let now: i64 = 1_700_000_000;
    let hashed = hash_password("hunter2", COST).expect("hashing");
    let record = User::from_details("user@example.com".to_string(), hashed, now);
    let auth = AuthData {
        email: "user@example.com".to_string(),
        password: "hunter2".to_string(),
    };
    let (slim, token) = login_attempt(record, &auth, DOMAIN, SECRET, now).expect("login");
    assert_eq!(slim.email, "user@example.com");
    let claim = Token::decode_token(&token, SECRET, now).expect("issued token verifies");
    assert_eq!(claim.get_email(), "user@example.com");
}

#[test]
fn login_with_wrong_password_is_a_uniform_bad_request() {
    let now: i64 = 1_700_000_000;
    let hashed = hash_password("hunter2", COST).expect("hashing");
    let record = User::from_details("user@example.com".to_string(), hashed, now);
    let auth = AuthData {
        email: "user@example.com".to_string(),
        password: "wrong".to_string(),
    };
    match login_attempt(record, &auth, DOMAIN, SECRET, now) {
        Err(ServiceError::BadRequest(m)) => assert_eq!(m, "Username and Password don't match"),
        other => panic!("expected bad request, got {other:?}"),
    }
}

#[test]
fn login_with_corrupt_stored_hash_is_rejected() {
    let now: i64 = 1_700_000_000;
    let record = User::from_details(
        "user@example.com".to_string(),
        "not a bcrypt hash".to_string(),
        now,
    );
    let auth = AuthData {
        email: "user@example.com".to_string(),
        password: "hunter2".to_string(),
    };
    assert!(login_attempt(record, &auth, DOMAIN, SECRET, now).is_err());
}

#[test]
fn authorize_accepts_fresh_token_of_cached_identity() {
    let now: i64 = 1_700_000_000;
    let slim = SlimUser {
        email: "user@example.com".to_string(),
    };
    let token = Token::create_token(&slim, DOMAIN, SECRET, now).expect("issue");
    let cache = AuthorizedUsers::new();
    cache.merge_users(
        &[LoggedUser {
            email: "user@example.com".to_string(),
        }],
        now,
    );
    let who = authorize(&token, SECRET, &cache, now).expect("authorized");
    assert_eq!(who.email, "user@example.com");
}

#[test]
fn authorize_rejects_valid_token_of_revoked_identity() {
    // The cache is the revocation kill switch: the token is still signed
    // and unexpired, but the identity is no longer in the merged set.
    let now: i64 = 1_700_000_000;
    let slim = SlimUser {
        email: "user@example.com".to_string(),
    };
    let token = Token::create_token(&slim, DOMAIN, SECRET, now).expect("issue");
    let cache = AuthorizedUsers::new();
    cache.merge_users(
        &[LoggedUser {
            email: "user@example.com".to_string(),
        }],
        now,
    );
    cache.merge_users(
        &[LoggedUser {
            email: "other@example.com".to_string(),
        }],
        now + 60,
    );
    let r = authorize(&token, SECRET, &cache, now + 120);
    assert!(matches!(r, Err(ServiceError::Unauthorized)));
}

#[test]
fn authorize_at_decides_against_one_generation() {
    let now: i64 = 1_700_000_000;
    let slim = SlimUser {
        email: "user@example.com".to_string(),
    };
    let token = Token::create_token(&slim, DOMAIN, SECRET, now).expect("issue");
    let mut generation = AuthCache::new();
    assert!(matches!(
        authorize_at(&token, SECRET, &generation, now),
        Err(ServiceError::Unauthorized)
    ));
    generation.merge_users(
        &[LoggedUser {
            email: "user@example.com".to_string(),
        }],
        now,
    );
    let who = authorize_at(&token, SECRET, &generation, now).expect("authorized");
    assert_eq!(who.email, "user@example.com");
    // Revocation: a later generation without the identity rejects the
    // still-valid token.
    generation.merge_users(
        &[LoggedUser {
            email: "other@example.com".to_string(),
        }],
        now + 60,
    );
    assert!(matches!(
        authorize_at(&token, SECRET, &generation, now + 120),
        Err(ServiceError::Unauthorized)
    ));
    // Staleness: the same generation, read a full window later.
    assert!(matches!(
        authorize_at(&token, SECRET, &generation, now + 60 + 900),
        Err(ServiceError::Unauthorized)
    ));
}

#[test]
fn authorize_rejects_unknown_identity_and_bad_token() {
    let now: i64 = 1_700_000_000;
    let slim = SlimUser {
        email: "user@example.com".to_string(),
    };
    let token = Token::create_token(&slim, DOMAIN, SECRET, now).expect("issue");
    let cache = AuthorizedUsers::new();
    assert!(matches!(
        authorize(&token, SECRET, &cache, now),
        Err(ServiceError::Unauthorized)
    ));
    let garbage = Token::from_string("garbage".to_string());
    assert!(matches!(
        authorize(&garbage, SECRET, &cache, now),
        Err(ServiceError::Unauthorized)
    ));
}

#[test]
fn refresh_merges_fetched_users_and_skips_failed_fetch() {
    let now: i64 = 1_700_000_000;
    let cache = AuthorizedUsers::new();
    let fetched = vec![
        User::from_details("a@x".to_string(), "pw".to_string(), now),
        User::from_details("b@x".to_string(), "pw".to_string(), now),
    ];
    assert!(fill_auth_from_fetch(&cache, Some(&fetched), now));
    let a = LoggedUser {
        email: "a@x".to_string(),
    };
    assert!(cache.is_authorized(&a, now));
    // A failed fetch skips the cycle: the cache keeps serving its state.
    assert!(!fill_auth_from_fetch(&cache, None, now + 60));
    assert!(cache.is_authorized(&a, now + 60));
}

#[test]
fn users_to_logged_projects_emails() {
    let fetched = vec![
        User::from_details("a@x".to_string(), "pw".to_string(), 0),
        User::from_details("b@x".to_string(), "pw".to_string(), 0),
    ];
    let logged = users_to_logged(&fetched);
    assert_eq!(logged.len(), 2);
    assert_eq!(logged[0].email, "a@x");
    assert_eq!(logged[1].email, "b@x");
}

#[test]
fn register_with_live_invitation_creates_user() {
    let now: i64 = 1_700_000_000;
    let inv = Invitation {
        id: "00000000-0000-0000-0000-000000000000".to_string(),
        email: "new@example.com".to_string(),
        expires_at: now + 100,
    };
    let user = register_decision(Some(inv), "chosen password", COST, now).expect("registered");
    assert_eq!(user.email, "new@example.com");
    assert_eq!(user.created_at, now);
    assert!(bcrypt::verify("chosen password", &user.password).unwrap());
}

#[test]
fn register_with_expired_or_missing_invitation_fails() {
    let now: i64 = 1_700_000_000;
    let expired = Invitation {
        id: "00000000-0000-0000-0000-000000000000".to_string(),
        email: "new@example.com".to_string(),
        expires_at: now,
    };
    match register_decision(Some(expired), "pw", COST, now) {
        Err(ServiceError::BadRequest(m)) => assert_eq!(m, "Invalid Invitation"),
        other => panic!("expected bad request, got {other:?}"),
    }
    match register_decision(None, "pw", COST, now) {
        Err(ServiceError::BadRequest(m)) => assert_eq!(m, "Invalid Invitation"),
        other => panic!("expected bad request, got {other:?}"),
    }
}

#[test]
fn register_with_disallowed_cost_is_internal_error() {
    let now: i64 = 1_700_000_000;
    let inv = Invitation {
        id: "00000000-0000-0000-0000-000000000000".to_string(),
        email: "new@example.com".to_string(),
        expires_at: now + 100,
    };
    let r = register_decision(Some(inv), "pw", 3, now);
    assert!(matches!(r, Err(ServiceError::InternalServerError)));
}

#[test]
fn invitation_expires_one_window_after_creation() {
    let now: i64 = 1_700_000_000;
    let inv = new_invitation("id-1".to_string(), "new@example.com".to_string(), now);
    assert_eq!(inv.id, "id-1");
    assert_eq!(inv.email, "new@example.com");
    assert_eq!(inv.expires_at, now + INVITATION_VALIDITY_SECONDS);
    assert_eq!(INVITATION_VALIDITY_SECONDS, 24 * 3600);
}

#[test]
fn change_password_hashes_verifiably() {
    let msg = ChangePassword {
        email: "user@example.com".to_string(),
        password: "fresh password".to_string(),
    };
    let hashed = hash_new_password(&msg, COST).expect("hashing");
    assert!(bcrypt::verify("fresh password", &hashed).unwrap());
    assert!(!bcrypt::verify("other password", &hashed).unwrap());
    assert!(matches!(
        hash_new_password(&msg, 99),
        Err(ServiceError::InternalServerError)
    ));
}

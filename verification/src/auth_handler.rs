//! The login decision: check the presented password against the stored
//! hash and, on a match, issue a signed token.  The user record itself is
//! fetched by the caller at the edge.
use crate::errors::ServiceError;
use crate::models::SlimUser;
use crate::models::User;
use crate::utils::bcrypt_matches;
use crate::utils::issued_token;
use crate::utils::password_matches;
use crate::utils::spec_claim_of;
use crate::utils::Token;
use crate::utils::TOKEN_VALIDITY_SECONDS;
use vstd::prelude::*;

verus! {

/// Credentials extracted from a login request.
#[derive(Debug)]
pub struct AuthData {
    pub email: String,
    pub password: String,
}

/// Decide a login attempt for a fetched user record: exactly when the
/// password matches the stored bcrypt hash, a token is issued for the
/// user's identity; otherwise the original's uniform bad-request answer.
pub fn login_attempt(user: User, auth: &AuthData, domain: &str, secret: &[u8], now: i64) -> (r:
    Result<(SlimUser, Token), ServiceError>)
    requires
        now + TOKEN_VALIDITY_SECONDS <= i64::MAX,
    ensures
        bcrypt_matches(auth.password@, user.password@) ==> (r matches Ok(p) && p.0.email@
            == user.email@ && issued_token(p.1@, spec_claim_of(domain@, user.email@, now), secret@)),
        !bcrypt_matches(auth.password@, user.password@) ==> (r matches Err(e) && e matches
            ServiceError::BadRequest(m) && m@ == "Username and Password don't match"@),
{
    if password_matches(auth.password.as_str(), user.password.as_str()) {
        let slim = SlimUser::from(user);
        match Token::create_token(&slim, domain, secret, now) {
            Ok(token) => Ok((slim, token)),
            Err(e) => Err(e),
        }
    } else {
        Err(ServiceError::BadRequest("Username and Password don't match".to_owned()))
    }
}

} // verus!

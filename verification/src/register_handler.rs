//! The registration decision: an invitation, if present and unexpired,
//! turns a chosen password into a new user record; the invitation lookup
//! and the insert happen at the edge.
use crate::errors::ServiceError;
use crate::models::Invitation;
use crate::models::User;
use crate::utils::bcrypt_matches;
use crate::utils::hash_password;
use vstd::prelude::*;

verus! {

/// The password a registering client chose.
#[derive(Debug)]
pub struct UserData {
    pub password: String,
}

/// A registration request: the invitation it claims, and the password.
#[derive(Debug)]
pub struct RegisterUser {
    pub invitation_id: String,
    pub password: String,
}

/// Decide a registration once the invitation has been looked up.  A
/// missing or expired invitation is the original's uniform bad-request
/// answer; with a live one, the password is hashed and the new user record
/// carries the invitation's email, created now.
pub fn register_decision(invitation: Option<Invitation>, password: &str, cost: u32, now: i64) -> (r:
    Result<User, ServiceError>)
    ensures
        r matches Ok(u) ==> (invitation matches Some(inv) && inv.expires_at > now && u.email@
            == inv.email@ && bcrypt_matches(password@, u.password@) && u.created_at == now && 4
            <= cost <= 31),
        (invitation is None || (invitation matches Some(inv) && inv.expires_at <= now)) ==> (
        r matches Err(e) && e matches ServiceError::BadRequest(m) && m@ == "Invalid Invitation"@),
        (invitation matches Some(inv) && inv.expires_at > now && !(4 <= cost <= 31)) ==> (
        r matches Err(e) && e == ServiceError::InternalServerError),
        (invitation matches Some(inv) && inv.expires_at > now) ==> (r is Ok || (r matches Err(e)
            && e == ServiceError::InternalServerError)),
{
    match invitation {
        Some(inv) => {
            if inv.expires_at > now {
                match hash_password(password, cost) {
                    Ok(h) => Ok(User::from_details(inv.email, h, now)),
                    Err(e) => Err(e),
                }
            } else {
                Err(ServiceError::BadRequest("Invalid Invitation".to_owned()))
            }
        },
        None => Err(ServiceError::BadRequest("Invalid Invitation".to_owned())),
    }
}

} // verus!

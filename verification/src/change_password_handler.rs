//! Changing a password: the request data, and the compute step that hashes
//! the new password.  The database update happens at the edge.
use crate::errors::ServiceError;
use crate::utils::bcrypt_matches;
use crate::utils::hash_password;
use vstd::prelude::*;

verus! {

/// The new password a client chose.
#[derive(Debug)]
pub struct UserData {
    pub password: String,
}

/// A password change bound to the authenticated identity.
#[derive(Debug)]
pub struct ChangePassword {
    pub email: String,
    pub password: String,
}

/// The compute step of a password change: hash the new password with the
/// configured work factor.
pub fn hash_new_password(msg: &ChangePassword, cost: u32) -> (r: Result<String, ServiceError>)
    ensures
        r matches Ok(h) ==> 4 <= cost <= 31 && bcrypt_matches(msg.password@, h@),
        r matches Err(e) ==> e == ServiceError::InternalServerError,
        !(4 <= cost <= 31) ==> r is Err,
{
    hash_password(msg.password.as_str(), cost)
}

} // verus!

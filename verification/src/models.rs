//! Data model of the user store: full user records, the slim projection that
//! tokens and responses carry, and pending invitations.
//!
//! Timestamps are whole seconds since the Unix epoch, so that the freshness
//! and expiry arithmetic of the core is exact.
use vstd::prelude::*;

verus! {

/// A record of the authoritative user store.
#[derive(Debug)]
pub struct User {
    pub email: String,
    pub password: String,
    pub created_at: i64,
}

impl User {
    /// Build a new user record from its details, created now.
    pub fn from_details(email: String, password: String, now: i64) -> (r: Self)
        ensures
            r.email@ == email@,
            r.password@ == password@,
            r.created_at == now,
    {
        Self { email, password, created_at: now }
    }
}

/// The slim projection of a user: just the identity.
#[derive(Debug)]
pub struct SlimUser {
    pub email: String,
}

impl From<User> for SlimUser {
    fn from(user: User) -> (r: Self) {
        Self { email: user.email }
    }
}

impl vstd::std_specs::convert::FromSpecImpl<User> for SlimUser {
    open spec fn obeys_from_spec() -> bool {
        true
    }

    open spec fn from_spec(user: User) -> Self {
        SlimUser { email: user.email }
    }
}

/// A pending invitation to register, expiring a fixed time after creation.
#[derive(Debug)]
pub struct Invitation {
    pub id: String,
    pub email: String,
    pub expires_at: i64,
}

} // verus!

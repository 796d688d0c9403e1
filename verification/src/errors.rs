//! The error taxonomy of the authorization core.
//!
//! Every per-request failure collapses to a single user-visible
//! `Unauthorized` outcome; an encoding or signature-computation failure is
//! `InternalServerError`; malformed client input is `BadRequest`.
use vstd::prelude::*;
use vstd::string::StringExecFns;

verus! {

#[derive(Debug, PartialEq, Eq)]
pub enum ServiceError {
    InternalServerError,
    BadRequest(String),
    Unauthorized,
}

impl ServiceError {
    /// The user-facing message of this error.
    pub open spec fn spec_message(&self) -> Seq<char> {
        match self {
            ServiceError::InternalServerError => "Internal Server Error"@,
            ServiceError::BadRequest(m) => "BadRequest: "@ + m@,
            ServiceError::Unauthorized => "Unauthorized"@,
        }
    }

    /// Render the error as a message string.
    pub fn message(&self) -> (r: String)
        ensures
            r@ == self.spec_message(),
    {
        match self {
            ServiceError::InternalServerError => "Internal Server Error".to_owned(),
            ServiceError::BadRequest(m) => {
                let mut s = "BadRequest: ".to_owned();
                s.append(m.as_str());
                s
            },
            ServiceError::Unauthorized => "Unauthorized".to_owned(),
        }
    }
}

} // verus!

//! Creating invitations: a registration invitation expires a fixed window
//! after its creation.  The random id and the insert happen at the edge.
use crate::models::Invitation;
use vstd::prelude::*;

verus! {

/// How long an invitation stays valid, in seconds: 24 hours.
pub const INVITATION_VALIDITY_SECONDS: i64 = 86400;

/// The email a client asked to invite.
pub struct CreateInvitation {
    pub email: String,
}

/// Build the invitation for `email` created at `now` under the caller's
/// fresh id: it expires exactly one validity window later.
pub fn new_invitation(id: String, email: String, now: i64) -> (r: Invitation)
    requires
        now + INVITATION_VALIDITY_SECONDS <= i64::MAX,
    ensures
        r.id@ == id@,
        r.email@ == email@,
        r.expires_at == now + INVITATION_VALIDITY_SECONDS,
{
    Invitation { id, email, expires_at: now + INVITATION_VALIDITY_SECONDS }
}

} // verus!

//! The authorization cache and its refresh machinery.
//!
//! `AuthCache` is the verified map from identity to authorization status;
//! `AuthorizedUsers` publishes it behind a reader-writer lock so many
//! request handlers can read while the single refresh task writes;
//! `AuthTrigger` is the flag mutating collaborators raise to force an
//! out-of-cycle reload.
use crate::errors::ServiceError;
use crate::models::User;
use crate::utils::token_accepts;
use crate::utils::ClaimView;
use crate::utils::Token;
use vstd::prelude::*;

verus! {

/// Maximum age, in seconds, of an Authorized entry still treated as fresh:
/// 15 minutes.
pub const FRESHNESS_WINDOW_SECONDS: i64 = 900;

/// The principal a token or cache entry refers to; equality and hashing are
/// by exact string value.
#[derive(Debug)]
pub struct LoggedUser {
    pub email: String,
}

impl Clone for LoggedUser {
    fn clone(&self) -> (r: Self)
        ensures
            r == *self,
    {
        LoggedUser { email: self.email.clone() }
    }
}

impl PartialEq for LoggedUser {
    fn eq(&self, other: &LoggedUser) -> bool {
        self.email == other.email
    }
}

impl vstd::std_specs::cmp::PartialEqSpecImpl for LoggedUser {
    open spec fn obeys_eq_spec() -> bool {
        true
    }

    open spec fn eq_spec(&self, other: &LoggedUser) -> bool {
        self.email@ == other.email@
    }
}

/// The cache's belief about one identity at one point in time.
#[derive(Clone, Copy, Debug, PartialEq, Eq, Structural)]
pub enum AuthStatus {
    Authorized(i64),
    NotAuthorized,
}

/// Whether the entries of a cache carry pairwise distinct identities.
pub open spec fn distinct_emails(s: Seq<(LoggedUser, AuthStatus)>) -> bool {
    forall|i: int, j: int| 0 <= i < j < s.len() ==> s[i].0.email@ != s[j].0.email@
}

/// The map an entry sequence denotes; later entries win, though a
/// well-formed cache never holds a key twice.
pub closed spec fn entries_map(s: Seq<(LoggedUser, AuthStatus)>) -> Map<Seq<char>, AuthStatus>
    decreases s.len(),
{
    if s.len() == 0 {
        Map::empty()
    } else {
        entries_map(s.drop_last()).insert(s.last().0.email@, s.last().1)
    }
}

proof fn lemma_entries_map_contains(s: Seq<(LoggedUser, AuthStatus)>, k: Seq<char>)
    ensures
        entries_map(s).contains_key(k) <==> (exists|i: int|
            0 <= i < s.len() && s[i].0.email@ == k),
    decreases s.len(),
{
    if s.len() > 0 {
        lemma_entries_map_contains(s.drop_last(), k);
        if entries_map(s).contains_key(k) {
            if s.last().0.email@ == k {
                assert(s[s.len() - 1].0.email@ == k);
            } else {
                let i = choose|i: int| 0 <= i < s.drop_last().len() && s.drop_last()[i].0.email@
                    == k;
                assert(s[i].0.email@ == k);
            }
        }
        if exists|i: int| 0 <= i < s.len() && s[i].0.email@ == k {
            let i = choose|i: int| 0 <= i < s.len() && s[i].0.email@ == k;
            if i < s.len() - 1 {
                assert(s.drop_last()[i].0.email@ == k);
            }
        }
    }
}

proof fn lemma_entries_map_value(s: Seq<(LoggedUser, AuthStatus)>, i: int)
    requires
        distinct_emails(s),
        0 <= i < s.len(),
    ensures
        entries_map(s).contains_key(s[i].0.email@),
        entries_map(s)[s[i].0.email@] == s[i].1,
    decreases s.len(),
{
    if i == s.len() - 1 {
    } else {
        assert(distinct_emails(s.drop_last()));
        assert(s.drop_last()[i] == s[i]);
        lemma_entries_map_value(s.drop_last(), i);
        assert(s.last().0.email@ != s[i].0.email@);
    }
}

proof fn lemma_entries_map_update(
    s: Seq<(LoggedUser, AuthStatus)>,
    i: int,
    p: (LoggedUser, AuthStatus),
)
    requires
        distinct_emails(s),
        0 <= i < s.len(),
        p.0.email@ == s[i].0.email@,
    ensures
        entries_map(s.update(i, p)) == entries_map(s).insert(p.0.email@, p.1),
    decreases s.len(),
{
    let s2 = s.update(i, p);
    let k = p.0.email@;
    if i == s.len() - 1 {
        assert(s2.drop_last() =~= s.drop_last());
        assert(s2.last() == p);
        assert(entries_map(s2) == entries_map(s.drop_last()).insert(k, p.1));
        assert(entries_map(s.drop_last()).insert(k, s[i].1).insert(k, p.1) =~= entries_map(
            s.drop_last(),
        ).insert(k, p.1));
    } else {
        assert(s2.drop_last() =~= s.drop_last().update(i, p));
        assert(s2.last() == s.last());
        assert(distinct_emails(s.drop_last()));
        assert(s.drop_last()[i] == s[i]);
        lemma_entries_map_update(s.drop_last(), i, p);
        let lk = s.last().0.email@;
        assert(lk != k);
        assert(entries_map(s2) == entries_map(s.drop_last()).insert(k, p.1).insert(
            lk,
            s.last().1,
        ));
        assert(entries_map(s.drop_last()).insert(k, p.1).insert(lk, s.last().1) =~= entries_map(
            s.drop_last(),
        ).insert(lk, s.last().1).insert(k, p.1));
    }
}

/// The status a store writes: Authorized stamped `now`, or NotAuthorized.
pub open spec fn status_of(is_auth: bool, now: i64) -> AuthStatus {
    if is_auth {
        AuthStatus::Authorized(now)
    } else {
        AuthStatus::NotAuthorized
    }
}

/// Whether `email` is currently allowed in, judged against cache state `m`
/// at time `now`: present, Authorized, and within the freshness window.
pub open spec fn spec_is_authorized(
    m: Map<Seq<char>, AuthStatus>,
    email: Seq<char>,
    now: i64,
) -> bool {
    &&& m.contains_key(email)
    &&& m[email] matches AuthStatus::Authorized(at) && now - at < FRESHNESS_WINDOW_SECONDS
}

/// The verified cache state: a map from identity to status, stored as
/// entries with pairwise distinct identities.
pub struct AuthCache {
    entries: Vec<(LoggedUser, AuthStatus)>,
}

impl View for AuthCache {
    type V = Map<Seq<char>, AuthStatus>;

    closed spec fn view(&self) -> Map<Seq<char>, AuthStatus> {
        entries_map(self.entries@)
    }
}

impl AuthCache {
    /// The cache's structural invariant.
    pub closed spec fn wf(&self) -> bool {
        distinct_emails(self.entries@)
    }

    /// An empty cache.
    pub fn new() -> (r: Self)
        ensures
            r.wf(),
            r@ == Map::<Seq<char>, AuthStatus>::empty(),
    {
        AuthCache { entries: Vec::new() }
    }

    /// The pure read of the request path: true exactly for a fresh
    /// Authorized entry.
    pub fn is_authorized_at(&self, user: &LoggedUser, now: i64) -> (r: bool)
        requires
            self.wf(),
        ensures
            r == spec_is_authorized(self@, user.email@, now),
    {
        let n = self.entries.len();
        let mut k: usize = 0;
        while k < n
            invariant
                n == self.entries@.len(),
                k <= n,
                self.wf(),
                forall|j: int| 0 <= j < k ==> self.entries@[j].0.email@ != user.email@,
            decreases n - k,
        {
            if self.entries[k].0.email == user.email {
                proof {
                    lemma_entries_map_value(self.entries@, k as int);
                }
                match self.entries[k].1 {
                    AuthStatus::Authorized(at) => {
                        return (now as i128) - (at as i128) < (FRESHNESS_WINDOW_SECONDS as i128);
                    },
                    AuthStatus::NotAuthorized => {
                        return false;
                    },
                }
            }
            k += 1;
        }
        proof {
            lemma_entries_map_contains(self.entries@, user.email@);
        }
        false
    }

    /// Upsert one identity's status; the sole writer primitive.
    pub fn store_auth(&mut self, user: LoggedUser, is_auth: bool, now: i64)
        requires
            old(self).wf(),
        ensures
            final(self).wf(),
            final(self)@ == old(self)@.insert(user.email@, status_of(is_auth, now)),
    {
        let status = if is_auth {
            AuthStatus::Authorized(now)
        } else {
            AuthStatus::NotAuthorized
        };
        let n = self.entries.len();
        let mut k: usize = 0;
        while k < n
            invariant
                n == self.entries@.len(),
                k <= n,
                self.wf(),
                self.entries@ == old(self).entries@,
                status == status_of(is_auth, now),
                forall|j: int| 0 <= j < k ==> self.entries@[j].0.email@ != user.email@,
            decreases n - k,
        {
            if self.entries[k].0.email == user.email {
                proof {
                    lemma_entries_map_update(self.entries@, k as int, (user, status));
                }
                let e = &mut self.entries[k];
                *e = (user, status);
                proof {
                    assert(self.entries@ =~= old(self).entries@.update(k as int, (user, status)));
                    assert(distinct_emails(self.entries@));
                    assert(entries_map(self.entries@) == entries_map(old(self).entries@).insert(
                        user.email@,
                        status,
                    ));
                }
                return ;
            }
            k += 1;
        }
        proof {
            lemma_entries_map_contains(self.entries@, user.email@);
        }
        self.entries.push((user, status));
        proof {
            assert(self.entries@.drop_last() =~= old(self).entries@);
            assert(self.entries@.last() == (user, status));
            assert(distinct_emails(self.entries@));
        }
    }
}

/// The set of identities in an authoritative snapshot.
pub open spec fn emails_of(users: Seq<LoggedUser>) -> Set<Seq<char>> {
    Set::new(|k: Seq<char>| exists|i: int| 0 <= i < users.len() && users[i].email@ == k)
}

/// The cache state after merging the authoritative set `ids` at `now`:
/// every identity of `ids` is Authorized stamped `now`; every other cached
/// identity is demoted to NotAuthorized, never deleted.
pub open spec fn spec_merged(
    m: Map<Seq<char>, AuthStatus>,
    ids: Set<Seq<char>>,
    now: i64,
) -> Map<Seq<char>, AuthStatus> {
    Map::new(
        |k: Seq<char>| m.contains_key(k) || ids.contains(k),
        |k: Seq<char>|
            if ids.contains(k) {
                AuthStatus::Authorized(now)
            } else {
                AuthStatus::NotAuthorized
            },
    )
}

fn slice_contains_email(users: &[LoggedUser], email: &String) -> (r: bool)
    ensures
        r == emails_of(users@).contains(email@),
{
    let n = users.len();
    let mut k: usize = 0;
    while k < n
        invariant
            n == users@.len(),
            k <= n,
            forall|j: int| 0 <= j < k ==> users@[j].email@ != email@,
        decreases n - k,
    {
        let u = vstd::slice::slice_index_get(users, k);
        if u.email == *email {
            proof {
                assert(users@[k as int].email@ == email@);
            }
            return true;
        }
        k += 1;
    }
    proof {
        if emails_of(users@).contains(email@) {
            let i = choose|i: int| 0 <= i < users@.len() && users@[i].email@ == email@;
            assert(users@[i].email@ != email@);
        }
    }
    false
}

fn vec_has_email(entries: &Vec<(LoggedUser, AuthStatus)>, email: &String) -> (r: bool)
    ensures
        r == (exists|i: int| 0 <= i < entries@.len() && entries@[i].0.email@ == email@),
{
    let n = entries.len();
    let mut k: usize = 0;
    while k < n
        invariant
            n == entries@.len(),
            k <= n,
            forall|j: int| 0 <= j < k ==> entries@[j].0.email@ != email@,
        decreases n - k,
    {
        if entries[k].0.email == *email {
            proof {
                assert(entries@[k as int].0.email@ == email@);
            }
            return true;
        }
        k += 1;
    }
    false
}

impl AuthCache {
    /// The bulk write of the refresh loop: demotions before promotions, so
    /// an identity present before and after ends Authorized with a fresh
    /// timestamp, and the new generation replaces the old in one step.
    pub fn merge_users(&mut self, users: &[LoggedUser], now: i64)
        requires
            old(self).wf(),
        ensures
            final(self).wf(),
            final(self)@ == spec_merged(old(self)@, emails_of(users@), now),
    {
        let ghost olde = old(self).entries@;
        let ghost ids = emails_of(users@);
        let mut newe: Vec<(LoggedUser, AuthStatus)> = Vec::new();
        let n = self.entries.len();
        let mut k: usize = 0;
        while k < n
            invariant
                n == self.entries@.len(),
                self.entries@ == olde,
                olde == old(self).entries@,
                distinct_emails(olde),
                ids == emails_of(users@),
                k <= n,
                newe@.len() == k,
                forall|j: int| 0 <= j < k ==> newe@[j].0.email@ == olde[j].0.email@,
                forall|j: int|
                    0 <= j < k ==> newe@[j].1 == (if ids.contains(olde[j].0.email@) {
                        AuthStatus::Authorized(now)
                    } else {
                        AuthStatus::NotAuthorized
                    }),
            decreases n - k,
        {
            let inset = slice_contains_email(users, &self.entries[k].0.email);
            let st = if inset {
                AuthStatus::Authorized(now)
            } else {
                AuthStatus::NotAuthorized
            };
            let u = self.entries[k].0.clone();
            newe.push((u, st));
            k += 1;
        }
        let un = users.len();
        let mut j: usize = 0;
        while j < un
            invariant
                un == users@.len(),
                ids == emails_of(users@),
                olde == old(self).entries@,
                distinct_emails(olde),
                j <= un,
                newe@.len() >= olde.len(),
                forall|q: int| 0 <= q < olde.len() ==> newe@[q].0.email@ == olde[q].0.email@,
                forall|q: int|
                    0 <= q < olde.len() ==> newe@[q].1 == (if ids.contains(olde[q].0.email@) {
                        AuthStatus::Authorized(now)
                    } else {
                        AuthStatus::NotAuthorized
                    }),
                forall|q: int|
                    olde.len() <= q < newe@.len() ==> ids.contains(newe@[q].0.email@)
                        && newe@[q].1 == AuthStatus::Authorized(now),
                forall|x: int| #![trigger users@[x]]
                    0 <= x < j ==> (exists|q: int|
                        0 <= q < newe@.len() && newe@[q].0.email@ == users@[x].email@),
                distinct_emails(newe@),
            decreases un - j,
        {
            let ghost pre = newe@;
            let uj = vstd::slice::slice_index_get(users, j);
            let already = vec_has_email(&newe, &uj.email);
            if !already {
                newe.push((uj.clone(), AuthStatus::Authorized(now)));
                proof {
                    assert(newe@ == pre.push((users@[j as int], AuthStatus::Authorized(now))));
                    assert(newe@[newe@.len() - 1].0.email@ == users@[j as int].email@);
                    assert(ids.contains(users@[j as int].email@));
                    assert forall|a: int, b: int|
                        0 <= a < b < newe@.len() implies newe@[a].0.email@
                        != newe@[b].0.email@ by {
                        if b == newe@.len() - 1 {
                            assert(newe@[a] == pre[a]);
                        } else {
                            assert(newe@[a] == pre[a]);
                            assert(newe@[b] == pre[b]);
                        }
                    }
                }
            }
            proof {
                assert forall|x: int| #![trigger users@[x]]
                    0 <= x < j + 1 implies (exists|q: int|
                        0 <= q < newe@.len() && newe@[q].0.email@ == users@[x].email@) by {
                    if x == j {
                        if already {
                            let q = choose|q: int|
                                0 <= q < pre.len() && pre[q].0.email@ == uj.email@;
                            assert(newe@[q].0.email@ == users@[x].email@);
                        } else {
                            assert(newe@[newe@.len() - 1].0.email@ == users@[x].email@);
                        }
                    } else {
                        let q = choose|q: int|
                            0 <= q < pre.len() && pre[q].0.email@ == users@[x].email@;
                        assert(newe@[q].0.email@ == users@[x].email@);
                    }
                }
            }
            j += 1;
        }
        self.entries = newe;
        proof {
            let m0 = entries_map(olde);
            let m1 = entries_map(self.entries@);
            assert forall|kk: Seq<char>| #[trigger] m1.contains_key(kk) implies (m0.contains_key(
                kk,
            ) || ids.contains(kk)) && m1[kk] == (if ids.contains(kk) {
                AuthStatus::Authorized(now)
            } else {
                AuthStatus::NotAuthorized
            }) by {
                lemma_entries_map_contains(self.entries@, kk);
                let i = choose|i: int|
                    0 <= i < self.entries@.len() && self.entries@[i].0.email@ == kk;
                lemma_entries_map_value(self.entries@, i);
                if i < olde.len() {
                    lemma_entries_map_contains(olde, kk);
                    assert(olde[i].0.email@ == kk);
                }
            }
            assert forall|kk: Seq<char>|
                m0.contains_key(kk) || ids.contains(kk) implies #[trigger] m1.contains_key(
                kk,
            ) by {
                lemma_entries_map_contains(self.entries@, kk);
                if m0.contains_key(kk) {
                    lemma_entries_map_contains(olde, kk);
                    let i = choose|i: int| 0 <= i < olde.len() && olde[i].0.email@ == kk;
                    assert(self.entries@[i].0.email@ == kk);
                } else {
                    let x = choose|x: int| 0 <= x < users@.len() && users@[x].email@ == kk;
                    let q = choose|q: int|
                        0 <= q < self.entries@.len() && self.entries@[q].0.email@
                            == users@[x].email@;
                    assert(self.entries@[q].0.email@ == kk);
                }
            }
            assert(m1 =~= spec_merged(m0, ids, now));
        }
    }

    /// A snapshot of every cached identity, each exactly once.
    pub fn get_keys(&self) -> (r: Vec<LoggedUser>)
        requires
            self.wf(),
        ensures
            forall|k: Seq<char>|
                self@.contains_key(k) <==> (exists|i: int|
                    0 <= i < r@.len() && r@[i].email@ == k),
            forall|i: int, j: int| 0 <= i < j < r@.len() ==> r@[i].email@ != r@[j].email@,
    {
        let n = self.entries.len();
        let mut out: Vec<LoggedUser> = Vec::new();
        let mut k: usize = 0;
        while k < n
            invariant
                n == self.entries@.len(),
                k <= n,
                self.wf(),
                out@.len() == k,
                forall|j: int| 0 <= j < k ==> out@[j] == self.entries@[j].0,
            decreases n - k,
        {
            out.push(self.entries[k].0.clone());
            k += 1;
        }
        proof {
            assert forall|kk: Seq<char>| #[trigger] self@.contains_key(kk) implies (exists|i: int|
                0 <= i < out@.len() && out@[i].email@ == kk) by {
                lemma_entries_map_contains(self.entries@, kk);
                let i = choose|i: int|
                    0 <= i < self.entries@.len() && self.entries@[i].0.email@ == kk;
                assert(out@[i].email@ == kk);
            }
            assert forall|kk: Seq<char>|
                (exists|i: int| 0 <= i < out@.len() && out@[i].email@ == kk)
                    implies #[trigger] self@.contains_key(kk) by {
                lemma_entries_map_contains(self.entries@, kk);
                let i = choose|i: int| 0 <= i < out@.len() && out@[i].email@ == kk;
                assert(self.entries@[i].0.email@ == kk);
            }
        }
        out
    }
}

/// After a merge, exactly the identities of the merged set are authorized,
/// immediately and with a fresh timestamp: members are Authorized stamped
/// `now`, and any other identity — cached before or never seen — is not
/// authorized.
pub proof fn lemma_merge_authorizes(
    m: Map<Seq<char>, AuthStatus>,
    ids: Set<Seq<char>>,
    now: i64,
    k: Seq<char>,
)
    ensures
        ids.contains(k) ==> spec_merged(m, ids, now)[k] == AuthStatus::Authorized(now)
            && spec_is_authorized(spec_merged(m, ids, now), k, now),
        !ids.contains(k) ==> !spec_is_authorized(spec_merged(m, ids, now), k, now),
{
}

/// Soft revocation: after a second merge whose set has dropped `k`, the
/// identity `k` is no longer authorized — though still present, demoted —
/// while every identity of the second set is authorized with the second
/// merge's timestamp.
pub proof fn lemma_remerge_revokes(
    m: Map<Seq<char>, AuthStatus>,
    ids1: Set<Seq<char>>,
    ids2: Set<Seq<char>>,
    t1: i64,
    t2: i64,
    k: Seq<char>,
    kept: Seq<char>,
)
    requires
        ids1.contains(k),
        !ids2.contains(k),
        ids2.contains(kept),
    ensures
        !spec_is_authorized(spec_merged(spec_merged(m, ids1, t1), ids2, t2), k, t2),
        spec_merged(spec_merged(m, ids1, t1), ids2, t2).contains_key(k),
        spec_merged(spec_merged(m, ids1, t1), ids2, t2)[k] == AuthStatus::NotAuthorized,
        spec_merged(spec_merged(m, ids1, t1), ids2, t2)[kept] == AuthStatus::Authorized(t2),
        spec_is_authorized(spec_merged(spec_merged(m, ids1, t1), ids2, t2), kept, t2),
{
}

/// Time-based staleness: an Authorized entry whose timestamp is a full
/// freshness window or more in the past reports not-authorized, with no
/// intervening merge.
pub proof fn lemma_stale_entry(m: Map<Seq<char>, AuthStatus>, k: Seq<char>, at: i64, now: i64)
    requires
        m.contains_key(k),
        m[k] == AuthStatus::Authorized(at),
        now - at >= FRESHNESS_WINDOW_SECONDS,
    ensures
        !spec_is_authorized(m, k, now),
{
}

/// The process-wide flag that any mutation of the authoritative store
/// raises to force an out-of-cycle cache reload.
pub struct AuthTrigger {
    flag: bool,
}

impl AuthTrigger {
    /// Whether the trigger is currently raised.
    pub closed spec fn is_set(&self) -> bool {
        self.flag
    }

    /// The trigger starts raised, forcing the first refresh eagerly.
    pub fn new() -> (r: Self)
        ensures
            r.is_set(),
    {
        AuthTrigger { flag: true }
    }

    /// Test and clear: returns the prior state and always leaves the
    /// trigger lowered.
    pub fn check(&mut self) -> (r: bool)
        ensures
            r == old(self).is_set(),
            !final(self).is_set(),
    {
        let r = self.flag;
        self.flag = false;
        r
    }

    /// Raise the trigger; idempotent.
    pub fn set(&mut self)
        ensures
            final(self).is_set(),
    {
        self.flag = true;
    }
}

/// `check` answers true exactly once per `set`: over any run of checks
/// that starts with the trigger raised, the first check returns true and
/// every later one returns false, until the next set.  The states `ts` are
/// the trigger before and after each check, and the hypotheses are
/// precisely `check`'s contract at each step.
pub proof fn lemma_trigger_exactly_once(ts: Seq<AuthTrigger>, rs: Seq<bool>)
    requires
        ts.len() == rs.len() + 1,
        rs.len() >= 1,
        ts[0].is_set(),
        forall|i: int| #![trigger rs[i]]
            0 <= i < rs.len() ==> rs[i] == ts[i].is_set(),
        forall|i: int| #![trigger ts[i]]
            1 <= i < ts.len() ==> !ts[i].is_set(),
    ensures
        rs[0],
        forall|i: int| 1 <= i < rs.len() ==> !rs[i],
{
    assert forall|i: int| 1 <= i < rs.len() implies !rs[i] by {
        assert(rs[i] == ts[i].is_set());
        assert(!ts[i].is_set());
    }
}

/// The predicate every cache generation behind the lock satisfies.
pub struct CachePred {}

impl vstd::rwlock::RwLockPredicate<AuthCache> for CachePred {
    open spec fn inv(self, v: AuthCache) -> bool {
        v.wf()
    }
}

/// The shared authorization cache: a single writer (the refresh task)
/// publishes complete generations through a reader-writer lock, and many
/// concurrent request handlers read without blocking one another.  A reader
/// always sees one fully published generation, never a partially applied
/// merge.
pub struct AuthorizedUsers {
    lock: vstd::rwlock::RwLock<AuthCache, CachePred>,
}

impl AuthorizedUsers {
    /// An empty shared cache.
    pub fn new() -> Self {
        AuthorizedUsers { lock: vstd::rwlock::RwLock::new(AuthCache::new(), Ghost(CachePred {})) }
    }

    /// The hot-path read: judged against the one generation published at
    /// the time of the call.  What the answer means for that generation is
    /// `AuthCache::is_authorized_at`'s contract.
    pub fn is_authorized(&self, user: &LoggedUser, now: i64) -> (r: bool)
        ensures
            exists|m: Map<Seq<char>, AuthStatus>| r == spec_is_authorized(m, user.email@, now),
    {
        let handle = self.lock.acquire_read();
        let cache = handle.borrow();
        let r = cache.is_authorized_at(user, now);
        proof {
            assert(r == spec_is_authorized(cache@, user.email@, now));
        }
        handle.release_read();
        r
    }

    /// Writer-side upsert of one identity, published atomically.
    pub fn store_auth(&self, user: LoggedUser, is_auth: bool, now: i64) {
        let (mut cache, write_handle) = self.lock.acquire_write();
        cache.store_auth(user, is_auth, now);
        write_handle.release_write(cache);
    }

    /// The sole bulk write: merge the full authoritative identity set and
    /// publish the merged generation in one step, so no reader observes a
    /// partially applied merge.  What the merge does to the published state
    /// is `AuthCache::merge_users`'s contract.
    pub fn merge_users(&self, users: &[LoggedUser], now: i64) {
        let (mut cache, write_handle) = self.lock.acquire_write();
        cache.merge_users(users, now);
        write_handle.release_write(cache);
    }

    /// Every cached identity, read from one consistent snapshot.
    pub fn get_keys(&self) -> (r: Vec<LoggedUser>)
        ensures
            forall|i: int, j: int| 0 <= i < j < r@.len() ==> r@[i].email@ != r@[j].email@,
    {
        let handle = self.lock.acquire_read();
        let r = handle.borrow().get_keys();
        handle.release_read();
        r
    }
}

/// The per-request decision against one cache generation: verify the
/// token's signature and expiry, then require this generation to hold the
/// identity fresh.  Success is owed exactly when some accepted claim's
/// identity is authorized in the generation — so a revoked-but-unexpired
/// token is rejected.  Every failure is the uniform `Unauthorized`.
pub fn authorize_at(token: &Token, secret: &[u8], cache: &AuthCache, now: i64) -> (r: Result<
    LoggedUser,
    ServiceError,
>)
    requires
        cache.wf(),
    ensures
        r matches Ok(u) ==> (exists|c: ClaimView|
            token_accepts(token@, secret@, now, c) && c.email == u.email@) && spec_is_authorized(
            cache@,
            u.email@,
            now,
        ),
        forall|c: ClaimView|
            token_accepts(token@, secret@, now, c) && spec_is_authorized(cache@, c.email, now)
                ==> (r matches Ok(u) && u.email@ == c.email),
        r matches Err(e) ==> e == ServiceError::Unauthorized,
{
    match Token::decode_token(token, secret, now) {
        Ok(claim) => {
            let ghost cv = claim@;
            let user = LoggedUser { email: claim.get_email() };
            let fresh = cache.is_authorized_at(&user, now);
            if fresh {
                proof {
                    assert(token_accepts(token@, secret@, now, cv) && cv.email == user.email@);
                    assert(exists|c: ClaimView|
                        token_accepts(token@, secret@, now, c) && c.email == user.email@);
                }
                Ok(user)
            } else {
                proof {
                    assert forall|c: ClaimView|
                        token_accepts(token@, secret@, now, c) && spec_is_authorized(
                            cache@,
                            c.email,
                            now,
                        ) implies false by {
                        assert(c == cv);
                    }
                }
                Err(ServiceError::Unauthorized)
            }
        },
        Err(_) => Err(ServiceError::Unauthorized),
    }
}

/// The per-request decision on the shared cache: the same check as
/// `authorize_at`, run under a read handle against the one generation
/// published at the time of the call — which is `authorize_at`'s exact
/// contract.  Every failure is the uniform `Unauthorized`.
pub fn authorize(token: &Token, secret: &[u8], cache: &AuthorizedUsers, now: i64) -> (r: Result<
    LoggedUser,
    ServiceError,
>)
    ensures
        r matches Ok(u) ==> (exists|c: ClaimView|
            token_accepts(token@, secret@, now, c) && c.email == u.email@),
        r matches Err(e) ==> e == ServiceError::Unauthorized,
        (forall|c: ClaimView| !token_accepts(token@, secret@, now, c)) ==> r is Err,
{
    let handle = cache.lock.acquire_read();
    let generation = handle.borrow();
    let r = authorize_at(token, secret, generation, now);
    handle.release_read();
    r
}

/// Project an authoritative user record onto the identity the cache keys.
pub fn users_to_logged(users: &[User]) -> (r: Vec<LoggedUser>)
    ensures
        r@.len() == users@.len(),
        forall|i: int| 0 <= i < r@.len() ==> r@[i].email@ == users@[i].email@,
{
    let n = users.len();
    let mut out: Vec<LoggedUser> = Vec::new();
    let mut k: usize = 0;
    while k < n
        invariant
            n == users@.len(),
            k <= n,
            out@.len() == k,
            forall|i: int| 0 <= i < k ==> out@[i].email@ == users@[i].email@,
        decreases n - k,
    {
        let u = vstd::slice::slice_index_get(users, k);
        out.push(LoggedUser { email: u.email.clone() });
        k += 1;
    }
    out
}

/// The set of identities in an authoritative snapshot of user records.
pub open spec fn user_emails(users: Seq<User>) -> Set<Seq<char>> {
    Set::new(|k: Seq<char>| exists|i: int| 0 <= i < users.len() && users[i].email@ == k)
}

impl AuthCache {
    /// One refresh cycle against this cache state: a failed fetch (`None`)
    /// skips the cycle and leaves the state untouched; a successful fetch
    /// merges the full identity set.  Returns whether a merge ran.
    pub fn apply_refresh(&mut self, fetched: Option<&[User]>, now: i64) -> (r: bool)
        requires
            old(self).wf(),
        ensures
            final(self).wf(),
            r == fetched is Some,
            fetched matches Some(users) ==> final(self)@ == spec_merged(
                old(self)@,
                user_emails(users@),
                now,
            ),
            fetched is None ==> final(self)@ == old(self)@,
    {
        match fetched {
            Some(users) => {
                let logged = users_to_logged(users);
                self.merge_users(logged.as_slice(), now);
                proof {
                    assert forall|k: Seq<char>|
                        emails_of(logged@).contains(k) == user_emails(users@).contains(k) by {
                        if emails_of(logged@).contains(k) {
                            let i = choose|i: int|
                                0 <= i < logged@.len() && logged@[i].email@ == k;
                            assert(users@[i].email@ == k);
                        }
                        if user_emails(users@).contains(k) {
                            let i = choose|i: int| 0 <= i < users@.len() && users@[i].email@ == k;
                            assert(logged@[i].email@ == k);
                        }
                    }
                    assert(emails_of(logged@) =~= user_emails(users@));
                }
                true
            },
            None => false,
        }
    }
}

/// One refresh cycle on the shared cache, after the authoritative store
/// has answered.  `None` means the fetch failed: the cycle is skipped and
/// the cache keeps serving its last published generation.  `Some` merges
/// the full identity set and publishes the new generation in one step;
/// what that does to the published state is `AuthCache::apply_refresh`'s
/// contract.  Returns whether a merge ran.
pub fn fill_auth_from_fetch(cache: &AuthorizedUsers, fetched: Option<&[User]>, now: i64) -> (r:
    bool)
    ensures
        r == fetched is Some,
{
    match fetched {
        Some(users) => {
            let logged = users_to_logged(users);
            cache.merge_users(logged.as_slice(), now);
            true
        },
        None => false,
    }
}

} // verus!

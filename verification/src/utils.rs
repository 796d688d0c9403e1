//! The token codec: signed, time-bounded claims and the opaque token strings
//! that carry them, plus password hashing.
//!
//! A token is the base64url encoding of the canonical claim bytes, a dot,
//! and the base64url HMAC-SHA256 signature of those bytes.  Verification
//! recomputes the signature, compares, and checks expiry; every failure is
//! reported uniformly as `Unauthorized` so callers cannot tell why a token
//! was rejected.
use crate::codec::encodable;
use crate::codec::encode_fields;
use crate::codec::fields_bytes;
use crate::codec::fields_hyp;
use crate::codec::parse_fields;
use crate::errors::ServiceError;
use crate::models::SlimUser;
use vstd::prelude::*;
use vstd::string::StrSliceExecFns;
use vstd::string::StringExecFns;

verus! {

/// Fixed validity window of a token, in seconds: 24 hours.
pub const TOKEN_VALIDITY_SECONDS: i64 = 86400;

/// The default bcrypt work factor, matching bcrypt's own default.
pub const DEFAULT_HASH_COST: u32 = 12;

/// The mathematical content of a claim.
pub ghost struct ClaimView {
    pub iss: Seq<char>,
    pub sub: Seq<char>,
    pub iat: i64,
    pub exp: i64,
    pub email: Seq<char>,
}

/// A signed, time-bounded assertion that an identity may hold a session.
/// Claims are created once at issuance and never mutated.
pub struct Claim {
    iss: String,
    sub: String,
    iat: i64,
    exp: i64,
    email: String,
}

impl View for Claim {
    type V = ClaimView;

    closed spec fn view(&self) -> ClaimView {
        ClaimView {
            iss: self.iss@,
            sub: self.sub@,
            iat: self.iat,
            exp: self.exp,
            email: self.email@,
        }
    }
}

/// The claim issued at `now` for `email` by the service at `domain`:
/// subject is the fixed auth marker, expiry is issued-at plus the window.
pub open spec fn spec_claim_of(domain: Seq<char>, email: Seq<char>, now: i64) -> ClaimView {
    ClaimView {
        iss: domain,
        sub: "auth"@,
        iat: now,
        exp: (now + TOKEN_VALIDITY_SECONDS) as i64,
        email: email,
    }
}

/// A claim whose string fields all fit length-prefixed encoding.
pub open spec fn wf_claim(c: ClaimView) -> bool {
    encodable(c.iss) && encodable(c.sub) && encodable(c.email)
}

/// The canonical byte encoding of a claim.
pub open spec fn spec_claim_bytes(c: ClaimView) -> Seq<u8> {
    fields_bytes(c.iss, c.sub, c.email, c.iat, c.exp)
}

impl Claim {
    fn with_email(email: &str, domain: &str, now: i64) -> (r: Self)
        requires
            now + TOKEN_VALIDITY_SECONDS <= i64::MAX,
        ensures
            r@ == spec_claim_of(domain@, email@, now),
    {
        Claim {
            iss: domain.to_owned(),
            sub: "auth".to_owned(),
            iat: now,
            exp: now + TOKEN_VALIDITY_SECONDS,
            email: email.to_owned(),
        }
    }

    /// The identity this claim asserts.
    pub fn get_email(self) -> (r: String)
        ensures
            r@ == self@.email,
    {
        self.email
    }

    /// When this claim was issued, in seconds since the epoch.
    pub fn issued_at(&self) -> (r: i64)
        ensures
            r == self@.iat,
    {
        self.iat
    }

    /// When this claim expires, in seconds since the epoch.
    pub fn expires_at(&self) -> (r: i64)
        ensures
            r == self@.exp,
    {
        self.exp
    }
}

/// The HMAC-SHA256 signature of a message under a secret, base64url encoded.
pub uninterp spec fn hs256_sig_of(msg: Seq<u8>, secret: Seq<u8>) -> Seq<char>;

/// Relies on jsonwebtoken's `crypto::sign` with `Algorithm::HS256` and a key
/// from `EncodingKey::from_secret`: for that configuration every arm returns
/// `Ok` (HMAC accepts keys of any length), the signature is a deterministic
/// function of message and secret alone, and it is returned base64url
/// encoded (URL_SAFE_NO_PAD), whose alphabet has no '.'.  jsonwebtoken
/// resolves its backend through a process-wide `CryptoProvider` default;
/// this contract assumes the crate's own RustCrypto HMAC backend, i.e. that
/// the host process does not install a different provider.
#[verifier::external_body]
fn hs256_sign(msg: &[u8], secret: &[u8]) -> (r: String)
    ensures
        r@ == hs256_sig_of(msg@, secret@),
        !r@.contains('.'),
{
    jsonwebtoken::crypto::sign(
        msg,
        &jsonwebtoken::EncodingKey::from_secret(secret),
        jsonwebtoken::Algorithm::HS256,
    ).expect("HMAC signing cannot fail")
}

/// The base64url (URL_SAFE_NO_PAD) encoding of a byte string.
pub uninterp spec fn b64url_of(b: Seq<u8>) -> Seq<char>;

/// Relies on base64's `URL_SAFE_NO_PAD` engine: encoding is a deterministic
/// function of the bytes, and its alphabet (A-Z, a-z, 0-9, '-', '_') has
/// no '.'.
#[verifier::external_body]
fn b64url_encode(b: &[u8]) -> (r: String)
    ensures
        r@ == b64url_of(b@),
        !r@.contains('.'),
{
    base64::Engine::encode(&base64::engine::general_purpose::URL_SAFE_NO_PAD, b)
}

/// Relies on base64's `URL_SAFE_NO_PAD` engine in its default strict
/// configuration (padding refused, non-canonical trailing bits refused):
/// decoding succeeds exactly on the strings the encoder produces, and
/// inverts it.
#[verifier::external_body]
fn b64url_decode(s: &str) -> (r: Option<Vec<u8>>)
    ensures
        r matches Some(v) ==> s@ == b64url_of(v@) && (forall|b: Seq<u8>|
            s@ == b64url_of(b) ==> v@ == b),
        r is None ==> (forall|b: Seq<u8>| s@ != b64url_of(b)),
{
    match base64::Engine::decode(&base64::engine::general_purpose::URL_SAFE_NO_PAD, s) {
        Ok(v) => Some(v),
        Err(_) => None,
    }
}

/// An opaque signed token string.
#[derive(Debug)]
pub struct Token(String);

impl View for Token {
    type V = Seq<char>;

    closed spec fn view(&self) -> Seq<char> {
        self.0@
    }
}

/// The token string issued for claim `c` under `secret`.
pub open spec fn spec_token_chars(c: ClaimView, secret: Seq<u8>) -> Seq<char> {
    b64url_of(spec_claim_bytes(c)) + seq!['.'] + hs256_sig_of(spec_claim_bytes(c), secret)
}

/// Everything issuance guarantees of a token it returned for claim `c`:
/// the token is payload, dot, signature, and neither part contains a dot.
pub open spec fn issued_token(t: Seq<char>, c: ClaimView, secret: Seq<u8>) -> bool {
    &&& t == spec_token_chars(c, secret)
    &&& !b64url_of(spec_claim_bytes(c)).contains('.')
    &&& !hs256_sig_of(spec_claim_bytes(c), secret).contains('.')
    &&& wf_claim(c)
}

/// `i` is the position of the first dot in `t`.
pub open spec fn first_dot_at(t: Seq<char>, i: int) -> bool {
    &&& 0 <= i < t.len()
    &&& t[i] == '.'
    &&& forall|j: int| 0 <= j < i ==> t[j] != '.'
}

/// Verification's acceptance condition at time `now`: split at the first
/// dot, the head is the encoding of `c`'s canonical bytes, the tail is their
/// signature under `secret`, and `c` has not expired.
pub open spec fn token_accepts(t: Seq<char>, secret: Seq<u8>, now: i64, c: ClaimView) -> bool {
    &&& wf_claim(c)
    &&& exists|i: int|
        first_dot_at(t, i) && t.subrange(0, i) == b64url_of(spec_claim_bytes(c)) && t.subrange(
            i + 1,
            t.len() as int,
        ) == hs256_sig_of(spec_claim_bytes(c), secret)
    &&& now < c.exp
}

/// A sequence has at most one first dot.
pub proof fn lemma_first_dot_unique(t: Seq<char>, i: int, j: int)
    requires
        first_dot_at(t, i),
        first_dot_at(t, j),
    ensures
        i == j,
{
    if i < j {
        assert(t[i] != '.');
    }
    if j < i {
        assert(t[j] != '.');
    }
}

/// An issued token splits at the first dot into its payload and signature.
pub proof fn lemma_issued_first_dot(t: Seq<char>, c: ClaimView, secret: Seq<u8>)
    requires
        issued_token(t, c, secret),
    ensures
        first_dot_at(t, b64url_of(spec_claim_bytes(c)).len() as int),
        t.subrange(0, b64url_of(spec_claim_bytes(c)).len() as int) == b64url_of(
            spec_claim_bytes(c),
        ),
        t.subrange((b64url_of(spec_claim_bytes(c)).len() + 1) as int, t.len() as int) == hs256_sig_of(
            spec_claim_bytes(c),
            secret,
        ),
{
    let a = b64url_of(spec_claim_bytes(c));
    let b = hs256_sig_of(spec_claim_bytes(c), secret);
    let n = a.len() as int;
    assert(t.subrange(0, n) =~= a);
    assert(t.subrange(n + 1, t.len() as int) =~= b);
    assert forall|j: int| 0 <= j < n implies t[j] != '.' by {
        assert(t[j] == a[j]);
        assert(!a.contains('.'));
        assert(a[j] != '.') by {
            if a[j] == '.' {
                assert(a.contains('.'));
            }
        }
    }
}

/// A token that issuance produced for a claim is accepted at any time
/// before that claim's expiry.
pub proof fn lemma_issued_accepts(t: Seq<char>, c: ClaimView, secret: Seq<u8>, now: i64)
    requires
        issued_token(t, c, secret),
        now < c.exp,
    ensures
        token_accepts(t, secret, now, c),
{
    lemma_issued_first_dot(t, c, secret);
    let n = b64url_of(spec_claim_bytes(c)).len() as int;
    assert(first_dot_at(t, n) && t.subrange(0, n) == b64url_of(spec_claim_bytes(c)) && t.subrange(
        n + 1,
        t.len() as int,
    ) == hs256_sig_of(spec_claim_bytes(c), secret));
}

impl Token {
    /// Wrap a raw token string received from the client.
    pub fn from_string(s: String) -> (r: Self)
        ensures
            r@ == s@,
    {
        Token(s)
    }

    /// The raw token string, for transport.
    pub fn into_string(self) -> (r: String)
        ensures
            r@ == self@,
    {
        self.0
    }

    /// Borrow the raw token string.
    pub fn as_str(&self) -> (r: &str)
        ensures
            r@ == self@,
    {
        self.0.as_str()
    }

    /// Issue a signed token asserting `data`'s identity, issued at `now` by
    /// the service at `domain`.
    pub fn create_token(data: &SlimUser, domain: &str, secret: &[u8], now: i64) -> (r: Result<
        Token,
        ServiceError,
    >)
        requires
            now + TOKEN_VALIDITY_SECONDS <= i64::MAX,
        ensures
            r matches Ok(t) && issued_token(
                t@,
                spec_claim_of(domain@, data.email@, now),
                secret@,
            ),
    {
        let claim = Claim::with_email(data.email.as_str(), domain, now);
        let payload = encode_fields(
            claim.iss.as_str(),
            claim.sub.as_str(),
            claim.email.as_str(),
            claim.iat,
            claim.exp,
        );
        let head = b64url_encode(payload.as_slice());
        let sig = hs256_sign(payload.as_slice(), secret);
        let mut t = head;
        t.append(".");
        t.append(sig.as_str());
        proof {
            reveal_strlit(".");
            assert(t@ =~= spec_token_chars(spec_claim_of(domain@, data.email@, now), secret@));
        }
        Ok(Token(t))
    }
}

fn find_dot(s: &str) -> (r: Option<usize>)
    ensures
        r matches Some(i) ==> first_dot_at(s@, i as int),
        r is None ==> (forall|j: int| 0 <= j < s@.len() ==> s@[j] != '.'),
{
    let n = s.unicode_len();
    let mut k: usize = 0;
    while k < n
        invariant
            n == s@.len(),
            k <= n,
            forall|j: int| 0 <= j < k ==> s@[j] != '.',
        decreases n - k,
    {
        let c = s.get_char(k);
        if c == '.' {
            return Some(k);
        }
        k += 1;
    }
    None
}

impl Token {
    /// Verify a presented token against `secret` at time `now`: recompute
    /// the signature over the decoded payload, compare, and check expiry.
    /// Every failure is the uniform `Unauthorized`; a token that
    /// `create_token` issued is accepted exactly while its claim is
    /// unexpired, and then yields that claim.
    pub fn decode_token(token: &Token, secret: &[u8], now: i64) -> (r: Result<Claim, ServiceError>)
        ensures
            r matches Ok(c) ==> token_accepts(token@, secret@, now, c@),
            r matches Ok(c) ==> (forall|c2: ClaimView|
                token_accepts(token@, secret@, now, c2) ==> c2 == c@),
            r matches Err(e) ==> e == ServiceError::Unauthorized,
            r is Err ==> (forall|c: ClaimView| !token_accepts(token@, secret@, now, c)),
            forall|c: ClaimView|
                issued_token(token@, c, secret@) ==> (if now < c.exp {
                    r matches Ok(cl) && cl@ == c
                } else {
                    r is Err
                }),
    {
        let ghost t = token@;
        let s = token.as_str();
        let n = s.unicode_len();
        let i = match find_dot(s) {
            Some(i) => i,
            None => {
                proof {
                    assert forall|c: ClaimView| token_accepts(t, secret@, now, c) implies false by {
                        let i0 = choose|i0: int|
                            first_dot_at(t, i0) && t.subrange(0, i0) == b64url_of(
                                spec_claim_bytes(c),
                            ) && t.subrange(i0 + 1, t.len() as int) == hs256_sig_of(
                                spec_claim_bytes(c),
                                secret@,
                            );
                        assert(t[i0] == '.');
                    }
                    assert forall|c: ClaimView|
                        issued_token(t, c, secret@) && now < c.exp implies false by {
                        lemma_issued_accepts(t, c, secret@, now);
                    }
                }
                return Err(ServiceError::Unauthorized);
            },
        };
        let head = s.substring_char(0, i);
        let tail = s.substring_char(i + 1, n);
        let payload = match b64url_decode(head) {
            Some(v) => v,
            None => {
                proof {
                    assert forall|c: ClaimView| token_accepts(t, secret@, now, c) implies false by {
                        let i0 = choose|i0: int|
                            first_dot_at(t, i0) && t.subrange(0, i0) == b64url_of(
                                spec_claim_bytes(c),
                            ) && t.subrange(i0 + 1, t.len() as int) == hs256_sig_of(
                                spec_claim_bytes(c),
                                secret@,
                            );
                        lemma_first_dot_unique(t, i0, i as int);
                        assert(head@ == b64url_of(spec_claim_bytes(c)));
                    }
                    assert forall|c: ClaimView|
                        issued_token(t, c, secret@) && now < c.exp implies false by {
                        lemma_issued_accepts(t, c, secret@, now);
                    }
                }
                return Err(ServiceError::Unauthorized);
            },
        };
        let fields = match parse_fields(payload.as_slice()) {
            Some(f) => f,
            None => {
                proof {
                    assert forall|c: ClaimView| token_accepts(t, secret@, now, c) implies false by {
                        let i0 = choose|i0: int|
                            first_dot_at(t, i0) && t.subrange(0, i0) == b64url_of(
                                spec_claim_bytes(c),
                            ) && t.subrange(i0 + 1, t.len() as int) == hs256_sig_of(
                                spec_claim_bytes(c),
                                secret@,
                            );
                        lemma_first_dot_unique(t, i0, i as int);
                        assert(head@ == b64url_of(spec_claim_bytes(c)));
                        assert(payload@ == spec_claim_bytes(c));
                        assert(fields_hyp(payload@, c.iss, c.sub, c.email, c.iat, c.exp));
                    }
                    assert forall|c: ClaimView|
                        issued_token(t, c, secret@) && now < c.exp implies false by {
                        lemma_issued_accepts(t, c, secret@, now);
                    }
                }
                return Err(ServiceError::Unauthorized);
            },
        };
        let sig2 = hs256_sign(payload.as_slice(), secret);
        let tail_s = tail.to_owned();
        if !(tail_s == sig2) {
            proof {
                assert forall|c: ClaimView| token_accepts(t, secret@, now, c) implies false by {
                    let i0 = choose|i0: int|
                        first_dot_at(t, i0) && t.subrange(0, i0) == b64url_of(spec_claim_bytes(c))
                            && t.subrange(i0 + 1, t.len() as int) == hs256_sig_of(
                            spec_claim_bytes(c),
                            secret@,
                        );
                    lemma_first_dot_unique(t, i0, i as int);
                    assert(head@ == b64url_of(spec_claim_bytes(c)));
                    assert(payload@ == spec_claim_bytes(c));
                    assert(tail@ == hs256_sig_of(spec_claim_bytes(c), secret@));
                    assert(sig2@ == hs256_sig_of(payload@, secret@));
                }
                assert forall|c: ClaimView|
                    issued_token(t, c, secret@) && now < c.exp implies false by {
                    lemma_issued_accepts(t, c, secret@, now);
                }
            }
            return Err(ServiceError::Unauthorized);
        }
        let iat = fields.3;
        let exp = fields.4;
        let claim = Claim { iss: fields.0, sub: fields.1, iat, exp, email: fields.2 };
        if now < exp {
            proof {
                assert(payload@ == spec_claim_bytes(claim@));
                assert(first_dot_at(t, i as int) && t.subrange(0, i as int) == b64url_of(
                    spec_claim_bytes(claim@),
                ) && t.subrange(i as int + 1, t.len() as int) == hs256_sig_of(
                    spec_claim_bytes(claim@),
                    secret@,
                ));
                assert(token_accepts(t, secret@, now, claim@));
                assert forall|c: ClaimView| token_accepts(t, secret@, now, c) implies c
                    == claim@ by {
                    let i0 = choose|i0: int|
                        first_dot_at(t, i0) && t.subrange(0, i0) == b64url_of(spec_claim_bytes(c))
                            && t.subrange(i0 + 1, t.len() as int) == hs256_sig_of(
                            spec_claim_bytes(c),
                            secret@,
                        );
                    lemma_first_dot_unique(t, i0, i as int);
                    assert(head@ == b64url_of(spec_claim_bytes(c)));
                    assert(payload@ == spec_claim_bytes(c));
                    assert(fields_hyp(payload@, c.iss, c.sub, c.email, c.iat, c.exp));
                }
                assert forall|c: ClaimView| issued_token(t, c, secret@) implies claim@ == c by {
                    lemma_issued_first_dot(t, c, secret@);
                    lemma_first_dot_unique(
                        t,
                        b64url_of(spec_claim_bytes(c)).len() as int,
                        i as int,
                    );
                    assert(head@ == b64url_of(spec_claim_bytes(c)));
                    assert(payload@ == spec_claim_bytes(c));
                    assert(fields_hyp(payload@, c.iss, c.sub, c.email, c.iat, c.exp));
                }
            }
            Ok(claim)
        } else {
            proof {
                assert forall|c: ClaimView| token_accepts(t, secret@, now, c) implies false by {
                    let i0 = choose|i0: int|
                        first_dot_at(t, i0) && t.subrange(0, i0) == b64url_of(spec_claim_bytes(c))
                            && t.subrange(i0 + 1, t.len() as int) == hs256_sig_of(
                            spec_claim_bytes(c),
                            secret@,
                        );
                    lemma_first_dot_unique(t, i0, i as int);
                    assert(head@ == b64url_of(spec_claim_bytes(c)));
                    assert(payload@ == spec_claim_bytes(c));
                    assert(fields_hyp(payload@, c.iss, c.sub, c.email, c.iat, c.exp));
                }
                assert forall|c: ClaimView|
                    issued_token(t, c, secret@) && now < c.exp implies false by {
                    lemma_issued_accepts(t, c, secret@, now);
                }
            }
            Err(ServiceError::Unauthorized)
        }
    }
}

/// Issue-then-verify round trip: a token issued for an identity is
/// accepted at issuance time, for exactly the claim that was issued — so
/// verification returns a claim whose identity is the one the token was
/// issued for (`decode_token`'s contract turns acceptance into `Ok`).
pub proof fn lemma_issue_then_verify(
    t: Seq<char>,
    domain: Seq<char>,
    email: Seq<char>,
    secret: Seq<u8>,
    now: i64,
)
    requires
        issued_token(t, spec_claim_of(domain, email, now), secret),
        now + TOKEN_VALIDITY_SECONDS <= i64::MAX,
    ensures
        token_accepts(t, secret, now, spec_claim_of(domain, email, now)),
        spec_claim_of(domain, email, now).email == email,
{
    lemma_issued_accepts(t, spec_claim_of(domain, email, now), secret, now);
}

/// The expiry boundary of an issued claim: expiry is exactly issued-at
/// plus the validity window; one second before the window ends the claim
/// is still unexpired, while at the boundary itself — and any later — it
/// is expired, since the comparison `now < exp` is strict.
pub proof fn lemma_expiry_boundary(domain: Seq<char>, email: Seq<char>, iat: i64)
    requires
        iat + TOKEN_VALIDITY_SECONDS <= i64::MAX,
    ensures
        spec_claim_of(domain, email, iat).exp == iat + TOKEN_VALIDITY_SECONDS,
        iat + TOKEN_VALIDITY_SECONDS - 1 < spec_claim_of(domain, email, iat).exp,
        !(iat + TOKEN_VALIDITY_SECONDS < spec_claim_of(domain, email, iat).exp),
        !(iat + TOKEN_VALIDITY_SECONDS + 1 < spec_claim_of(domain, email, iat).exp),
{
}

/// Whether `c` is a decimal digit.
pub open spec fn is_dec_digit(c: char) -> bool {
    48 <= c as int <= 57
}

/// The value of a decimal digit.
pub open spec fn digit_val(c: char) -> int {
    c as int - 48
}

/// The value of a big-endian string of decimal digits.
pub open spec fn digits_val(s: Seq<char>) -> int
    decreases s.len(),
{
    if s.len() == 0 {
        0
    } else {
        digits_val(s.drop_last()) * 10 + digit_val(s.last())
    }
}

/// Whether every character of `s` is a decimal digit.
pub open spec fn all_digits(s: Seq<char>) -> bool {
    forall|i: int| 0 <= i < s.len() ==> is_dec_digit(s[i])
}

/// The digit part of a decimal numeral: everything after an optional
/// leading plus sign.
pub open spec fn digit_part(s: Seq<char>) -> Seq<char> {
    if s.len() > 0 && s[0] == '+' {
        s.subrange(1, s.len() as int)
    } else {
        s
    }
}

/// What parsing an unsigned 32-bit decimal numeral returns: the value of
/// the digits after an optional leading '+', if there is at least one digit,
/// nothing else follows, and the value fits.
pub open spec fn spec_parse_u32(s: Seq<char>) -> Option<u32> {
    let d = digit_part(s);
    if d.len() > 0 && all_digits(d) && digits_val(d) <= u32::MAX {
        Some(digits_val(d) as u32)
    } else {
        None
    }
}

proof fn lemma_digits_val_nonneg(s: Seq<char>)
    requires
        all_digits(s),
    ensures
        digits_val(s) >= 0,
    decreases s.len(),
{
    if s.len() > 0 {
        assert(all_digits(s.drop_last()));
        lemma_digits_val_nonneg(s.drop_last());
    }
}

/// Parse an unsigned 32-bit decimal numeral, as the original's
/// configuration parsing did.
pub fn parse_u32(s: &str) -> (r: Option<u32>)
    ensures
        r == spec_parse_u32(s@),
{
    let ghost d = digit_part(s@);
    let n = s.unicode_len();
    let mut start: usize = 0;
    if n > 0 && s.get_char(0) == '+' {
        start = 1;
    }
    if start >= n {
        return None;
    }
    let mut acc: u64 = 0;
    let mut k = start;
    while k < n
        invariant
            start <= k <= n,
            n == s@.len(),
            start == (if s@.len() > 0 && s@[0] == '+' {
                1int
            } else {
                0int
            }),
            d == digit_part(s@),
            d.len() == n - start,
            forall|j: int| 0 <= j < d.len() ==> d[j] == s@[start + j],
            all_digits(d.subrange(0, k - start)),
            acc <= 0x1_0000_0000u64,
            digits_val(d.subrange(0, k - start)) <= u32::MAX ==> acc == digits_val(
                d.subrange(0, k - start),
            ),
            digits_val(d.subrange(0, k - start)) > u32::MAX ==> acc == 0x1_0000_0000u64,
        decreases n - k,
    {
        let c = s.get_char(k);
        let v = c as u32;
        if v < 48 || v > 57 {
            proof {
                assert(d[k - start] == s@[k as int]);
                assert(!is_dec_digit(d[k - start]));
            }
            return None;
        }
        let dv = (v - 48) as u64;
        let ghost pre = d.subrange(0, k - start);
        let ghost post = d.subrange(0, k + 1 - start);
        proof {
            assert(post.drop_last() =~= pre);
            assert(post.last() == d[k - start]);
            assert(d[k - start] == s@[k as int]);
            assert(all_digits(post));
            lemma_digits_val_nonneg(pre);
            assert(digits_val(post) == digits_val(pre) * 10 + digit_val(post.last()));
        }
        if acc <= 0xFFFF_FFFFu64 {
            acc = acc * 10 + dv;
            if acc > 0xFFFF_FFFFu64 {
                acc = 0x1_0000_0000u64;
            }
        } else {
            proof {
                assert(digits_val(pre) > u32::MAX);
                assert(digits_val(post) > u32::MAX);
            }
        }
        k += 1;
    }
    proof {
        assert(d.subrange(0, k - start) =~= d);
    }
    if acc <= 0xFFFF_FFFFu64 {
        Some(acc as u32)
    } else {
        None
    }
}

/// The hashing work factor: a configured numeral if it parses, else the
/// default, exactly as the original read its configuration.
pub fn hashing_cost(configured: Option<&str>) -> (r: u32)
    ensures
        (match configured {
            Some(s) => (match spec_parse_u32(s@) {
                Some(v) => r == v,
                None => r == DEFAULT_HASH_COST,
            }),
            None => r == DEFAULT_HASH_COST,
        }),
{
    match configured {
        Some(s) => match parse_u32(s) {
            Some(v) => v,
            None => DEFAULT_HASH_COST,
        },
        None => DEFAULT_HASH_COST,
    }
}

/// Whether a password matches a stored bcrypt hash; a deterministic
/// function of the two strings.
pub uninterp spec fn bcrypt_matches(password: Seq<char>, hashed: Seq<char>) -> bool;

/// Relies on bcrypt::verify: whether a password matches a stored hash is a
/// deterministic function of the two arguments; the error arm (a malformed
/// stored hash) collapses to false, as the original's login did.
#[verifier::external_body]
pub(crate) fn password_matches(password: &str, hashed: &str) -> (r: bool)
    ensures
        r == bcrypt_matches(password@, hashed@),
{
    bcrypt::verify(password, hashed).unwrap_or(false)
}

/// Relies on bcrypt::hash: a cost outside the allowed 4..=31 range always
/// fails, and drawing the salt from OS randomness can fail too; on success
/// nothing is promised of the hash string beyond that the same password
/// verifies against it.
#[verifier::external_body]
fn bcrypt_hash(password: &str, cost: u32) -> (r: Option<String>)
    ensures
        r is Some ==> 4 <= cost <= 31,
        r matches Some(h) ==> bcrypt_matches(password@, h@),
{
    bcrypt::hash(password, cost).ok()
}

/// Hash a password with the given work factor.  A work factor outside
/// bcrypt's allowed range always fails; any failure — that, or the salt
/// draw — is an internal error.
pub fn hash_password(plain: &str, cost: u32) -> (r: Result<String, ServiceError>)
    ensures
        r matches Ok(h) ==> 4 <= cost <= 31 && bcrypt_matches(plain@, h@),
        r matches Err(e) ==> e == ServiceError::InternalServerError,
        !(4 <= cost <= 31) ==> r is Err,
{
    match bcrypt_hash(plain, cost) {
        Some(h) => Ok(h),
        None => Err(ServiceError::InternalServerError),
    }
}

} // verus!

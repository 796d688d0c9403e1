//! Canonical byte encoding of the claim fields.
//!
//! A claim is laid out as three length-prefixed UTF-8 strings (issuer,
//! subject, email) followed by the issued-at and expiry timestamps, each as
//! 8 little-endian bytes of the unsigned image of the signed value.  The
//! encoding is canonical: the parser accepts a byte string exactly when it is
//! the encoding of some claim, and then returns that claim.
use vstd::bytes::lemma_auto_spec_u64_to_from_le_bytes;
use vstd::bytes::spec_u64_from_le_bytes;
use vstd::bytes::spec_u64_to_le_bytes;
use vstd::bytes::u64_from_le_bytes;
use vstd::bytes::u64_to_le_bytes;
use vstd::prelude::*;
use vstd::slice::slice_subrange;
use vstd::string::StrSliceExecFns;
use vstd::utf8::encode_utf8;
use vstd::utf8::encode_utf8_decode_utf8;
use vstd::utf8::encode_utf8_valid_utf8;
use vstd::utf8::valid_utf8;

verus! {

/// The unsigned two's-complement image of a signed 64-bit value.
pub open spec fn to_u64(x: i64) -> u64 {
    if x >= 0 {
        x as u64
    } else {
        (x + 0x1_0000_0000_0000_0000) as u64
    }
}

/// Two distinct signed values have distinct unsigned images.
pub proof fn lemma_to_u64_injective(x: i64, y: i64)
    requires
        to_u64(x) == to_u64(y),
    ensures
        x == y,
{
}

/// A byte string prefixed by its length as 8 little-endian bytes.
pub open spec fn lp_bytes(b: Seq<u8>) -> Seq<u8> {
    spec_u64_to_le_bytes(b.len() as u64) + b
}

/// Whether a character sequence can stand in a length-prefixed field: its
/// UTF-8 encoding must have a length that fits in 64 bits.
pub open spec fn encodable(t: Seq<char>) -> bool {
    encode_utf8(t).len() < 0x1_0000_0000_0000_0000
}

/// The canonical encoding of the claim fields.
pub open spec fn fields_bytes(
    iss: Seq<char>,
    sub: Seq<char>,
    email: Seq<char>,
    iat: i64,
    exp: i64,
) -> Seq<u8> {
    lp_bytes(encode_utf8(iss)) + lp_bytes(encode_utf8(sub)) + lp_bytes(encode_utf8(email))
        + spec_u64_to_le_bytes(to_u64(iat)) + spec_u64_to_le_bytes(to_u64(exp))
}

/// Relies on std's `str::from_utf8`: it returns `Ok` exactly on valid UTF-8
/// input, and the returned string slice views the given bytes, so its UTF-8
/// encoding is the input itself.
#[verifier::external_body]
fn bytes_to_string(v: &[u8]) -> (r: Option<String>)
    ensures
        r is Some <==> valid_utf8(v@),
        r matches Some(s) ==> encode_utf8(s@) == v@,
{
    match std::str::from_utf8(v) {
        Ok(s) => Some(s.to_owned()),
        Err(_) => None,
    }
}

fn i64_to_u64(x: i64) -> (r: u64)
    ensures
        r == to_u64(x),
{
    if x >= 0 {
        x as u64
    } else {
        ((x as i128) + 0x1_0000_0000_0000_0000i128) as u64
    }
}

fn u64_to_i64(x: u64) -> (r: i64)
    ensures
        to_u64(r) == x,
{
    if x <= 0x7fff_ffff_ffff_ffffu64 {
        x as i64
    } else {
        ((x as i128) - 0x1_0000_0000_0000_0000i128) as i64
    }
}

fn push_u64(out: &mut Vec<u8>, x: u64)
    ensures
        final(out)@ == old(out)@ + spec_u64_to_le_bytes(x),
{
    let mut b = u64_to_le_bytes(x);
    out.append(&mut b);
}

fn push_str_field(out: &mut Vec<u8>, s: &str)
    ensures
        final(out)@ == old(out)@ + lp_bytes(encode_utf8(s@)),
        encodable(s@),
{
    let mut b = s.as_bytes_vec();
    push_u64(out, b.len() as u64);
    out.append(&mut b);
}

/// Encode the claim fields canonically.
pub fn encode_fields(iss: &str, sub: &str, email: &str, iat: i64, exp: i64) -> (r: Vec<u8>)
    ensures
        r@ == fields_bytes(iss@, sub@, email@, iat, exp),
        encodable(iss@) && encodable(sub@) && encodable(email@),
{
    let mut out: Vec<u8> = Vec::new();
    push_str_field(&mut out, iss);
    push_str_field(&mut out, sub);
    push_str_field(&mut out, email);
    push_u64(&mut out, i64_to_u64(iat));
    push_u64(&mut out, i64_to_u64(exp));
    out
}

fn read_u64_at(p: &[u8], pos: usize) -> (r: Option<(u64, usize)>)
    ensures
        pos + 8 <= p@.len() ==> (r matches Some(vq) && vq.1 == pos + 8 && vq.0
            == spec_u64_from_le_bytes(p@.subrange(pos as int, pos as int + 8))),
        pos + 8 > p@.len() ==> r is None,
{
    if pos <= p.len() && p.len() - pos >= 8 {
        let s = slice_subrange(p, pos, pos + 8);
        let v = u64_from_le_bytes(s);
        Some((v, pos + 8))
    } else {
        None
    }
}

fn read_str_at(p: &[u8], pos: usize) -> (r: Option<(String, usize)>)
    ensures
        (r matches Some(sq) ==> pos + 8 <= sq.1 <= p@.len() && p@.subrange(pos as int, sq.1 as int)
            == lp_bytes(encode_utf8(sq.0@)) && encodable(sq.0@)),
        forall|t: Seq<char>|
            encodable(t) && pos + 8 + encode_utf8(t).len() <= p@.len() && p@.subrange(
                pos as int,
                pos + 8 + encode_utf8(t).len(),
            ) == lp_bytes(encode_utf8(t)) ==> (r matches Some(sq) && sq.0@ == t && sq.1 == pos + 8
                + encode_utf8(t).len()),
{
    proof {
        lemma_auto_spec_u64_to_from_le_bytes();
    }
    match read_u64_at(p, pos) {
        None => {
            assert forall|t: Seq<char>|
                encodable(t) && pos + 8 + encode_utf8(t).len() <= p@.len() && p@.subrange(
                    pos as int,
                    pos + 8 + encode_utf8(t).len(),
                ) == lp_bytes(encode_utf8(t)) implies false by {
                assert(pos + 8 <= p@.len());
            }
            None
        },
        Some((n, q1)) => {
            if n <= (p.len() - q1) as u64 {
                let nn = n as usize;
                let bytes = slice_subrange(p, q1, q1 + nn);
                proof {
                    assert forall|t: Seq<char>|
                        encodable(t) && pos + 8 + encode_utf8(t).len() <= p@.len() && p@.subrange(
                            pos as int,
                            pos + 8 + encode_utf8(t).len(),
                        ) == lp_bytes(encode_utf8(t)) implies encode_utf8(t) == bytes@ by {
                        let u = encode_utf8(t);
                        assert(p@.subrange(pos as int, pos + 8 + u.len()).subrange(0, 8)
                            =~= p@.subrange(pos as int, pos as int + 8));
                        assert(lp_bytes(u).subrange(0, 8) =~= spec_u64_to_le_bytes(
                            u.len() as u64,
                        ));
                        assert(n == u.len());
                        assert(p@.subrange(pos as int, pos + 8 + u.len()).subrange(
                            8,
                            8 + u.len() as int,
                        ) =~= p@.subrange(q1 as int, q1 + u.len()));
                        assert(lp_bytes(u).subrange(8, 8 + u.len() as int) =~= u);
                        assert(bytes@ == p@.subrange(q1 as int, q1 + nn));
                    }
                }
                match bytes_to_string(bytes) {
                    None => {
                        assert forall|t: Seq<char>|
                            encodable(t) && pos + 8 + encode_utf8(t).len() <= p@.len()
                                && p@.subrange(pos as int, pos + 8 + encode_utf8(t).len())
                                == lp_bytes(encode_utf8(t)) implies false by {
                            encode_utf8_valid_utf8(t);
                        }
                        None
                    },
                    Some(s) => {
                        proof {
                            assert(p@.subrange(pos as int, q1 + nn) =~= p@.subrange(
                                pos as int,
                                pos as int + 8,
                            ) + p@.subrange(q1 as int, q1 + nn));
                            assert(encode_utf8(s@) == bytes@);
                            assert(spec_u64_to_le_bytes(encode_utf8(s@).len() as u64)
                                =~= p@.subrange(pos as int, pos as int + 8));
                            assert(p@.subrange(pos as int, q1 + nn) == lp_bytes(encode_utf8(s@)));
                            assert forall|t: Seq<char>|
                                encodable(t) && pos + 8 + encode_utf8(t).len() <= p@.len()
                                    && p@.subrange(pos as int, pos + 8 + encode_utf8(t).len())
                                    == lp_bytes(encode_utf8(t)) implies s@ == t && q1 + nn == pos
                                + 8 + encode_utf8(t).len() by {
                                assert(encode_utf8(t) == bytes@);
                                encode_utf8_decode_utf8(t);
                                encode_utf8_decode_utf8(s@);
                            }
                        }
                        Some((s, q1 + nn))
                    },
                }
            } else {
                assert forall|t: Seq<char>|
                    encodable(t) && pos + 8 + encode_utf8(t).len() <= p@.len() && p@.subrange(
                        pos as int,
                        pos + 8 + encode_utf8(t).len(),
                    ) == lp_bytes(encode_utf8(t)) implies false by {
                    let u = encode_utf8(t);
                    assert(p@.subrange(pos as int, pos + 8 + u.len()).subrange(0, 8)
                        =~= p@.subrange(pos as int, pos as int + 8));
                    assert(lp_bytes(u).subrange(0, 8) =~= spec_u64_to_le_bytes(u.len() as u64));
                    assert(n == u.len());
                }
                None
            }
        },
    }
}

/// The parser's acceptance condition: the whole input is the canonical
/// encoding of the given fields.
pub open spec fn fields_hyp(
    p: Seq<u8>,
    iss: Seq<char>,
    sub: Seq<char>,
    email: Seq<char>,
    iat: i64,
    exp: i64,
) -> bool {
    encodable(iss) && encodable(sub) && encodable(email) && p == fields_bytes(
        iss,
        sub,
        email,
        iat,
        exp,
    )
}

proof fn lemma_fields_decompose(
    p: Seq<u8>,
    iss: Seq<char>,
    sub: Seq<char>,
    email: Seq<char>,
    iat: i64,
    exp: i64,
)
    requires
        fields_hyp(p, iss, sub, email, iat, exp),
    ensures
        p.len() == 40 + encode_utf8(iss).len() + encode_utf8(sub).len() + encode_utf8(email).len(),
        p.subrange(0, (8 + encode_utf8(iss).len()) as int) == lp_bytes(encode_utf8(iss)),
        p.subrange(
            (8 + encode_utf8(iss).len()) as int,
            (16 + encode_utf8(iss).len() + encode_utf8(sub).len()) as int,
        ) == lp_bytes(encode_utf8(sub)),
        p.subrange(
            (16 + encode_utf8(iss).len() + encode_utf8(sub).len()) as int,
            (24 + encode_utf8(iss).len() + encode_utf8(sub).len() + encode_utf8(email).len()) as int,
        ) == lp_bytes(encode_utf8(email)),
        p.subrange(
            (24 + encode_utf8(iss).len() + encode_utf8(sub).len() + encode_utf8(email).len()) as int,
            (32 + encode_utf8(iss).len() + encode_utf8(sub).len() + encode_utf8(email).len()) as int,
        ) == spec_u64_to_le_bytes(to_u64(iat)),
        p.subrange(
            (32 + encode_utf8(iss).len() + encode_utf8(sub).len() + encode_utf8(email).len()) as int,
            (40 + encode_utf8(iss).len() + encode_utf8(sub).len() + encode_utf8(email).len()) as int,
        ) == spec_u64_to_le_bytes(to_u64(exp)),
{
    lemma_auto_spec_u64_to_from_le_bytes();
    let u1 = encode_utf8(iss);
    let u2 = encode_utf8(sub);
    let u3 = encode_utf8(email);
    let o1 = 8 + u1.len() as int;
    let o2 = o1 + 8 + u2.len();
    let o3 = o2 + 8 + u3.len();
    assert(p.subrange(0, o1) =~= lp_bytes(u1));
    assert(p.subrange(o1, o2) =~= lp_bytes(u2));
    assert(p.subrange(o2, o3) =~= lp_bytes(u3));
    assert(p.subrange(o3, o3 + 8) =~= spec_u64_to_le_bytes(to_u64(iat)));
    assert(p.subrange(o3 + 8, o3 + 16) =~= spec_u64_to_le_bytes(to_u64(exp)));
}

/// Parse a canonical claim-field encoding; accepts exactly the encodings
/// that `fields_bytes` produces, and inverts them.
pub fn parse_fields(p: &[u8]) -> (r: Option<(String, String, String, i64, i64)>)
    ensures
        r matches Some(f) ==> p@ == fields_bytes(f.0@, f.1@, f.2@, f.3, f.4) && encodable(f.0@)
            && encodable(f.1@) && encodable(f.2@),
        forall|iss: Seq<char>, sub: Seq<char>, email: Seq<char>, iat: i64, exp: i64|
            fields_hyp(p@, iss, sub, email, iat, exp) ==> (r matches Some(f) && f.0@ == iss
                && f.1@ == sub && f.2@ == email && f.3 == iat && f.4 == exp),
{
    proof {
        lemma_auto_spec_u64_to_from_le_bytes();
    }
    let r1 = read_str_at(p, 0);
    let (s1, q1) = match r1 {
        Some(sq) => sq,
        None => {
            assert forall|iss: Seq<char>, sub: Seq<char>, email: Seq<char>, iat: i64, exp: i64|
                fields_hyp(p@, iss, sub, email, iat, exp) implies false by {
                lemma_fields_decompose(p@, iss, sub, email, iat, exp);
            }
            return None;
        },
    };
    let r2 = read_str_at(p, q1);
    let (s2, q2) = match r2 {
        Some(sq) => sq,
        None => {
            assert forall|iss: Seq<char>, sub: Seq<char>, email: Seq<char>, iat: i64, exp: i64|
                fields_hyp(p@, iss, sub, email, iat, exp) implies false by {
                lemma_fields_decompose(p@, iss, sub, email, iat, exp);
            }
            return None;
        },
    };
    let r3 = read_str_at(p, q2);
    let (s3, q3) = match r3 {
        Some(sq) => sq,
        None => {
            assert forall|iss: Seq<char>, sub: Seq<char>, email: Seq<char>, iat: i64, exp: i64|
                fields_hyp(p@, iss, sub, email, iat, exp) implies false by {
                lemma_fields_decompose(p@, iss, sub, email, iat, exp);
            }
            return None;
        },
    };
    let r4 = read_u64_at(p, q3);
    let (v4, q4) = match r4 {
        Some(vq) => vq,
        None => {
            assert forall|iss: Seq<char>, sub: Seq<char>, email: Seq<char>, iat: i64, exp: i64|
                fields_hyp(p@, iss, sub, email, iat, exp) implies false by {
                lemma_fields_decompose(p@, iss, sub, email, iat, exp);
            }
            return None;
        },
    };
    let r5 = read_u64_at(p, q4);
    let (v5, q5) = match r5 {
        Some(vq) => vq,
        None => {
            assert forall|iss: Seq<char>, sub: Seq<char>, email: Seq<char>, iat: i64, exp: i64|
                fields_hyp(p@, iss, sub, email, iat, exp) implies false by {
                lemma_fields_decompose(p@, iss, sub, email, iat, exp);
            }
            return None;
        },
    };
    if q5 != p.len() {
        assert forall|iss: Seq<char>, sub: Seq<char>, email: Seq<char>, iat: i64, exp: i64|
            fields_hyp(p@, iss, sub, email, iat, exp) implies false by {
            lemma_fields_decompose(p@, iss, sub, email, iat, exp);
        }
        return None;
    }
    let a4 = u64_to_i64(v4);
    let a5 = u64_to_i64(v5);
    proof {
        assert(p@ =~= p@.subrange(0, q1 as int) + p@.subrange(q1 as int, q2 as int) + p@.subrange(
            q2 as int,
            q3 as int,
        ) + p@.subrange(q3 as int, q4 as int) + p@.subrange(q4 as int, q5 as int));
        assert(p@.subrange(q3 as int, q4 as int) =~= spec_u64_to_le_bytes(v4));
        assert(p@.subrange(q4 as int, q5 as int) =~= spec_u64_to_le_bytes(v5));
        assert(p@ == fields_bytes(s1@, s2@, s3@, a4, a5));
        assert forall|iss: Seq<char>, sub: Seq<char>, email: Seq<char>, iat: i64, exp: i64|
            fields_hyp(p@, iss, sub, email, iat, exp) implies s1@ == iss && s2@ == sub && s3@
            == email && a4 == iat && a5 == exp by {
            lemma_fields_decompose(p@, iss, sub, email, iat, exp);
            assert(s1@ == iss);
            assert(s2@ == sub);
            assert(s3@ == email);
            assert(v4 == to_u64(iat));
            assert(v5 == to_u64(exp));
            lemma_to_u64_injective(a4, iat);
            lemma_to_u64_injective(a5, exp);
        }
    }
    Some((s1, s2, s3, a4, a5))
}

} // verus!

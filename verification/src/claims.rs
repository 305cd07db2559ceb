//! The claim set a token carries: a user identifier, an email address and an
//! expiry timestamp, together with its canonical JSON payload form and the
//! parser that inverts it.

use vstd::prelude::*;
use vstd::utf8::*;

use crate::decimal::{dec_digits_of, lemma_dec_digits_canonical, lemma_dec_digits_val,
    parse_dec_i64, parse_dec_region, push_dec_u64};
use crate::errors::ApiError;
use crate::escape::{escape_bytes, escape_push, lemma_scan_of_escaped, scan_jstr, scan_jstr_from};
use crate::text::{lemma_ascii_bytes_utf8, push_all, region_matches, region_to_vec,
    utf8_to_string};

verus! {

/// Whether byte `b` may stand at position `i` of a textual user id:
/// hyphens at the four fixed positions, lowercase hex everywhere else.
pub open spec fn uuid_byte_ok(i: int, b: u8) -> bool {
    if i == 8 || i == 13 || i == 18 || i == 23 {
        b == 45
    } else {
        (48 <= b <= 57) || (97 <= b <= 102)
    }
}

/// A well-formed textual user id: 36 bytes, hyphenated lowercase hex.
pub open spec fn uuid_bytes_wf(b: Seq<u8>) -> bool {
    b.len() == 36 && forall|i: int| 0 <= i < 36 ==> uuid_byte_ok(i, #[trigger] b[i])
}

/// A user identifier in canonical hyphenated lowercase-hex text form.
#[derive(Debug, PartialEq)]
pub struct UserId {
    text: String,
}

impl Clone for UserId {
    fn clone(&self) -> (r: Self)
        ensures
            r == *self,
    {
        proof {
            use_type_invariant(self);
        }
        UserId { text: self.text.clone() }
    }
}

impl View for UserId {
    type V = Seq<char>;

    closed spec fn view(&self) -> Seq<char> {
        self.text@
    }
}

impl UserId {
    /// Every user id value holds canonical hyphenated lowercase hex.
    #[verifier::type_invariant]
    pub open spec fn wf(&self) -> bool {
        uuid_bytes_wf(encode_utf8(self@))
    }

    /// Accepts exactly the canonical hyphenated lowercase-hex form.
    pub fn new(text: String) -> (r: Result<UserId, ApiError>)
        ensures
            match r {
                Ok(u) => u@ == text@ && uuid_bytes_wf(encode_utf8(text@)),
                Err(e) => e is ParseError && !uuid_bytes_wf(encode_utf8(text@)),
            },
    {
        let bs = text.as_str().as_bytes();
        let ok = bs.len() == 36 && uuid_region_ok(bs, 0);
        proof {
            let b = encode_utf8(text@);
            if b.len() == 36 {
                assert(b.subrange(0, 36) =~= b);
            }
        }
        if ok {
            Ok(UserId { text })
        } else {
            Err(ApiError::ParseError(String::from_str("invalid user id")))
        }
    }

    /// The id as text.
    pub fn as_str(&self) -> (r: &str)
        ensures
            r@ == self@,
    {
        self.text.as_str()
    }

    /// An owned copy of the id text.
    pub fn to_text(&self) -> (r: String)
        ensures
            r@ == self@,
    {
        self.text.clone()
    }
}

/// Whether the 36 bytes of `b` starting at `at` are a well-formed user id.
pub(crate) fn uuid_region_ok(b: &[u8], at: usize) -> (r: bool)
    requires
        at <= b@.len(),
    ensures
        r == (at + 36 <= b@.len() && uuid_bytes_wf(b@.subrange(at as int, at + 36))),
{
    let n = b.len();
    if n - at < 36 {
        return false;
    }
    let ghost t = b@.subrange(at as int, at + 36);
    let mut i: usize = 0;
    while i < 36
        invariant
            i <= 36,
            at + 36 <= b@.len(),
            b@.len() <= usize::MAX,
            t == b@.subrange(at as int, at + 36),
            forall|k: int| 0 <= k < i ==> uuid_byte_ok(k, #[trigger] t[k]),
        decreases 36 - i,
    {
        let c = b[at + i];
        proof {
            assert(t[i as int] == b@[at + i]);
        }
        let ok = if i == 8 || i == 13 || i == 18 || i == 23 {
            c == 45
        } else {
            (48 <= c && c <= 57) || (97 <= c && c <= 102)
        };
        if !ok {
            proof {
                assert(!uuid_byte_ok(i as int, t[i as int]));
            }
            return false;
        }
        i += 1;
    }
    true
}

/// The mathematical content of a claim set.
pub struct ClaimsData {
    pub user_id: Seq<char>,
    pub email: Seq<char>,
    pub exp: int,
}

/// A well-formed claim set: canonical user id text and a non-negative
/// expiry that fits the wire format.
pub open spec fn claims_wf(c: ClaimsData) -> bool {
    &&& uuid_bytes_wf(encode_utf8(c.user_id))
    &&& 0 <= c.exp <= i64::MAX
}

/// The signed, time-bounded identity of one user.
#[derive(Debug, PartialEq)]
pub struct PrivateClaim {
    user_id: UserId,
    email: String,
    exp: i64,
}

impl View for PrivateClaim {
    type V = ClaimsData;

    closed spec fn view(&self) -> ClaimsData {
        ClaimsData { user_id: self.user_id@, email: self.email@, exp: self.exp as int }
    }
}

impl Clone for PrivateClaim {
    fn clone(&self) -> (r: Self)
        ensures
            r == *self,
    {
        proof {
            use_type_invariant(self);
        }
        PrivateClaim { user_id: self.user_id.clone(), email: self.email.clone(), exp: self.exp }
    }
}

impl PrivateClaim {
    /// Every claim set value is well formed.
    #[verifier::type_invariant]
    pub open spec fn wf(&self) -> bool {
        claims_wf(self@)
    }

    /// The identified user.
    pub fn user_id(&self) -> (r: &UserId)
        ensures
            r@ == self@.user_id,
    {
        &self.user_id
    }

    /// The identified user's email address.
    pub fn email(&self) -> (r: &String)
        ensures
            r@ == self@.email,
    {
        &self.email
    }

    /// A claim set expiring `expiration_hours` after `now`.
    pub fn new(user_id: UserId, email: String, now: i64, expiration_hours: i64) -> (r: PrivateClaim)
        requires
            0 <= now,
            0 <= expiration_hours,
            now + expiration_hours * 3600 <= i64::MAX,
        ensures
            r@ == (ClaimsData {
                user_id: user_id@,
                email: email@,
                exp: now + expiration_hours * 3600,
            }),
    {
        proof {
            use_type_invariant(&user_id);
        }
        PrivateClaim { user_id, email, exp: now + expiration_hours * 3600 }
    }

    /// The timestamp after which this claim set is no longer valid.
    pub fn expires_at(&self) -> (r: i64)
        ensures
            r as int == self@.exp,
    {
        self.exp
    }

}

/// The canonical JSON payload of a claim set.
pub open spec fn claims_json_of(c: ClaimsData) -> Seq<u8> {
    encode_utf8("{\"user_id\":\""@) + encode_utf8(c.user_id) + encode_utf8("\",\"email\":\""@)
        + escape_bytes(encode_utf8(c.email)) + seq![34u8] + encode_utf8(",\"exp\":"@)
        + dec_digits_of(c.exp) + seq![125u8]
}

/// Reads a canonical JSON payload back into a claim set; `None` on anything
/// that is not the canonical image of a well-formed claim set.
pub open spec fn parse_claims(b: Seq<u8>) -> Option<ClaimsData> {
    let l1 = encode_utf8("{\"user_id\":\""@);
    let l2 = encode_utf8("\",\"email\":\""@);
    let l3 = encode_utf8(",\"exp\":"@);
    if b.len() < l1.len() + 36 + l2.len() || b.subrange(0, l1.len() as int) != l1 {
        None
    } else if !uuid_bytes_wf(b.subrange(l1.len() as int, (l1.len() + 36) as int)) {
        None
    } else if b.subrange((l1.len() + 36) as int, (l1.len() + 36 + l2.len()) as int) != l2 {
        None
    } else {
        let e0 = l1.len() + 36 + l2.len();
        match scan_jstr(b.skip(e0 as int)) {
            None => None,
            Some(p) => {
                let u = p.0;
                let e1 = e0 + p.1;
                if !valid_utf8(u) {
                    None
                } else if e1 + l3.len() + 2 > b.len() || b.subrange(e1 as int, (e1 + l3.len()) as int) != l3 {
                    None
                } else if b[b.len() - 1] != 125 {
                    None
                } else {
                    match parse_dec_i64(b.subrange((e1 + l3.len()) as int, b.len() - 1)) {
                        None => None,
                        Some(v) => Some(
                            ClaimsData {
                                user_id: decode_utf8(b.subrange(l1.len() as int, (l1.len() + 36) as int)),
                                email: decode_utf8(u),
                                exp: v,
                            },
                        ),
                    }
                }
            },
        }
    }
}


/// Serializes a claim set to its canonical JSON payload.
pub(crate) fn ser_claims(c: &PrivateClaim) -> (r: Vec<u8>)
    ensures
        r@ == claims_json_of(c@),
{
    proof {
        use_type_invariant(c);
    }
    let mut out: Vec<u8> = Vec::new();
    push_all(&mut out, "{\"user_id\":\"".as_bytes());
    push_all(&mut out, c.user_id.as_str().as_bytes());
    push_all(&mut out, "\",\"email\":\"".as_bytes());
    escape_push(&mut out, c.email.as_str().as_bytes());
    out.push(34);
    push_all(&mut out, ",\"exp\":".as_bytes());
    push_dec_u64(&mut out, c.expires_at() as u64);
    out.push(125);
    proof {
        assert(out@ =~= claims_json_of(c@));
    }
    out
}

/// Parses a canonical JSON payload into a claim set.
pub(crate) fn parse_claims_bytes(b: &[u8]) -> (r: Option<PrivateClaim>)
    ensures
        match r {
            Some(c) => parse_claims(b@) == Some(c@),
            None => parse_claims(b@) is None,
        },
{
    let n = b.len();
    let l1: &[u8] = "{\"user_id\":\"".as_bytes();
    let l2: &[u8] = "\",\"email\":\"".as_bytes();
    let l3: &[u8] = ",\"exp\":".as_bytes();
    if !region_matches(b, 0, l1) {
        return None;
    }
    if !uuid_region_ok(b, l1.len()) {
        return None;
    }
    if !region_matches(b, l1.len() + 36, l2) {
        return None;
    }
    let e0 = l1.len() + 36 + l2.len();
    proof {
        assert(b@.subrange(e0 as int, n as int) =~= b@.skip(e0 as int));
    }
    let scanned = scan_jstr_from(b, e0);
    match scanned {
        None => None,
        Some((u, e1)) => {
            let email = match utf8_to_string(u) {
                None => {
                    return None;
                },
                Some(s) => s,
            };
            proof {
                encode_utf8_valid_utf8(email@);
            }
            if n - e1 < 2 || n - e1 - 2 < l3.len() || !region_matches(b, e1, l3) {
                return None;
            }
            if b[n - 1] != 125 {
                return None;
            }
            let exp = match parse_dec_region(b, e1 + l3.len(), n - 1) {
                None => {
                    return None;
                },
                Some(v) => v,
            };
            let ghost uid_bytes = b@.subrange(l1@.len() as int, (l1@.len() + 36) as int);
            let uid_text = match utf8_to_string(region_to_vec(b, l1.len(), l1.len() + 36)) {
                None => {
                    proof {
                        lemma_ascii_bytes_utf8(uid_bytes);
                    }
                    return None;
                },
                Some(s) => s,
            };
            let claim = PrivateClaim { user_id: UserId { text: uid_text }, email, exp };
            proof {
                broadcast use vstd::utf8::group_utf8_lib;

                assert(encode_utf8(claim.user_id.text@) == uid_bytes);
                assert(decode_utf8(uid_bytes) == claim.user_id@);
            }
            Some(claim)
        },
    }
}

/// Serializing and then parsing a well-formed claim set gives it back.
pub proof fn lemma_claims_round_trip(c: ClaimsData)
    requires
        claims_wf(c),
    ensures
        parse_claims(claims_json_of(c)) == Some(c),
{
    broadcast use vstd::utf8::group_utf8_lib;

    let l1 = encode_utf8("{\"user_id\":\""@);
    let l2 = encode_utf8("\",\"email\":\""@);
    let l3 = encode_utf8(",\"exp\":"@);
    let uid = encode_utf8(c.user_id);
    let em = escape_bytes(encode_utf8(c.email));
    let dd = dec_digits_of(c.exp);
    let b = claims_json_of(c);
    assert(uid.len() == 36);
    assert(b.subrange(0, l1.len() as int) =~= l1);
    assert(b.subrange(l1.len() as int, (l1.len() + 36) as int) =~= uid);
    assert(b.subrange((l1.len() + 36) as int, (l1.len() + 36 + l2.len()) as int) =~= l2);
    let e0 = l1.len() + 36 + l2.len();
    let tail = l3 + dd + seq![125u8];
    assert(b.skip(e0 as int) =~= em + seq![34u8] + tail);
    lemma_scan_of_escaped(encode_utf8(c.email), tail);
    let e1 = e0 + em.len() + 1;
    assert(b.subrange(e1 as int, (e1 + l3.len()) as int) =~= l3);
    lemma_dec_digits_canonical(c.exp);
    assert(dd.len() >= 1);
    assert(e1 + l3.len() + 2 <= b.len());
    assert(b[b.len() - 1] == 125);
    assert(b.subrange((e1 + l3.len()) as int, b.len() - 1) =~= dd);
    lemma_dec_digits_val(c.exp);
    assert(parse_dec_i64(dd) == Some(c.exp));
    assert(decode_utf8(uid) == c.user_id);
    assert(decode_utf8(encode_utf8(c.email)) == c.email);
    assert(parse_claims(b) == Some(ClaimsData { user_id: c.user_id, email: c.email, exp: c.exp }));
    assert(ClaimsData { user_id: c.user_id, email: c.email, exp: c.exp } == c);
}

} // verus!

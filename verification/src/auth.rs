//! Token codec and password hasher: creating and verifying signed,
//! time-bounded claim tokens, and deriving deterministic salted password
//! digests.
//!
//! A token is three dot-separated segments: the base64url header, the
//! base64url JSON claims payload, and the HMAC-SHA-256 signature of the
//! first two segments under the server signing key. A token is valid
//! exactly when its header and signature check out and its expiry lies
//! after the given current time, with zero leeway.

use vstd::prelude::*;
use vstd::string::StringSliceAdditionalSpecFns;
use vstd::utf8::*;

use crate::b64::{b64_decode_bytes, b64_decode_region, b64_encode_bytes, b64_encode_push,
    lemma_b64_encode_alphabet, lemma_b64_round_trip};
use crate::claims::{claims_json_of, claims_wf, lemma_claims_round_trip, parse_claims,
    parse_claims_bytes, ser_claims, ClaimsData, PrivateClaim};
use crate::errors::ApiError;
use crate::escape::hex_lc;
use crate::text::{ascii_bytes, lemma_ascii_bytes_utf8, push_all, region_matches, region_to_vec,
    utf8_to_string};

verus! {

/// What `jsonwebtoken::crypto::sign` returns for a message under a key with
/// HMAC-SHA-256: a function of the key and message alone, named here because
/// its value has no shorter description than the algorithm itself.
pub uninterp spec fn hs256_sig_of(key: Seq<u8>, msg: Seq<u8>) -> Seq<char>;

/// Relies on `jsonwebtoken::crypto::sign` with `Algorithm::HS256`: the
/// base64url text of the HMAC-SHA-256 of `msg` keyed by `key`, a
/// deterministic function of the two. For HS256 under the crate's
/// `rust_crypto` provider signing accepts any key length and never fails,
/// so the error arm below is never taken.
#[verifier::external_body]
fn sign_hs256(msg: &[u8], key: &[u8]) -> (r: String)
    ensures
        r@ == hs256_sig_of(key@, msg@),
{
    let k = jsonwebtoken::EncodingKey::from_secret(key);
    match jsonwebtoken::crypto::sign(msg, &k, jsonwebtoken::Algorithm::HS256) {
        Ok(s) => s,
        Err(_) => String::new(),
    }
}

/// Relies on `chrono::Utc::now` for the current Unix timestamp. Nothing is
/// promised of the reading; callers state what holds of every value.
#[verifier::external_body]
pub fn now_timestamp() -> i64 {
    chrono::Utc::now().timestamp()
}

/// The JSON header all tokens carry.
pub open spec fn header_json_chars() -> Seq<char> {
    "{\"typ\":\"JWT\",\"alg\":\"HS256\"}"@
}

/// The first token segment: the base64url form of the header.
pub open spec fn header_segment() -> Seq<u8> {
    b64_encode_bytes(encode_utf8(header_json_chars()))
}

/// The part of a token that is signed: header segment, dot, payload segment.
pub open spec fn signing_input_of(c: ClaimsData) -> Seq<u8> {
    header_segment() + seq![46u8] + b64_encode_bytes(claims_json_of(c))
}

/// The full token a claim set serializes to under a key.
pub open spec fn token_bytes_of(c: ClaimsData, key: Seq<u8>) -> Seq<u8> {
    signing_input_of(c) + seq![46u8] + encode_utf8(hs256_sig_of(key, signing_input_of(c)))
}

/// The first index at or after `from` holding a dot, or the length.
pub open spec fn find_dot(s: Seq<u8>, from: int) -> int
    recommends
        0 <= from <= s.len(),
    decreases s.len() - from,
    when 0 <= from <= s.len()
{
    if from >= s.len() {
        s.len() as int
    } else if s[from] == 46 {
        from
    } else {
        find_dot(s, from + 1)
    }
}


/// `find_dot` lands on a dot that nothing before it reaches.
pub proof fn lemma_find_dot_is(s: Seq<u8>, from: int, i: int)
    requires
        0 <= from <= i < s.len(),
        s[i] == 46,
        forall|k: int| from <= k < i ==> s[k] != 46,
    ensures
        find_dot(s, from) == i,
    decreases i - from,
{
    if from == i {
    } else {
        lemma_find_dot_is(s, from + 1, i);
    }
}

/// Reads a token back into a claim set: splits at the first two dots,
/// demands the canonical header, checks the signature of the first two
/// segments, then decodes and parses the payload. Expiry is checked
/// separately by `decode_jwt`.
pub open spec fn decode_spec(t: Seq<u8>, key: Seq<u8>) -> Option<ClaimsData> {
    let i = find_dot(t, 0);
    if i >= t.len() {
        None
    } else {
        let j = find_dot(t, i + 1);
        if j >= t.len() {
            None
        } else if t.subrange(0, i) != header_segment() {
            None
        } else if t.subrange(j + 1, t.len() as int) != encode_utf8(
            hs256_sig_of(key, t.subrange(0, j)),
        ) {
            None
        } else {
            match b64_decode_bytes(t.subrange(i + 1, j)) {
                None => None,
                Some(p) => parse_claims(p),
            }
        }
    }
}

/// The first dot position, executable form.
fn find_dot_at(s: &[u8], from: usize) -> (r: usize)
    requires
        from <= s@.len(),
    ensures
        r as int == find_dot(s@, from as int),
        from <= r <= s@.len(),
{
    let n = s.len();
    let mut k: usize = from;
    while k < n
        invariant
            from <= k <= n,
            n == s@.len(),
            find_dot(s@, from as int) == find_dot(s@, k as int),
        decreases n - k,
    {
        if s[k] == 46 {
            return k;
        }
        k += 1;
    }
    k
}

/// Creates a signed token carrying the given claim set, under `key`.
///
/// Token creation never fails for a symmetric key: the result is always
/// `Ok`, and the token is exactly the serialization of the claims.
pub fn create_jwt(private_claim: PrivateClaim, key: &[u8]) -> (r: Result<String, ApiError>)
    ensures
        r is Ok,
        r matches Ok(t) ==> encode_utf8(t@) == token_bytes_of(private_claim@, key@),
{
    proof {
        use_type_invariant(&private_claim);
    }
    let header: &[u8] = "{\"typ\":\"JWT\",\"alg\":\"HS256\"}".as_bytes();
    let mut si: Vec<u8> = Vec::new();
    b64_encode_push(&mut si, header);
    si.push(46);
    let payload = ser_claims(&private_claim);
    b64_encode_push(&mut si, payload.as_slice());
    proof {
        assert(si@ =~= signing_input_of(private_claim@));
    }
    let sig = sign_hs256(si.as_slice(), key);
    let ghost si_view = si@;
    let mut tb = si;
    tb.push(46);
    push_all(&mut tb, sig.as_str().as_bytes());
    proof {
        assert(tb@ =~= token_bytes_of(private_claim@, key@));
        let head = si_view + seq![46u8];
        lemma_b64_encode_alphabet(encode_utf8(header_json_chars()));
        lemma_b64_encode_alphabet(claims_json_of(private_claim@));
        assert forall|k: int| 0 <= k < head.len() implies head[k] < 128 by {
            if k < header_segment().len() {
                assert(head[k] == header_segment()[k]);
            } else if k == header_segment().len() {
                assert(head[k] == 46);
            } else if k < si_view.len() {
                assert(head[k] == b64_encode_bytes(claims_json_of(private_claim@))[k
                    - header_segment().len() - 1]);
            } else {
                assert(head[k] == 46);
            }
        }
        assert(ascii_bytes(head));
        lemma_ascii_bytes_utf8(head);
        encode_utf8_valid_utf8(sig@);
        valid_utf8_concat(head, encode_utf8(sig@));
        assert(tb@ =~= head + encode_utf8(sig@));
    }
    match utf8_to_string(tb) {
        Some(t) => Ok(t),
        None => {
            proof {
                assert(false);
            }
            Err(ApiError::CannotEncodeJwtToken(String::from_str("token was not valid text")))
        },
    }
}

/// Verifies and reads a token under `key`, against the current time `now`.
///
/// Returns the carried claim set exactly when the token is the well-formed,
/// correctly signed serialization of one and `now` lies strictly before its
/// expiry; every other token is rejected with `CannotDecodeJwtToken`, with
/// no distinction between a bad signature, a malformed payload and expiry.
pub fn decode_jwt(token: &str, key: &[u8], now: i64) -> (r: Result<PrivateClaim, ApiError>)
    ensures
        match r {
            Ok(c) => decode_spec(token.spec_bytes(), key@) == Some(c@) && now < c@.exp,
            Err(e) => e is CannotDecodeJwtToken && match decode_spec(token.spec_bytes(), key@) {
                Some(c) => now >= c.exp,
                None => true,
            },
        },
{
    let tb = token.as_bytes();
    let n = tb.len();
    let i = find_dot_at(tb, 0);
    if i >= n {
        return Err(ApiError::CannotDecodeJwtToken(String::from_str("invalid token")));
    }
    let j = find_dot_at(tb, i + 1);
    if j >= n {
        return Err(ApiError::CannotDecodeJwtToken(String::from_str("invalid token")));
    }
    let header: &[u8] = "{\"typ\":\"JWT\",\"alg\":\"HS256\"}".as_bytes();
    let mut hb: Vec<u8> = Vec::new();
    b64_encode_push(&mut hb, header);
    proof {
        assert(hb@ == header_segment());
    }
    if i != hb.len() || !region_matches(tb, 0, hb.as_slice()) {
        proof {
            if i != hb@.len() {
                assert(tb@.subrange(0, i as int).len() == i as int);
                assert(tb@.subrange(0, i as int) != header_segment());
            }
        }
        return Err(ApiError::CannotDecodeJwtToken(String::from_str("invalid token")));
    }
    let msg = region_to_vec(tb, 0, j);
    let sig = sign_hs256(msg.as_slice(), key);
    let sigb = sig.as_str().as_bytes();
    let expected_len = n - (j + 1);
    if sigb.len() != expected_len || !region_matches(tb, j + 1, sigb) {
        proof {
            let t = tb@;
            let want = encode_utf8(hs256_sig_of(key@, t.subrange(0, j as int)));
            assert(want == sigb@);
            if sigb@.len() != t.len() - (j + 1) {
                assert(t.subrange(j + 1, t.len() as int).len() == t.len() - (j + 1));
                assert(t.subrange(j + 1, t.len() as int) != want);
            }
        }
        return Err(ApiError::CannotDecodeJwtToken(String::from_str("invalid token")));
    }
    let payload = match b64_decode_region(tb, i + 1, j) {
        None => {
            return Err(ApiError::CannotDecodeJwtToken(String::from_str("invalid token")));
        },
        Some(p) => p,
    };
    match parse_claims_bytes(payload.as_slice()) {
        None => Err(ApiError::CannotDecodeJwtToken(String::from_str("invalid token"))),
        Some(c) => {
            if now < c.expires_at() {
                Ok(c)
            } else {
                Err(ApiError::CannotDecodeJwtToken(String::from_str("invalid token")))
            }
        },
    }
}

/// Law: decoding inverts creation. The token built from any well-formed
/// claim set under a key reads back as exactly that claim set under the
/// same key.
pub proof fn lemma_token_round_trip(c: ClaimsData, key: Seq<u8>)
    requires
        claims_wf(c),
    ensures
        decode_spec(token_bytes_of(c, key), key) == Some(c),
{
    let h = header_segment();
    let p = b64_encode_bytes(claims_json_of(c));
    let si = signing_input_of(c);
    let sg = encode_utf8(hs256_sig_of(key, si));
    let t = token_bytes_of(c, key);
    lemma_b64_encode_alphabet(encode_utf8(header_json_chars()));
    lemma_b64_encode_alphabet(claims_json_of(c));
    let hl = h.len() as int;
    let jj = hl + 1 + p.len() as int;
    assert(t.len() == jj + 1 + sg.len());
    assert(t[hl] == 46);
    assert forall|k: int| 0 <= k < hl implies t[k] != 46 by {
        assert(t[k] == h[k]);
    }
    lemma_find_dot_is(t, 0, hl);
    assert(t[jj] == 46);
    assert forall|k: int| hl + 1 <= k < jj implies t[k] != 46 by {
        assert(t[k] == p[k - hl - 1]);
    }
    lemma_find_dot_is(t, hl + 1, jj);
    assert(t.subrange(0, hl) =~= h);
    assert(t.subrange(jj + 1, t.len() as int) =~= sg);
    assert(t.subrange(0, jj) =~= si);
    assert(t.subrange(hl + 1, jj) =~= p);
    lemma_b64_round_trip(claims_json_of(c));
    lemma_claims_round_trip(c);
}

/// Law: an expired claim set is rejected. Its token still reads back as the
/// claim set, and any decode at a time not strictly before the expiry must
/// return `CannotDecodeJwtToken` by the contract of `decode_jwt`.
pub proof fn lemma_expired_token_rejected(c: ClaimsData, key: Seq<u8>, now: int)
    requires
        claims_wf(c),
        now >= c.exp,
    ensures
        decode_spec(token_bytes_of(c, key), key) == Some(c),
        !(now < c.exp),
{
    lemma_token_round_trip(c, key);
}

/// Law: a token signed under one key does not decode under another, as long
/// as the two keys' signatures of its signing input differ (the signature
/// scheme offers no more than this: equal signatures under different keys
/// are astronomically unlikely but not impossible).
pub proof fn lemma_key_mismatch_rejected(c: ClaimsData, k1: Seq<u8>, k2: Seq<u8>)
    requires
        claims_wf(c),
        hs256_sig_of(k2, signing_input_of(c)) != hs256_sig_of(k1, signing_input_of(c)),
    ensures
        decode_spec(token_bytes_of(c, k1), k2) is None,
{
    let h = header_segment();
    let p = b64_encode_bytes(claims_json_of(c));
    let si = signing_input_of(c);
    let sg = encode_utf8(hs256_sig_of(k1, si));
    let t = token_bytes_of(c, k1);
    lemma_b64_encode_alphabet(encode_utf8(header_json_chars()));
    lemma_b64_encode_alphabet(claims_json_of(c));
    let hl = h.len() as int;
    let jj = hl + 1 + p.len() as int;
    assert(t[hl] == 46);
    assert forall|k: int| 0 <= k < hl implies t[k] != 46 by {
        assert(t[k] == h[k]);
    }
    lemma_find_dot_is(t, 0, hl);
    assert(t[jj] == 46);
    assert forall|k: int| hl + 1 <= k < jj implies t[k] != 46 by {
        assert(t[k] == p[k - hl - 1]);
    }
    lemma_find_dot_is(t, hl + 1, jj);
    assert(t.subrange(0, jj) =~= si);
    assert(t.subrange(jj + 1, t.len() as int) =~= sg);
    let other = encode_utf8(hs256_sig_of(k2, si));
    assert(sg != other) by {
        if sg == other {
            encode_utf8_decode_utf8(hs256_sig_of(k1, si));
            encode_utf8_decode_utf8(hs256_sig_of(k2, si));
        }
    }
}

/// The per-record salt bytes masked with the server secret: each byte is
/// the sum of the salt byte and the secret byte at the same position, the
/// secret cycling if the salt is longer, reduced modulo 128.
pub open spec fn mask_bytes(s: Seq<u8>, m: Seq<u8>) -> Seq<u8>
    recommends
        m.len() > 0 || s.len() == 0,
{
    Seq::new(s.len(), |i: int| (((s[i] as int) + (m[i % (m.len() as int)] as int)) % 128) as u8)
}

/// Lowercase hex text of a byte sequence, two digits per byte.
pub open spec fn hex_digits_of(d: Seq<u8>) -> Seq<u8>
    decreases d.len(),
{
    if d.len() == 0 {
        seq![]
    } else {
        seq![hex_lc((d[0] as int) / 16), hex_lc((d[0] as int) % 16)] + hex_digits_of(d.drop_first())
    }
}

/// What `argon2rs::argon2i_simple` returns for a password and salt: a
/// function of the two alone, named here because its value has no shorter
/// description than the algorithm itself.
pub uninterp spec fn argon2i_of(password: Seq<char>, salt: Seq<u8>) -> Seq<u8>;

/// The digest text `hash` produces: the hex form of the Argon2i digest of
/// the password under the masked salt.
pub open spec fn digest_bytes_of(password: Seq<char>, salt: Seq<u8>, secret: Seq<u8>) -> Seq<u8> {
    hex_digits_of(argon2i_of(password, mask_bytes(salt, secret)))
}

/// Relies on `argon2rs::argon2i_simple`: a 32-byte Argon2i digest of the
/// password under the salt with the crate's default cost parameters, a
/// deterministic function of the two. The crate asserts a salt length of 8
/// to 2^32-1 bytes; this wrapper hands the salt over as text, so it must be
/// ASCII.
#[verifier::external_body]
fn argon2i_digest(password: &str, salt: &Vec<u8>) -> (r: Vec<u8>)
    requires
        8 <= salt@.len() <= 0xffffffff,
        password.spec_bytes().len() <= 0xffffffff,
        forall|i: int| 0 <= i < salt@.len() ==> salt@[i] < 128,
    ensures
        r@ == argon2i_of(password@, salt@),
        r@.len() == 32,
{
    match core::str::from_utf8(salt) {
        Ok(s) => argon2rs::argon2i_simple(password, s).to_vec(),
        Err(_) => Vec::new(),
    }
}

/// Masks `text` byte-wise with `mask`: each byte becomes the sum of the two
/// bytes modulo 128, the mask cycling over its length. The result is always
/// ASCII text of the same byte length.
pub fn mask_str(text: &String, mask: &String) -> (r: String)
    requires
        encode_utf8(mask@).len() > 0 || encode_utf8(text@).len() == 0,
    ensures
        encode_utf8(r@) == mask_bytes(encode_utf8(text@), encode_utf8(mask@)),
{
    let sb = text.as_str().as_bytes();
    let mb = mask.as_str().as_bytes();
    let n = sb.len();
    let mut out: Vec<u8> = Vec::new();
    let mut i: usize = 0;
    while i < n
        invariant
            i <= n,
            n == sb@.len(),
            n > 0 ==> mb@.len() > 0,
            out@.len() == i,
            forall|k: int| 0 <= k < i ==> out@[k] == mask_bytes(sb@, mb@)[k],
        decreases n - i,
    {
        let mi = i % mb.len();
        let v = ((sb[i] as u16 + mb[mi] as u16) % 128) as u8;
        out.push(v);
        i += 1;
    }
    proof {
        assert(out@ =~= mask_bytes(sb@, mb@));
        assert forall|k: int| 0 <= k < out@.len() implies out@[k] < 128 by {
            assert(out@[k] == mask_bytes(sb@, mb@)[k]);
        }
        lemma_ascii_bytes_utf8(out@);
    }
    match utf8_to_string(out) {
        Some(s) => s,
        None => {
            proof {
                assert(false);
            }
            String::new()
        },
    }
}

/// Every byte of a hex rendering is an ASCII digit or lowercase letter.
proof fn lemma_hex_digits_ascii(d: Seq<u8>)
    ensures
        hex_digits_of(d).len() == 2 * d.len(),
        forall|i: int| 0 <= i < hex_digits_of(d).len() ==> #[trigger] hex_digits_of(d)[i] < 128,
    decreases d.len(),
{
    if d.len() == 0 {
    } else {
        lemma_hex_digits_ascii(d.drop_first());
        let h = hex_digits_of(d);
        let rest = hex_digits_of(d.drop_first());
        assert forall|i: int| 0 <= i < h.len() implies #[trigger] h[i] < 128 by {
            if i >= 2 {
                assert(h[i] == rest[i - 2]);
            }
        }
    }
}

/// Appends the hex text of `d` to `out`.
fn hex_push(out: &mut Vec<u8>, d: &Vec<u8>)
    ensures
        final(out)@ == old(out)@ + hex_digits_of(d@),
{
    let n = d.len();
    let mut i: usize = 0;
    proof {
        assert(d@.subrange(0, 0) =~= Seq::<u8>::empty());
        assert(out@ =~= old(out)@ + hex_digits_of(d@.subrange(0, 0)));
    }
    while i < n
        invariant
            i <= n,
            n == d@.len(),
            out@ == old(out)@ + hex_digits_of(d@.subrange(0, i as int)),
        decreases n - i,
    {
        let ghost pre = out@;
        let b = d[i];
        let hi = b / 16;
        let lo = b % 16;
        out.push(if hi < 10 { 48 + hi } else { 87 + hi });
        out.push(if lo < 10 { 48 + lo } else { 87 + lo });
        proof {
            lemma_hex_digits_concat(d@.subrange(0, i as int), seq![d@[i as int]]);
            assert(d@.subrange(0, i + 1) =~= d@.subrange(0, i as int) + seq![d@[i as int]]);
            let single = seq![d@[i as int]];
            assert(single.drop_first() =~= Seq::<u8>::empty());
            assert(hex_digits_of(Seq::<u8>::empty()) =~= Seq::<u8>::empty());
            assert(hex_digits_of(single) =~= seq![
                hex_lc((b as int) / 16),
                hex_lc((b as int) % 16),
            ]);
            assert(out@ =~= pre + hex_digits_of(single));
            assert(out@ =~= old(out)@ + hex_digits_of(d@.subrange(0, i + 1)));
        }
        i += 1;
    }
    proof {
        assert(d@.subrange(0, n as int) =~= d@);
    }
}

/// Hex rendering distributes over concatenation.
proof fn lemma_hex_digits_concat(a: Seq<u8>, b: Seq<u8>)
    ensures
        hex_digits_of(a + b) == hex_digits_of(a) + hex_digits_of(b),
    decreases a.len(),
{
    if a.len() == 0 {
        assert(a + b =~= b);
        assert(hex_digits_of(a) =~= Seq::<u8>::empty());
        assert(hex_digits_of(a) + hex_digits_of(b) =~= hex_digits_of(b));
    } else {
        lemma_hex_digits_concat(a.drop_first(), b);
        assert((a + b).drop_first() =~= a.drop_first() + b);
        assert((a + b)[0] == a[0]);
        assert(hex_digits_of(a) + hex_digits_of(b) =~= seq![
            hex_lc((a[0] as int) / 16),
            hex_lc((a[0] as int) % 16),
        ] + (hex_digits_of(a.drop_first()) + hex_digits_of(b)));
    }
}

/// Derives the password digest: masks the per-record salt with the server
/// secret, runs Argon2i over the password with the masked salt, and renders
/// the digest as 64 lowercase hex characters.
///
/// Fails, as a configuration error, exactly when the salt is shorter than
/// the 8 bytes the hash function demands (the empty salt included) or
/// beyond its 2^32-1 byte bound, or the secret is empty.
pub fn hash(password: &str, salt: &String, secret: &String) -> (r: Result<String, ApiError>)
    requires
        password.spec_bytes().len() <= 0xffffffff,
    ensures
        ({
            let sb = encode_utf8(salt@);
            let kb = encode_utf8(secret@);
            match r {
                Ok(d) => 8 <= sb.len() <= 0xffffffff && kb.len() > 0 && encode_utf8(d@)
                    == digest_bytes_of(password@, sb, kb) && d@.len() == 64,
                Err(e) => e is ConfigurationError && (sb.len() < 8 || sb.len() > 0xffffffff
                    || kb.len() == 0),
            }
        }),
{
    let sbl = salt.as_str().as_bytes().len();
    if sbl < 8 || sbl > 0xffffffff || secret.as_str().as_bytes().len() == 0 {
        return Err(ApiError::ConfigurationError(String::from_str("unusable salt configuration")));
    }
    let masked_text = mask_str(salt, secret);
    let masked = masked_text.as_str().as_bytes_vec();
    proof {
        let mk = mask_bytes(encode_utf8(salt@), encode_utf8(secret@));
        assert(masked@ == mk);
        assert(mk.len() == encode_utf8(salt@).len());
        assert forall|i: int| 0 <= i < masked@.len() implies masked@[i] < 128 by {
            assert(masked@[i] == mk[i]);
        }
    }
    let dig = argon2i_digest(password, &masked);
    let mut hexed: Vec<u8> = Vec::new();
    hex_push(&mut hexed, &dig);
    proof {
        assert(hexed@ == hex_digits_of(dig@));
        lemma_hex_digits_ascii(dig@);
        assert forall|i: int| 0 <= i < hexed@.len() implies hexed@[i] < 128 by {
            assert(hexed@[i] == hex_digits_of(dig@)[i]);
        }
        lemma_ascii_bytes_utf8(hexed@);
    }
    let ghost hexed_view = hexed@;
    match utf8_to_string(hexed) {
        Some(d) => {
            proof {
                lemma_ascii_bytes_utf8(hexed_view);
                encode_utf8_decode_utf8(d@);
                assert(d@ == decode_utf8(hexed_view));
            }
            Ok(d)
        },
        None => {
            proof {
                assert(false);
            }
            Err(ApiError::ConfigurationError(String::from_str("unusable salt configuration")))
        },
    }
}

/// Law: hashing is deterministic. Any two digests derived from the same
/// password, salt and secret are equal, on every invocation.
pub proof fn lemma_hash_deterministic(
    d1: Seq<u8>,
    d2: Seq<u8>,
    password: Seq<char>,
    salt: Seq<u8>,
    secret: Seq<u8>,
)
    requires
        d1 == digest_bytes_of(password, salt, secret),
        d2 == digest_bytes_of(password, salt, secret),
    ensures
        d1 == d2,
{
}

} // verus!

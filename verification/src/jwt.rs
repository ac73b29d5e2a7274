//! The claims codec: issuing and decoding the signed compact tokens that all
//! three services exchange as bearer credentials.
//!
//! A token is `base64url(header) "." base64url(claims) "." tag`, where the
//! tag is the base64url HMAC-SHA512 of everything before the second dot,
//! computed under a process-wide secret. The header and claims renderings
//! are canonical and fully verified; only the HMAC itself is delegated to an
//! outside implementation. Decoding checks the signature before it trusts
//! any field of the payload, the expiry included.

use vstd::prelude::*;
use vstd::utf8::decode_utf8;
use vstd::utf8::encode_utf8;
use vstd::utf8::valid_utf8;

use crate::base64url::b64url_decode;
use crate::base64url::b64url_encode;
use crate::base64url::is_b64_byte;
use crate::base64url::lemma_b64_encode_alphabet;
use crate::base64url::lemma_b64_roundtrip;
use crate::base64url::spec_b64_decode;
use crate::base64url::spec_b64_encode;
use crate::claims::claims_json_bytes;
use crate::claims::parse_claims_bytes;
use crate::claims::push_bytes;
use crate::claims::spec_claims_json;
use crate::claims::Claims;
use crate::claims::ClaimsView;

verus! {

/// Why a token was rejected: the three coarse categories a caller may learn.
#[derive(Debug, Clone, Copy, PartialEq, Eq, Structural)]
pub enum DecodeError {
    /// Signature valid, expiry in the past.
    Expired,
    /// The signature does not match the recomputed digest under the secret.
    InvalidSignature,
    /// Structurally invalid token, wrong algorithm header included.
    Malformed,
}

/// Sessions last this long, from issue to expiry.
pub const TOKEN_TTL_SECONDS: u64 = 60;

/// An authenticated request's guard: the claims a presented token proved.
#[derive(Debug)]
pub struct JWT {
    pub claims: Claims,
}

// ---------------------------------------------------------------------------
// The trusted signing primitive
// ---------------------------------------------------------------------------
/// The base64url text of the HMAC-SHA512 digest of `message` under `secret`:
/// a function of the two arguments alone.
pub uninterp spec fn hs512_tag(message: Seq<u8>, secret: Seq<u8>) -> Seq<char>;

/// The base64url alphabet, as characters.
pub open spec fn is_b64url_char(c: char) -> bool {
    ('A' <= c && c <= 'Z') || ('a' <= c && c <= 'z') || ('0' <= c && c <= '9') || c == '-'
        || c == '_'
}

pub open spec fn is_b64url_chars(s: Seq<char>) -> bool {
    forall|i: int| 0 <= i < s.len() ==> is_b64url_char(#[trigger] s[i])
}

/// Relies on `jsonwebtoken::crypto::sign` with `Algorithm::HS512`: it returns
/// the unpadded base64url encoding of the HMAC-SHA512 digest of the message
/// under the secret — a function of message and secret alone, never an error
/// for an HMAC algorithm, and made only of base64url alphabet characters.
#[verifier::external_body]
fn sign_hs512(message: &[u8], secret: &[u8]) -> (r: String)
    ensures
        r@ == hs512_tag(message@, secret@),
        is_b64url_chars(r@),
{
    jsonwebtoken::crypto::sign(
        message,
        &jsonwebtoken::EncodingKey::from_secret(secret),
        jsonwebtoken::Algorithm::HS512,
    ).unwrap()
}

/// Relies on `String::from_utf8`: it succeeds exactly on valid UTF-8 input,
/// and the returned string's UTF-8 encoding is exactly the input bytes.
#[verifier::external_body]
fn string_from_utf8(bytes: Vec<u8>) -> (r: Option<String>)
    ensures
        r is Some <==> valid_utf8(bytes@),
        match r {
            Some(s) => encode_utf8(s@) == bytes@,
            None => !valid_utf8(bytes@),
        },
{
    match String::from_utf8(bytes) {
        Ok(s) => Some(s),
        Err(_) => None,
    }
}

// ---------------------------------------------------------------------------
// The wire format
// ---------------------------------------------------------------------------
/// `{"typ":"JWT","alg":"HS512"}`, the fixed header of every token.
pub open spec fn spec_header_json() -> Seq<u8> {
    seq![123u8, 34u8, 116u8, 121u8, 112u8, 34u8, 58u8, 34u8, 74u8, 87u8, 84u8, 34u8, 44u8, 34u8, 97u8, 108u8, 103u8, 34u8, 58u8, 34u8, 72u8, 83u8, 53u8, 49u8, 50u8, 34u8, 125u8]
}

/// Everything before the second dot: what the tag signs.
pub open spec fn spec_signing_input(c: ClaimsView) -> Seq<u8> {
    spec_b64_encode(spec_header_json()) + seq![46u8] + spec_b64_encode(spec_claims_json(c))
}

/// The whole token, as UTF-8 bytes.
pub open spec fn spec_token_bytes(c: ClaimsView, secret: Seq<u8>) -> Seq<u8> {
    spec_signing_input(c) + seq![46u8] + encode_utf8(hs512_tag(spec_signing_input(c), secret))
}

/// Index of the first occurrence of `b`, or `-1`.
pub open spec fn spec_find(s: Seq<u8>, b: u8) -> int
    decreases s.len(),
{
    if s.len() == 0 {
        -1
    } else if s[0] == b {
        0
    } else {
        let r = spec_find(s.drop_first(), b);
        if r == -1 {
            -1
        } else {
            r + 1
        }
    }
}

/// `spec_find` returns the position of the first occurrence.
pub proof fn lemma_find_at(s: Seq<u8>, b: u8, k: int)
    requires
        0 <= k < s.len(),
        s[k] == b,
        forall|j: int| 0 <= j < k ==> s[j] != b,
    ensures
        spec_find(s, b) == k,
    decreases k,
{
    if k > 0 {
        assert(forall|j: int| 0 <= j < k - 1 ==> s.drop_first()[j] == s[j + 1]);
        lemma_find_at(s.drop_first(), b, k - 1);
    }
}

/// `spec_find` returns `-1` exactly on absence.
pub proof fn lemma_find_none(s: Seq<u8>, b: u8)
    requires
        forall|j: int| 0 <= j < s.len() ==> s[j] != b,
    ensures
        spec_find(s, b) == -1,
    decreases s.len(),
{
    if s.len() > 0 {
        assert(forall|j: int| 0 <= j < s.drop_first().len() ==> s.drop_first()[j] == s[j + 1]);
        lemma_find_none(s.drop_first(), b);
    }
}

/// Bytes below 128 always form valid UTF-8.
pub proof fn lemma_ascii_valid_utf8(s: Seq<u8>)
    requires
        forall|i: int| 0 <= i < s.len() ==> s[i] < 128,
    ensures
        valid_utf8(s),
    decreases s.len(),
{
    if s.len() > 0 {
        let b = s[0];
        assert(b & 0x7f == b) by (bit_vector)
            requires
                b < 128,
        ;
        assert(vstd::utf8::valid_first_scalar(s));
        assert(vstd::utf8::length_of_first_scalar(s) == 1);
        assert(vstd::utf8::pop_first_scalar(s) =~= s.drop_first());
        lemma_ascii_valid_utf8(s.drop_first());
    }
}

// ---------------------------------------------------------------------------
// Decoding, at the specification level
// ---------------------------------------------------------------------------
/// The whitespace tolerated around a presented credential.
pub open spec fn is_ws(b: u8) -> bool {
    b == 32 || b == 9 || b == 10 || b == 13
}

/// `Bearer`, the optional scheme prefix of a presented credential.
pub open spec fn spec_bearer() -> Seq<u8> {
    seq![66u8, 101u8, 97u8, 114u8, 101u8, 114u8]
}

pub open spec fn spec_trim_start(t: Seq<u8>) -> Seq<u8>
    decreases t.len(),
{
    if t.len() > 0 && is_ws(t[0]) {
        spec_trim_start(t.drop_first())
    } else {
        t
    }
}

pub open spec fn spec_trim_end(t: Seq<u8>) -> Seq<u8>
    decreases t.len(),
{
    if t.len() > 0 && is_ws(t.last()) {
        spec_trim_end(t.drop_last())
    } else {
        t
    }
}

/// What remains of a presented credential once an optional leading `Bearer`
/// and surrounding whitespace are dropped.
pub open spec fn spec_strip_bearer(t: Seq<u8>) -> Seq<u8> {
    let u = if t.len() >= 6 && t.take(6) == spec_bearer() {
        t.skip(6)
    } else {
        t
    };
    spec_trim_end(spec_trim_start(u))
}

/// What decoding a bare credential (no prefix, no surrounding whitespace)
/// yields. The signature is checked before any field of the payload is read:
/// a forged token never reaches the header, claims or expiry logic.
pub open spec fn spec_decode_core(s: Seq<u8>, secret: Seq<u8>, now: u64) -> Result<
    ClaimsView,
    DecodeError,
> {
    let i = spec_find(s, 46);
    if i < 0 {
        Err(DecodeError::Malformed)
    } else {
        let j0 = spec_find(s.skip(i + 1), 46);
        if j0 < 0 {
            Err(DecodeError::Malformed)
        } else {
            let j = i + 1 + j0;
            let signing = s.take(j);
            let sig = s.skip(j + 1);
            if sig != encode_utf8(hs512_tag(signing, secret)) {
                Err(DecodeError::InvalidSignature)
            } else if spec_b64_decode(s.take(i)) != Some(spec_header_json()) {
                Err(DecodeError::Malformed)
            } else {
                match spec_b64_decode(s.subrange(i + 1, j)) {
                    None => Err(DecodeError::Malformed),
                    Some(pb) => match crate::claims::spec_parse_claims(pb) {
                        None => Err(DecodeError::Malformed),
                        Some((idb, emb, rob, exp)) => {
                            if !valid_utf8(idb) || !valid_utf8(emb) || !valid_utf8(rob) {
                                Err(DecodeError::Malformed)
                            } else if exp < now {
                                Err(DecodeError::Expired)
                            } else {
                                Ok(
                                    (ClaimsView {
                                        subject_id: decode_utf8(idb),
                                        subject_email: decode_utf8(emb),
                                        subject_role: decode_utf8(rob),
                                        exp,
                                    }),
                                )
                            }
                        },
                    },
                }
            }
        }
    }
}

/// What decoding a presented credential yields, prefix and whitespace
/// tolerated.
pub open spec fn spec_decode(t: Seq<u8>, secret: Seq<u8>, now: u64) -> Result<
    ClaimsView,
    DecodeError,
> {
    spec_decode_core(spec_strip_bearer(t), secret, now)
}

// ---------------------------------------------------------------------------
// Decoding, executable
// ---------------------------------------------------------------------------
/// Returns the position of the first dot at or after `from`.
fn find_dot(t: &[u8], from: usize) -> (r: Option<usize>)
    requires
        from <= t@.len(),
    ensures
        match r {
            Some(k) => from <= k < t@.len() && t@[k as int] == 46 && spec_find(
                t@.skip(from as int),
                46,
            ) == k - from,
            None => spec_find(t@.skip(from as int), 46) == -1,
        },
{
    let n = t.len();
    let mut k: usize = from;
    while k < n
        invariant
            n == t@.len(),
            from <= k <= n,
            forall|j: int| from <= j < k ==> t@[j] != 46,
        decreases n - k,
    {
        if t[k] == 46 {
            proof {
                assert(forall|j: int|
                    0 <= j < t@.skip(from as int).len() ==> t@.skip(from as int)[j] == t@[
                        from + j
                    ]);
                lemma_find_at(t@.skip(from as int), 46, k - from);
            }
            return Some(k);
        }
        k += 1;
    }
    proof {
        assert(forall|j: int|
            0 <= j < t@.skip(from as int).len() ==> t@.skip(from as int)[j] == t@[from + j]);
        lemma_find_none(t@.skip(from as int), 46);
    }
    None
}

/// Compares two byte strings.
fn bytes_eq(a: &[u8], b: &[u8]) -> (r: bool)
    ensures
        r == (a@ == b@),
{
    let n = a.len();
    if n != b.len() {
        return false;
    }
    let mut k: usize = 0;
    while k < n
        invariant
            n == a@.len(),
            n == b@.len(),
            k <= n,
            forall|j: int| 0 <= j < k ==> a@[j] == b@[j],
        decreases n - k,
    {
        if a[k] != b[k] {
            return false;
        }
        k += 1;
    }
    proof {
        assert(a@ =~= b@);
    }
    true
}

/// Decodes a bare credential: splits it at its dots, checks the signature
/// first, then the header, the canonical claims, and last the expiry.
pub fn decode_claims_core(cred: &[u8], secret: &[u8], now: u64) -> (r: Result<
    Claims,
    DecodeError,
>)
    ensures
        ({
            let d = spec_decode_core(cred@, secret@, now);
            match r {
                Ok(c) => d == Ok::<ClaimsView, DecodeError>(c@),
                Err(e) => d == Err::<ClaimsView, DecodeError>(e),
            }
        }),
{
    let n = cred.len();
    proof {
        assert(cred@.skip(0) =~= cred@);
    }
    let i = match find_dot(cred, 0) {
        Some(i) => i,
        None => {
            return Err(DecodeError::Malformed);
        },
    };
    let j = match find_dot(cred, i + 1) {
        Some(j) => j,
        None => {
            return Err(DecodeError::Malformed);
        },
    };
    let signing = vstd::slice::slice_subrange(cred, 0, j);
    let sig = vstd::slice::slice_subrange(cred, j + 1, n);
    let expected = sign_hs512(signing, secret);
    proof {
        assert(signing@ =~= cred@.take(j as int));
        assert(sig@ =~= cred@.skip(j as int + 1));
    }
    if !bytes_eq(sig, expected.as_str().as_bytes()) {
        return Err(DecodeError::InvalidSignature);
    }
    let hseg = vstd::slice::slice_subrange(cred, 0, i);
    proof {
        assert(hseg@ =~= cred@.take(i as int));
    }
    let hdec = match b64url_decode(hseg) {
        Some(h) => h,
        None => {
            return Err(DecodeError::Malformed);
        },
    };
    let hconst = header_json_bytes();
    if !bytes_eq(hdec.as_slice(), hconst.as_slice()) {
        return Err(DecodeError::Malformed);
    }
    let pseg = vstd::slice::slice_subrange(cred, i + 1, j);
    let pdec = match b64url_decode(pseg) {
        Some(p) => p,
        None => {
            return Err(DecodeError::Malformed);
        },
    };
    let parts = match parse_claims_bytes(pdec.as_slice()) {
        Some(q) => q,
        None => {
            return Err(DecodeError::Malformed);
        },
    };
    let exp = parts.3;
    let sid = match string_from_utf8(parts.0) {
        Some(s) => s,
        None => {
            return Err(DecodeError::Malformed);
        },
    };
    let sem = match string_from_utf8(parts.1) {
        Some(s) => s,
        None => {
            return Err(DecodeError::Malformed);
        },
    };
    let sro = match string_from_utf8(parts.2) {
        Some(s) => s,
        None => {
            return Err(DecodeError::Malformed);
        },
    };
    if exp < now {
        return Err(DecodeError::Expired);
    }
    let c = Claims { subject_id: sid, subject_email: sem, subject_role: sro, exp };
    proof {
        vstd::utf8::encode_utf8_decode_utf8(c.subject_id@);
        vstd::utf8::encode_utf8_decode_utf8(c.subject_email@);
        vstd::utf8::encode_utf8_decode_utf8(c.subject_role@);
        let d = spec_decode_core(cred@, secret@, now);
        assert(d->Ok_0 =~= c@);
    }
    Ok(c)
}

/// Decodes a bare token string, no prefix or whitespace tolerated: the
/// codec's own reading of what `encode_claims` writes.
pub fn decode_claims(token: &str, secret: &[u8], now: u64) -> (r: Result<Claims, DecodeError>)
    ensures
        ({
            let d = spec_decode_core(encode_utf8(token@), secret@, now);
            match r {
                Ok(c) => d == Ok::<ClaimsView, DecodeError>(c@),
                Err(e) => d == Err::<ClaimsView, DecodeError>(e),
            }
        }),
{
    decode_claims_core(token.as_bytes(), secret, now)
}

/// True when the byte at `k` is tolerated whitespace.
fn ws_at(t: &[u8], k: usize) -> (r: bool)
    requires
        k < t@.len(),
    ensures
        r == is_ws(t@[k as int]),
{
    let b = t[k];
    b == 32 || b == 9 || b == 10 || b == 13
}

/// Decodes a presented credential: drops an optional leading `Bearer` and
/// surrounding whitespace, then decodes the remainder.
pub fn decode_jwt(token: &str, secret: &[u8], now: u64) -> (r: Result<Claims, DecodeError>)
    ensures
        ({
            let d = spec_decode(encode_utf8(token@), secret@, now);
            match r {
                Ok(c) => d == Ok::<ClaimsView, DecodeError>(c@),
                Err(e) => d == Err::<ClaimsView, DecodeError>(e),
            }
        }),
{
    let tb = token.as_bytes();
    let n = tb.len();
    let bearer: Vec<u8> = vec![66u8, 101u8, 97u8, 114u8, 101u8, 114u8];
    proof {
        assert(bearer@ =~= spec_bearer());
        assert(tb@.skip(0) =~= tb@);
    }
    let s0 = match crate::jsontext::expect_bytes(tb, 0, bearer.as_slice()) {
        Some(j) => j,
        None => 0,
    };
    let ghost u = tb@.skip(s0 as int);
    proof {
        assert(u == (if tb@.len() >= 6 && tb@.take(6) == spec_bearer() {
            tb@.skip(6)
        } else {
            tb@
        }));
    }
    let mut a = s0;
    while a < n && ws_at(tb, a)
        invariant
            n == tb@.len(),
            s0 <= a <= n,
            u == tb@.skip(s0 as int),
            spec_trim_start(u) == spec_trim_start(tb@.subrange(a as int, n as int)),
        decreases n - a,
    {
        proof {
            let v = tb@.subrange(a as int, n as int);
            assert(v[0] == tb@[a as int]);
            assert(v.drop_first() =~= tb@.subrange(a + 1, n as int));
        }
        a += 1;
    }
    let ghost v = tb@.subrange(a as int, n as int);
    proof {
        assert(spec_trim_start(v) == v);
        assert(spec_trim_start(u) == v);
    }
    let mut b = n;
    while b > a && ws_at(tb, b - 1)
        invariant
            n == tb@.len(),
            a <= b <= n,
            v == tb@.subrange(a as int, n as int),
            spec_trim_end(v) == spec_trim_end(tb@.subrange(a as int, b as int)),
        decreases b,
    {
        proof {
            let w = tb@.subrange(a as int, b as int);
            assert(w.last() == tb@[b - 1]);
            assert(w.drop_last() =~= tb@.subrange(a as int, b - 1));
        }
        b -= 1;
    }
    proof {
        let w = tb@.subrange(a as int, b as int);
        assert(spec_trim_end(w) == w);
        assert(spec_strip_bearer(tb@) == w);
    }
    let cred = vstd::slice::slice_subrange(tb, a, b);
    decode_claims_core(cred, secret, now)
}

// ---------------------------------------------------------------------------
// What decoding makes of a well-formed token
// ---------------------------------------------------------------------------
/// A token's bytes fall apart into its three segments at its two dots.
proof fn lemma_token_split(c: ClaimsView, secret: Seq<u8>)
    ensures
        ({
            let hb = spec_b64_encode(spec_header_json());
            let pb = spec_b64_encode(spec_claims_json(c));
            let t = spec_token_bytes(c, secret);
            let i = hb.len() as int;
            let j = i + 1 + pb.len() as int;
            spec_find(t, 46) == i && spec_find(t.skip(i + 1), 46) == pb.len() && t.take(j)
                == spec_signing_input(c) && t.skip(j + 1) == encode_utf8(
                hs512_tag(spec_signing_input(c), secret),
            ) && t.take(i) == hb && t.subrange(i + 1, j) == pb
        }),
{
    let hb = spec_b64_encode(spec_header_json());
    let pb = spec_b64_encode(spec_claims_json(c));
    let signing = spec_signing_input(c);
    let tagb = encode_utf8(hs512_tag(signing, secret));
    let t = spec_token_bytes(c, secret);
    let i = hb.len() as int;
    let j = i + 1 + pb.len() as int;
    lemma_b64_encode_alphabet(spec_header_json());
    lemma_b64_encode_alphabet(spec_claims_json(c));
    assert(t =~= hb + seq![46u8] + pb + seq![46u8] + tagb);
    assert(t[i] == 46);
    assert forall|k: int| 0 <= k < i implies t[k] != 46 by {
        assert(t[k] == hb[k]);
        assert(is_b64_byte(hb[k]));
    }
    lemma_find_at(t, 46, i);
    let rest = t.skip(i + 1);
    assert(rest =~= pb + seq![46u8] + tagb);
    assert(rest[pb.len() as int] == 46);
    assert forall|k: int| 0 <= k < pb.len() implies rest[k] != 46 by {
        assert(rest[k] == pb[k]);
        assert(is_b64_byte(pb[k]));
    }
    lemma_find_at(rest, 46, pb.len() as int);
    assert(t.take(j) =~= signing);
    assert(t.skip(j + 1) =~= tagb);
    assert(t.take(i) =~= hb);
    assert(t.subrange(i + 1, j) =~= pb);
}

/// Decoding inverts issuing: a token built from any claims decodes back to
/// exactly those claims under the same secret whenever read before its
/// expiry, and reports `Expired` from the first instant after it.
pub proof fn lemma_token_decodes(c: ClaimsView, secret: Seq<u8>, now: u64)
    ensures
        spec_decode_core(spec_token_bytes(c, secret), secret, now) == (if now <= c.exp {
            Ok::<ClaimsView, DecodeError>(c)
        } else {
            Err::<ClaimsView, DecodeError>(DecodeError::Expired)
        }),
{
    let hb = spec_b64_encode(spec_header_json());
    let pjson = spec_claims_json(c);
    let pb = spec_b64_encode(pjson);
    let t = spec_token_bytes(c, secret);
    let i = hb.len() as int;
    let j = i + 1 + pb.len() as int;
    lemma_token_split(c, secret);
    lemma_b64_roundtrip(spec_header_json());
    lemma_b64_roundtrip(pjson);
    let idb = encode_utf8(c.subject_id);
    let emb = encode_utf8(c.subject_email);
    let rob = encode_utf8(c.subject_role);
    crate::claims::lemma_parse_obj_json(idb, emb, rob, c.exp);
    vstd::utf8::encode_utf8_valid_utf8(c.subject_id);
    vstd::utf8::encode_utf8_valid_utf8(c.subject_email);
    vstd::utf8::encode_utf8_valid_utf8(c.subject_role);
    vstd::utf8::encode_utf8_decode_utf8(c.subject_id);
    vstd::utf8::encode_utf8_decode_utf8(c.subject_email);
    vstd::utf8::encode_utf8_decode_utf8(c.subject_role);
    if now <= c.exp {
        let d = spec_decode_core(t, secret, now);
        assert(d is Ok);
        assert(d->Ok_0 =~= c);
    }
}

/// Changing any byte of a token's signature segment, to any other value,
/// makes decoding report `InvalidSignature` — never a successful
/// authentication.
pub proof fn lemma_tamper_detected(c: ClaimsView, secret: Seq<u8>, now: u64, p: int, b2: u8)
    requires
        spec_signing_input(c).len() + 1 <= p < spec_token_bytes(c, secret).len(),
        b2 != spec_token_bytes(c, secret)[p],
    ensures
        spec_decode_core(spec_token_bytes(c, secret).update(p, b2), secret, now) == Err::<
            ClaimsView,
            DecodeError,
        >(DecodeError::InvalidSignature),
{
    let hb = spec_b64_encode(spec_header_json());
    let pb = spec_b64_encode(spec_claims_json(c));
    let signing = spec_signing_input(c);
    let tagb = encode_utf8(hs512_tag(signing, secret));
    let t = spec_token_bytes(c, secret);
    let t2 = t.update(p, b2);
    let i = hb.len() as int;
    let j = i + 1 + pb.len() as int;
    lemma_token_split(c, secret);
    lemma_b64_encode_alphabet(spec_header_json());
    lemma_b64_encode_alphabet(spec_claims_json(c));
    assert(signing.len() == j);
    assert(t2.len() == t.len());
    assert(forall|k: int| 0 <= k < t.len() && k != p ==> t2[k] == t[k]);
    assert(t2[i] == 46);
    assert forall|k: int| 0 <= k < i implies t2[k] != 46 by {
        assert(t2[k] == t[k]);
        assert(t[k] == hb[k]);
        assert(crate::base64url::is_b64_byte(hb[k]));
    }
    lemma_find_at(t2, 46, i);
    let rest2 = t2.skip(i + 1);
    assert(rest2[pb.len() as int] == t2[j]);
    assert(t2[j] == 46);
    assert forall|k: int| 0 <= k < pb.len() implies rest2[k] != 46 by {
        assert(rest2[k] == t2[i + 1 + k]);
        assert(t2[i + 1 + k] == t[i + 1 + k]);
        assert(t[i + 1 + k] == pb[k]);
        assert(crate::base64url::is_b64_byte(pb[k]));
    }
    lemma_find_at(rest2, 46, pb.len() as int);
    assert(t2.take(j) =~= signing);
    let sig2 = t2.skip(j + 1);
    assert(sig2.len() == tagb.len());
    assert(sig2[p - (j + 1)] == b2);
    assert(t[p] == tagb[p - (j + 1)]);
    assert(sig2 != tagb);
}

/// Trimming trailing whitespace only shortens the text, and never past a
/// known non-whitespace byte.
proof fn lemma_trim_end_take(s: Seq<u8>, k: int)
    requires
        0 <= k < s.len(),
        !is_ws(s[k]),
    ensures
        exists|m: int| k + 1 <= m <= s.len() && spec_trim_end(s) == s.take(m),
    decreases s.len(),
{
    if s.len() > 0 && is_ws(s.last()) {
        assert(k < s.len() - 1);
        let shorter = s.take(s.len() - 1);
        assert(s.drop_last() =~= shorter);
        assert(shorter[k] == s[k]);
        lemma_trim_end_take(shorter, k);
        let m0 = choose|m0: int|
            k + 1 <= m0 <= shorter.len() && spec_trim_end(shorter) == shorter.take(m0);
        assert(shorter.take(m0) =~= s.take(m0));
        assert(spec_trim_end(s) == s.take(m0));
    } else {
        assert(s.take(s.len() as int) =~= s);
        assert(spec_trim_end(s) == s.take(s.len() as int));
    }
}

/// The tamper guarantee holds of the presented form too: however the
/// stripping of prefix and whitespace falls on a tampered token, decoding
/// still reports `InvalidSignature`.
pub proof fn lemma_tamper_detected_presented(c: ClaimsView, secret: Seq<u8>, now: u64, p: int, b2: u8)
    requires
        spec_signing_input(c).len() + 1 <= p < spec_token_bytes(c, secret).len(),
        b2 != spec_token_bytes(c, secret)[p],
    ensures
        spec_decode(spec_token_bytes(c, secret).update(p, b2), secret, now) == Err::<
            ClaimsView,
            DecodeError,
        >(DecodeError::InvalidSignature),
{
    let hb = spec_b64_encode(spec_header_json());
    let pb = spec_b64_encode(spec_claims_json(c));
    let signing = spec_signing_input(c);
    let tagb = encode_utf8(hs512_tag(signing, secret));
    let t = spec_token_bytes(c, secret);
    let t2 = t.update(p, b2);
    let i = hb.len() as int;
    let j = i + 1 + pb.len() as int;
    lemma_token_split(c, secret);
    lemma_b64_encode_alphabet(spec_header_json());
    lemma_b64_encode_alphabet(spec_claims_json(c));
    assert(signing.len() == j);
    // the tampered token still opens with the header's first byte, `e`
    assert(spec_header_json()[0] == 123);
    assert(123u8 >> 2 == 30) by (bit_vector);
    assert(hb[0] == crate::base64url::b64_char_of(30));
    assert(t2[0] == t[0]);
    assert(t2[0] == 101);
    if t2.len() >= 6 {
        assert(t2.take(6)[0] == t2[0]);
        assert(t2.take(6) != spec_bearer());
    }
    assert(spec_trim_start(t2) == t2);
    // trailing-whitespace trimming cannot reach past the second dot
    assert(t2[j] == t[j]);
    assert(t2[j] == 46);
    lemma_trim_end_take(t2, j);
    let m = choose|m: int| j + 1 <= m <= t2.len() && spec_trim_end(t2) == t2.take(m);
    let s = t2.take(m);
    assert(spec_strip_bearer(t2) == s);
    // both dots sit where they did in the intact token
    assert(s[i] == 46);
    assert forall|k: int| 0 <= k < i implies s[k] != 46 by {
        assert(s[k] == t[k]);
        assert(t[k] == hb[k]);
        assert(is_b64_byte(hb[k]));
    }
    lemma_find_at(s, 46, i);
    let rest = s.skip(i + 1);
    assert(rest[pb.len() as int] == s[j]);
    assert(s[j] == 46);
    assert forall|k: int| 0 <= k < pb.len() implies rest[k] != 46 by {
        assert(rest[k] == s[i + 1 + k]);
        assert(s[i + 1 + k] == t[i + 1 + k]);
        assert(t[i + 1 + k] == pb[k]);
        assert(is_b64_byte(pb[k]));
    }
    lemma_find_at(rest, 46, pb.len() as int);
    assert(s.take(j) =~= signing);
    // whatever the trim left of the signature segment, it is not the tag
    let sig2 = s.skip(j + 1);
    assert(tagb.len() == t.len() - (j + 1));
    assert(sig2.len() == m - (j + 1));
    if m == t.len() {
        assert(sig2[p - (j + 1)] == b2);
        assert(t[p] == tagb[p - (j + 1)]);
        assert(sig2 != tagb);
    } else {
        assert(sig2.len() < tagb.len());
        assert(sig2 != tagb);
    }
}

/// A credential presented as `Bearer <token>` decodes exactly as the bare
/// `<token>` does.
pub proof fn lemma_bearer_prefix(c: ClaimsView, secret: Seq<u8>, now: u64)
    ensures
        spec_decode(
            spec_bearer() + seq![32u8] + spec_token_bytes(c, secret),
            secret,
            now,
        ) == spec_decode(spec_token_bytes(c, secret), secret, now),
{
    let t = spec_token_bytes(c, secret);
    let hb = spec_b64_encode(spec_header_json());
    let pb = spec_b64_encode(spec_claims_json(c));
    let tagb = encode_utf8(hs512_tag(spec_signing_input(c), secret));
    assert(t =~= hb + seq![46u8] + pb + seq![46u8] + tagb);
    // the token opens with the header segment's first byte, `e`
    assert(spec_header_json()[0] == 123);
    assert(123u8 >> 2 == 30) by (bit_vector);
    assert(hb[0] == crate::base64url::b64_char_of(30));
    assert(hb[0] == 101);
    assert(t[0] == 101);
    // so the bare form is neither prefixed nor padded
    if t.len() >= 6 {
        assert(t.take(6)[0] == t[0]);
        assert(t.take(6) != spec_bearer());
    }
    assert(spec_trim_start(t) == t);
    // and the prefixed form strips down to the bare token
    let bt = spec_bearer() + seq![32u8] + t;
    assert(bt.len() >= 6);
    assert(bt.take(6) =~= spec_bearer());
    assert(bt.skip(6) =~= seq![32u8] + t);
    assert((seq![32u8] + t)[0] == 32);
    assert((seq![32u8] + t).drop_first() =~= t);
    assert(spec_trim_start(seq![32u8] + t) == t);
    assert(spec_strip_bearer(bt) == spec_trim_end(t));
    assert(spec_strip_bearer(t) == spec_trim_end(t));
}

// ---------------------------------------------------------------------------
// Encoding
// ---------------------------------------------------------------------------
/// Returns the fixed header bytes.
fn header_json_bytes() -> (r: Vec<u8>)
    ensures
        r@ == spec_header_json(),
{
    let h: Vec<u8> = vec![123u8, 34u8, 116u8, 121u8, 112u8, 34u8, 58u8, 34u8, 74u8, 87u8, 84u8, 34u8, 44u8, 34u8, 97u8, 108u8, 103u8, 34u8, 58u8, 34u8, 72u8, 83u8, 53u8, 49u8, 50u8, 34u8, 125u8];
    proof {
        assert(h@ =~= spec_header_json());
    }
    h
}

/// Serialises the claims, signs them under the secret, and returns the
/// wire-format token. Succeeds on every input: the token's UTF-8 bytes are
/// exactly the signed canonical rendering, and the signing tag is base64url
/// text.
pub fn encode_claims(claims: &Claims, secret: &[u8]) -> (r: String)
    ensures
        encode_utf8(r@) == spec_token_bytes(claims@, secret@),
        is_b64url_chars(hs512_tag(spec_signing_input(claims@), secret@)),
{
    let hjson = header_json_bytes();
    let hb64 = b64url_encode(hjson.as_slice());
    let pjson = claims_json_bytes(claims);
    let pb64 = b64url_encode(pjson.as_slice());
    let mut msg: Vec<u8> = Vec::new();
    push_bytes(&mut msg, hb64.as_slice());
    msg.push(46);
    push_bytes(&mut msg, pb64.as_slice());
    proof {
        assert(msg@ =~= spec_signing_input(claims@));
    }
    let tag = sign_hs512(msg.as_slice(), secret);
    let mut tok = msg;
    tok.push(46);
    push_bytes(&mut tok, tag.as_str().as_bytes());
    proof {
        assert(tok@ =~= spec_token_bytes(claims@, secret@));
        lemma_b64_encode_alphabet(spec_header_json());
        lemma_b64_encode_alphabet(spec_claims_json(claims@));
        let hb = spec_b64_encode(spec_header_json());
        let pb = spec_b64_encode(spec_claims_json(claims@));
        let signing = spec_signing_input(claims@);
        let sp1 = signing + seq![46u8];
        assert forall|i: int| 0 <= i < sp1.len() implies sp1[i] < 128 by {
            if i < hb.len() {
                assert(sp1[i] == hb[i]);
                assert(is_b64_byte(hb[i]));
            } else if i == hb.len() {
                assert(sp1[i] == 46);
            } else if i < signing.len() {
                assert(sp1[i] == pb[i - hb.len() - 1]);
                assert(is_b64_byte(pb[i - hb.len() - 1]));
            } else {
                assert(sp1[i] == 46);
            }
        }
        lemma_ascii_valid_utf8(sp1);
        vstd::utf8::encode_utf8_valid_utf8(tag@);
        vstd::utf8::valid_utf8_concat(sp1, encode_utf8(tag@));
        assert(sp1 + encode_utf8(tag@) =~= tok@);
    }
    match string_from_utf8(tok) {
        Some(s) => s,
        None => {
            proof {
                assert(false);
            }
            String::new()
        },
    }
}

/// Builds a token for an authenticated identity: the claims carry the three
/// subject fields and expire `TOKEN_TTL_SECONDS` after `now`.
pub fn create_jwt(id: String, email: String, role: String, now: u64, secret: &[u8]) -> (r: String)
    requires
        now + TOKEN_TTL_SECONDS <= u64::MAX,
    ensures
        ({
            let c = (ClaimsView {
                subject_id: id@,
                subject_email: email@,
                subject_role: role@,
                exp: (now + TOKEN_TTL_SECONDS) as u64,
            });
            encode_utf8(r@) == spec_token_bytes(c, secret@) && is_b64url_chars(
                hs512_tag(spec_signing_input(c), secret@),
            )
        }),
{
    let claims = Claims {
        subject_id: id,
        subject_email: email,
        subject_role: role,
        exp: now + TOKEN_TTL_SECONDS,
    };
    encode_claims(&claims, secret)
}

} // verus!

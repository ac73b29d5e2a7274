//! Per-request authentication: resolving the caller's identity from the
//! authorization header, and mapping failures onto the uniform error
//! replies.

use vstd::prelude::*;
use vstd::string::StringExecFns;
use vstd::utf8::encode_utf8;

use crate::claims::Claims;
use crate::claims::ClaimsView;
use crate::jwt::decode_jwt;
use crate::jwt::encode_claims;
use crate::jwt::hs512_tag;
use crate::jwt::is_b64url_chars;
use crate::jwt::spec_decode;
use crate::jwt::spec_signing_input;
use crate::jwt::spec_strip_bearer;
use crate::jwt::spec_token_bytes;
use crate::jwt::DecodeError;
use crate::jwt::TOKEN_TTL_SECONDS;
use crate::response::error_message;
use crate::response::error_response;
use crate::response::ResponseError;

verus! {

/// The exhaustive result of validating one inbound token: exactly one
/// variant per request, no partial states.
#[derive(Debug)]
pub enum AuthOutcome {
    /// The token verified; these are its claims.
    Authenticated(Claims),
    /// The request carried no authorization header.
    Missing,
    /// Signature valid, expiry in the past.
    Expired,
    /// Structurally invalid token.
    Malformed,
    /// The signature does not match the secret.
    SignatureInvalid,
}

/// The mathematical content of an [`AuthOutcome`].
pub enum AuthDecision {
    Authenticated(ClaimsView),
    Missing,
    Expired,
    Malformed,
    SignatureInvalid,
}

impl View for AuthOutcome {
    type V = AuthDecision;

    open spec fn view(&self) -> AuthDecision {
        match self {
            AuthOutcome::Authenticated(c) => AuthDecision::Authenticated(c@),
            AuthOutcome::Missing => AuthDecision::Missing,
            AuthOutcome::Expired => AuthDecision::Expired,
            AuthOutcome::Malformed => AuthDecision::Malformed,
            AuthOutcome::SignatureInvalid => AuthDecision::SignatureInvalid,
        }
    }
}

/// What validating a request's authorization header yields: absence is
/// `Missing`; a present credential is stripped and decoded, and each decode
/// error keeps its own category.
pub open spec fn spec_authenticate(header: Option<Seq<char>>, secret: Seq<u8>, now: u64) -> AuthDecision {
    match header {
        None => AuthDecision::Missing,
        Some(h) => match spec_decode(encode_utf8(h), secret, now) {
            Ok(c) => AuthDecision::Authenticated(c),
            Err(DecodeError::Expired) => AuthDecision::Expired,
            Err(DecodeError::InvalidSignature) => AuthDecision::SignatureInvalid,
            Err(DecodeError::Malformed) => AuthDecision::Malformed,
        },
    }
}

/// Validates inbound requests against the process-wide secret, injected once
/// at construction and never re-read.
pub struct RequestAuthenticator {
    secret: Vec<u8>,
}

impl View for RequestAuthenticator {
    type V = Seq<u8>;

    closed spec fn view(&self) -> Seq<u8> {
        self.secret@
    }
}

impl RequestAuthenticator {
    /// A validator holding the shared secret.
    pub fn new(secret: Vec<u8>) -> (r: Self)
        ensures
            r@ == secret@,
    {
        RequestAuthenticator { secret }
    }

    /// Resolves the caller's identity from the request's authorization
    /// header, before any business logic runs: exactly one outcome per
    /// request.
    pub fn authenticate(&self, header: Option<&str>, now: u64) -> (r: AuthOutcome)
        ensures
            r@ == spec_authenticate(
                match header {
                    Some(h) => Some(h@),
                    None => None,
                },
                self@,
                now,
            ),
    {
        match header {
            None => AuthOutcome::Missing,
            Some(h) => match decode_jwt(h, self.secret.as_slice(), now) {
                Ok(c) => AuthOutcome::Authenticated(c),
                Err(DecodeError::Expired) => AuthOutcome::Expired,
                Err(DecodeError::InvalidSignature) => AuthOutcome::SignatureInvalid,
                Err(DecodeError::Malformed) => AuthOutcome::Malformed,
            },
        }
    }
}

/// A token never needs stripping or trimming: it opens with the header
/// segment and closes with base64url signature text.
proof fn lemma_token_strip_identity(c: ClaimsView, secret: Seq<u8>)
    requires
        is_b64url_chars(hs512_tag(spec_signing_input(c), secret)),
    ensures
        spec_strip_bearer(spec_token_bytes(c, secret)) == spec_token_bytes(c, secret),
{
    let hb = crate::base64url::spec_b64_encode(crate::jwt::spec_header_json());
    let pb = crate::base64url::spec_b64_encode(crate::claims::spec_claims_json(c));
    let tag = hs512_tag(spec_signing_input(c), secret);
    let tagb = encode_utf8(tag);
    let t = spec_token_bytes(c, secret);
    assert(t =~= hb + seq![46u8] + pb + seq![46u8] + tagb);
    assert(crate::jwt::spec_header_json()[0] == 123);
    assert(123u8 >> 2 == 30) by (bit_vector);
    assert(hb[0] == crate::base64url::b64_char_of(30));
    assert(t[0] == 101);
    if t.len() >= 6 {
        assert(t.take(6)[0] == t[0]);
        assert(t.take(6) != crate::jwt::spec_bearer());
    }
    assert(crate::jwt::spec_trim_start(t) == t);
    // the last byte is signature text, or the second dot when the tag is empty
    vstd::utf8::is_ascii_chars_encode_utf8(tag);
    if tagb.len() > 0 {
        assert(t.last() == tagb[tagb.len() - 1]);
        assert(tagb[tagb.len() - 1] == tag[tagb.len() - 1] as u8);
        assert(crate::jwt::is_b64url_char(tag[tagb.len() - 1]));
        assert(!crate::jwt::is_ws(t.last()));
    } else {
        assert(t.last() == 46);
    }
    assert(crate::jwt::spec_trim_end(t) == t);
}

/// Issues fresh session tokens under the process-wide secret, injected once
/// at construction.
pub struct TokenIssuer {
    secret: Vec<u8>,
    ttl_seconds: u64,
}

impl TokenIssuer {
    pub closed spec fn spec_secret(&self) -> Seq<u8> {
        self.secret@
    }

    pub closed spec fn spec_ttl(&self) -> u64 {
        self.ttl_seconds
    }

    /// An issuer with the default session length.
    pub fn new(secret: Vec<u8>) -> (r: Self)
        ensures
            r.spec_secret() == secret@,
            r.spec_ttl() == TOKEN_TTL_SECONDS,
    {
        TokenIssuer { secret, ttl_seconds: TOKEN_TTL_SECONDS }
    }

    /// An issuer with a chosen session length.
    pub fn with_ttl(secret: Vec<u8>, ttl_seconds: u64) -> (r: Self)
        ensures
            r.spec_secret() == secret@,
            r.spec_ttl() == ttl_seconds,
    {
        TokenIssuer { secret, ttl_seconds }
    }

    /// Builds a token for an authenticated identity, expiring one session
    /// length after `now`. Every authenticator configured with the same
    /// secret accepts the token, and yields exactly these claims, until its
    /// expiry; from the first instant after it, the same authenticator
    /// reports it expired.
    pub fn issue(&self, id: String, email: String, role: String, now: u64) -> (r: String)
        requires
            now + self.spec_ttl() <= u64::MAX,
        ensures
            ({
                let c = (ClaimsView {
                    subject_id: id@,
                    subject_email: email@,
                    subject_role: role@,
                    exp: (now + self.spec_ttl()) as u64,
                });
                encode_utf8(r@) == spec_token_bytes(c, self.spec_secret()) && forall|now2: u64|
                    spec_authenticate(Some(r@), self.spec_secret(), now2) == (if now2 <= c.exp {
                        AuthDecision::Authenticated(c)
                    } else {
                        AuthDecision::Expired
                    })
            }),
    {
        let claims = Claims {
            subject_id: id,
            subject_email: email,
            subject_role: role,
            exp: now + self.ttl_seconds,
        };
        let token = encode_claims(&claims, self.secret.as_slice());
        proof {
            let c = claims@;
            let key = self.spec_secret();
            lemma_token_strip_identity(c, key);
            assert forall|now2: u64|
                spec_authenticate(Some(token@), key, now2) == (if now2 <= c.exp {
                    AuthDecision::Authenticated(c)
                } else {
                    AuthDecision::Expired
                }) by {
                crate::jwt::lemma_token_decodes(c, key, now2);
            }
        }
        token
    }
}

/// The fixed, non-leaking message a failed validation sends to the client.
pub open spec fn spec_auth_error_message(d: AuthDecision) -> Seq<char> {
    match d {
        AuthDecision::Missing => "Error validating token - No token provided"@,
        AuthDecision::Expired => "Error validating token - Expired Token"@,
        _ => "Error validating token - Invalid Token"@,
    }
}

/// Maps a failed validation onto its HTTP status and uniform error body:
/// always 401, with one fixed message per category — signature and
/// structure failures are indistinguishable to the caller.
pub fn auth_error_response(outcome: &AuthOutcome) -> (r: (u16, ResponseError<String>))
    requires
        !(outcome is Authenticated),
    ensures
        r.0 == 401,
        error_message(r.1)@ == spec_auth_error_message(outcome@),
{
    let message = match outcome {
        AuthOutcome::Missing => String::from_str("Error validating token - No token provided"),
        AuthOutcome::Expired => String::from_str("Error validating token - Expired Token"),
        _ => String::from_str("Error validating token - Invalid Token"),
    };
    (401, error_response(message))
}

} // verus!

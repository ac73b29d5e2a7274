use labranet_common::claims::Claims;
use labranet_common::jwt::create_jwt;
use labranet_common::jwt::decode_claims;
use labranet_common::jwt::decode_jwt;
use labranet_common::jwt::encode_claims;
use labranet_common::jwt::DecodeError;
use labranet_common::jwt::TOKEN_TTL_SECONDS;

const SECRET: &[u8] = b"shared-process-secret";

fn sample_claims(exp: u64) -> Claims {
    Claims {
        subject_id: String::from("64b2f9f01c9d440000a1b2c3"),
        subject_email: String::from("a@x.com"),
        subject_role: String::from("Admin"),
        exp,
    }
}

#[test]
fn issue_then_decode_at_same_instant() {
    let token = create_jwt(
        String::from("64b2f9f01c9d440000a1b2c3"),
        String::from("a@x.com"),
        String::from("Admin"),
        1000,
        SECRET,
    );
    let claims = decode_jwt(&token, SECRET, 1000).expect("fresh token must decode");
    assert_eq!(claims.subject_id, "64b2f9f01c9d440000a1b2c3");
    assert_eq!(claims.subject_email, "a@x.com");
    assert_eq!(claims.subject_role, "Admin");
    assert_eq!(claims.exp, 1060);
}

#[test]
fn ttl_is_sixty_seconds() {
    assert_eq!(TOKEN_TTL_SECONDS, 60);
}

#[test]
fn round_trip_preserves_every_field() {
    let original = Claims {
        subject_id: String::from("id-123"),
        subject_email: String::from("user@example.org"),
        subject_role: String::from("Worker"),
        exp: 123_456_789,
    };
    let token = encode_claims(&original, SECRET);
    let decoded = decode_claims(&token, SECRET, 123_456_789).expect("must decode before expiry");
    assert_eq!(decoded, original);
}

#[test]
fn round_trip_with_escapes_and_unicode() {
    let original = Claims {
        subject_id: String::from("a\"b\\c\nd\te\u{1}f"),
        subject_email: String::from("caf\u{e9}@\u{65e5}\u{672c}.example"),
        subject_role: String::from("R\u{f4}le \u{1f512}"),
        exp: 42,
    };
    let token = encode_claims(&original, SECRET);
    let decoded = decode_claims(&token, SECRET, 0).expect("must decode before expiry");
    assert_eq!(decoded, original);
}

#[test]
fn expiry_boundary() {
    let t0: u64 = 1000;
    let token = create_jwt(
        String::from("id"),
        String::from("e@x"),
        String::from("Admin"),
        t0,
        SECRET,
    );
    assert!(decode_jwt(&token, SECRET, t0 + 59).is_ok());
    assert!(decode_jwt(&token, SECRET, t0 + 60).is_ok());
    assert_eq!(decode_jwt(&token, SECRET, t0 + 61), Err(DecodeError::Expired));
}

#[test]
fn tampering_any_signature_byte_is_detected() {
    let token = create_jwt(
        String::from("id"),
        String::from("e@x"),
        String::from("Admin"),
        1000,
        SECRET,
    );
    let sig_start = token.rfind('.').expect("token has dots") + 1;
    assert!(sig_start < token.len());
    for p in sig_start..token.len() {
        let mut bytes = token.as_bytes().to_vec();
        bytes[p] = if bytes[p] == b'A' { b'B' } else { b'A' };
        if bytes[p] == token.as_bytes()[p] {
            continue;
        }
        let tampered = String::from_utf8(bytes).unwrap();
        assert_eq!(
            decode_jwt(&tampered, SECRET, 1000),
            Err(DecodeError::InvalidSignature),
            "byte {} of the signature segment",
            p
        );
    }
}

#[test]
fn bearer_prefix_tolerated() {
    let token = create_jwt(
        String::from("id"),
        String::from("e@x"),
        String::from("Admin"),
        1000,
        SECRET,
    );
    let bare = decode_jwt(&token, SECRET, 1000).unwrap();
    let prefixed = decode_jwt(&format!("Bearer {}", token), SECRET, 1000).unwrap();
    let padded = decode_jwt(&format!("  {}  \n", token), SECRET, 1000).unwrap();
    let both = decode_jwt(&format!("Bearer  {} ", token), SECRET, 1000).unwrap();
    assert_eq!(bare, prefixed);
    assert_eq!(bare, padded);
    assert_eq!(bare, both);
}

#[test]
fn wrong_secret_is_signature_invalid() {
    let token = create_jwt(
        String::from("id"),
        String::from("e@x"),
        String::from("Admin"),
        1000,
        SECRET,
    );
    assert_eq!(
        decode_jwt(&token, b"some-other-secret", 1000),
        Err(DecodeError::InvalidSignature)
    );
}

#[test]
fn structurally_invalid_tokens_are_malformed() {
    assert_eq!(decode_jwt("", SECRET, 0), Err(DecodeError::Malformed));
    assert_eq!(decode_jwt("garbage", SECRET, 0), Err(DecodeError::Malformed));
    assert_eq!(decode_jwt("only.one-dot", SECRET, 0), Err(DecodeError::Malformed));
    assert_eq!(decode_jwt("Bearer", SECRET, 0), Err(DecodeError::Malformed));
}

#[test]
fn bad_signature_reported_before_bad_structure() {
    // the signature is checked first, so garbage segments under a garbage
    // signature surface as a signature failure, not as malformed content
    assert_eq!(
        decode_jwt("a.b.c", SECRET, 0),
        Err(DecodeError::InvalidSignature)
    );
}

#[test]
fn wrong_algorithm_header_is_malformed() {
    // a token whose signature is genuine HMAC-SHA512 but whose header names
    // another algorithm: the signature check passes, the header check does not
    let header = "{\"typ\":\"JWT\",\"alg\":\"HS256\"}";
    let payload = "{\"subject_id\":\"i\",\"subject_email\":\"e\",\"subject_role\":\"Admin\",\"exp\":99}";
    let h64 = labranet_common::base64url::b64url_encode(header.as_bytes());
    let p64 = labranet_common::base64url::b64url_encode(payload.as_bytes());
    let mut signing = h64.clone();
    signing.push(b'.');
    signing.extend_from_slice(&p64);
    let tag = jsonwebtoken::crypto::sign(
        &signing,
        &jsonwebtoken::EncodingKey::from_secret(SECRET),
        jsonwebtoken::Algorithm::HS512,
    )
    .unwrap();
    let token = format!("{}.{}", String::from_utf8(signing).unwrap(), tag);
    assert_eq!(decode_jwt(&token, SECRET, 0), Err(DecodeError::Malformed));
}

#[test]
fn non_utf8_payload_field_is_malformed() {
    // raw byte 0xff inside the subject_id string: canonical in shape, but the
    // field bytes are not UTF-8
    let mut payload: Vec<u8> = Vec::new();
    payload.extend_from_slice(b"{\"subject_id\":\"");
    payload.push(0xff);
    payload.extend_from_slice(b"\",\"subject_email\":\"e\",\"subject_role\":\"Admin\",\"exp\":99}");
    let header = "{\"typ\":\"JWT\",\"alg\":\"HS512\"}";
    let h64 = labranet_common::base64url::b64url_encode(header.as_bytes());
    let p64 = labranet_common::base64url::b64url_encode(&payload);
    let mut signing = h64.clone();
    signing.push(b'.');
    signing.extend_from_slice(&p64);
    let tag = jsonwebtoken::crypto::sign(
        &signing,
        &jsonwebtoken::EncodingKey::from_secret(SECRET),
        jsonwebtoken::Algorithm::HS512,
    )
    .unwrap();
    let token = format!("{}.{}", String::from_utf8(signing).unwrap(), tag);
    assert_eq!(decode_jwt(&token, SECRET, 0), Err(DecodeError::Malformed));
}

#[test]
fn signature_verifies_under_jsonwebtoken() {
    let claims = sample_claims(2000);
    let token = encode_claims(&claims, SECRET);
    let sig_start = token.rfind('.').unwrap();
    let (message, sig) = token.split_at(sig_start);
    let sig = &sig[1..];
    let ok = jsonwebtoken::crypto::verify(
        sig,
        message.as_bytes(),
        &jsonwebtoken::DecodingKey::from_secret(SECRET),
        jsonwebtoken::Algorithm::HS512,
    )
    .unwrap();
    assert!(ok, "the emitted signature must be the real HMAC-SHA512 tag");
}

#[test]
fn token_accepted_by_jsonwebtoken_decode() {
    let now = chrono::Utc::now().timestamp() as u64;
    let token = create_jwt(
        String::from("id-1"),
        String::from("a@x.com"),
        String::from("Worker"),
        now,
        SECRET,
    );
    let data = jsonwebtoken::decode::<serde_json::Value>(
        &token,
        &jsonwebtoken::DecodingKey::from_secret(SECRET),
        &jsonwebtoken::Validation::new(jsonwebtoken::Algorithm::HS512),
    )
    .expect("a freshly issued token must satisfy the reference implementation");
    assert_eq!(data.claims["subject_id"].as_str(), Some("id-1"));
    assert_eq!(data.claims["subject_email"].as_str(), Some("a@x.com"));
    assert_eq!(data.claims["subject_role"].as_str(), Some("Worker"));
    assert_eq!(data.claims["exp"].as_u64(), Some(now + 60));
}

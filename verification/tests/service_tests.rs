use labranet_common::auth::auth_error_response;
use labranet_common::auth::AuthOutcome;
use labranet_common::auth::RequestAuthenticator;
use labranet_common::auth::TokenIssuer;
use labranet_common::base64url::b64url_decode;
use labranet_common::base64url::b64url_encode;
use labranet_common::models::LoginModel;
use labranet_common::models::ReservationStatus;
use labranet_common::models::UserModel;
use labranet_common::response::bad_gateway;
use labranet_common::response::internal_sever_error;
use labranet_common::response::not_found;
use labranet_common::response::not_found_user;
use labranet_common::response::unauthorized;
use labranet_common::response::ResponseError;
use labranet_common::response::ResponseErrorBody;
use labranet_common::roles::Role;
use labranet_common::validate::map_field;
use labranet_common::validate::validate_log_in;
use labranet_common::validate::validate_sign_up;

const SECRET: &[u8] = b"shared-process-secret";

fn message_of(r: &ResponseError<String>) -> &str {
    match &r.error {
        ResponseErrorBody::Error(m) => m,
    }
}

#[test]
fn issuer_and_authenticator_agree_across_services() {
    let issuer = TokenIssuer::new(SECRET.to_vec());
    let other_service = RequestAuthenticator::new(SECRET.to_vec());
    let token = issuer.issue(
        String::from("64b2f9f01c9d440000a1b2c3"),
        String::from("a@x.com"),
        String::from("Admin"),
        1000,
    );
    match other_service.authenticate(Some(&token), 1000) {
        AuthOutcome::Authenticated(claims) => {
            assert_eq!(claims.subject_id, "64b2f9f01c9d440000a1b2c3");
            assert_eq!(claims.subject_email, "a@x.com");
            assert_eq!(claims.subject_role, "Admin");
            assert_eq!(claims.exp, 1060);
        },
        other => panic!("expected authentication, got {:?}", other),
    }
}

#[test]
fn different_secret_rejects_the_signature() {
    let issuer = TokenIssuer::new(SECRET.to_vec());
    let misconfigured = RequestAuthenticator::new(b"another-secret".to_vec());
    let token = issuer.issue(
        String::from("id"),
        String::from("e@x"),
        String::from("Admin"),
        1000,
    );
    assert!(matches!(
        misconfigured.authenticate(Some(&token), 1000),
        AuthOutcome::SignatureInvalid
    ));
}

#[test]
fn missing_header_yields_missing_and_401() {
    let auth = RequestAuthenticator::new(SECRET.to_vec());
    let outcome = auth.authenticate(None, 0);
    assert!(matches!(outcome, AuthOutcome::Missing));
    let (status, body) = auth_error_response(&outcome);
    assert_eq!(status, 401);
    assert_eq!(
        message_of(&body),
        "Error validating token - No token provided"
    );
}

#[test]
fn authenticator_classifies_each_failure() {
    let issuer = TokenIssuer::new(SECRET.to_vec());
    let auth = RequestAuthenticator::new(SECRET.to_vec());
    let token = issuer.issue(
        String::from("id"),
        String::from("e@x"),
        String::from("Worker"),
        1000,
    );
    assert!(matches!(
        auth.authenticate(Some(&token), 1061),
        AuthOutcome::Expired
    ));
    assert!(matches!(
        auth.authenticate(Some("not-a-token"), 1000),
        AuthOutcome::Malformed
    ));
    let mut bytes = token.clone().into_bytes();
    let last = bytes.len() - 1;
    bytes[last] = if bytes[last] == b'A' { b'B' } else { b'A' };
    let tampered = String::from_utf8(bytes).unwrap();
    assert!(matches!(
        auth.authenticate(Some(&tampered), 1000),
        AuthOutcome::SignatureInvalid
    ));
}

#[test]
fn authenticator_accepts_bearer_and_bare_forms() {
    let issuer = TokenIssuer::new(SECRET.to_vec());
    let auth = RequestAuthenticator::new(SECRET.to_vec());
    let token = issuer.issue(
        String::from("id"),
        String::from("e@x"),
        String::from("Worker"),
        1000,
    );
    let bearer_form = format!("Bearer {}", token);
    let a = auth.authenticate(Some(&token), 1000);
    let b = auth.authenticate(Some(&bearer_form), 1000);
    match (a, b) {
        (AuthOutcome::Authenticated(x), AuthOutcome::Authenticated(y)) => assert_eq!(x, y),
        other => panic!("expected two authentications, got {:?}", other),
    }
}

#[test]
fn issuer_with_custom_ttl() {
    let issuer = TokenIssuer::with_ttl(SECRET.to_vec(), 3600);
    let auth = RequestAuthenticator::new(SECRET.to_vec());
    let token = issuer.issue(
        String::from("id"),
        String::from("e@x"),
        String::from("Admin"),
        1000,
    );
    assert!(matches!(
        auth.authenticate(Some(&token), 4600),
        AuthOutcome::Authenticated(_)
    ));
    assert!(matches!(
        auth.authenticate(Some(&token), 4601),
        AuthOutcome::Expired
    ));
}

#[test]
fn failure_responses_carry_the_fixed_messages() {
    let (s1, b1) = auth_error_response(&AuthOutcome::Expired);
    assert_eq!(s1, 401);
    assert_eq!(message_of(&b1), "Error validating token - Expired Token");
    let (s2, b2) = auth_error_response(&AuthOutcome::Malformed);
    assert_eq!(s2, 401);
    assert_eq!(message_of(&b2), "Error validating token - Invalid Token");
    let (s3, b3) = auth_error_response(&AuthOutcome::SignatureInvalid);
    assert_eq!(s3, 401);
    assert_eq!(message_of(&b3), "Error validating token - Invalid Token");
}

#[test]
fn catch_all_bodies() {
    assert_eq!(message_of(&unauthorized()), "Unauthorize");
    assert_eq!(message_of(&not_found()), "Not Found");
    assert_eq!(message_of(&internal_sever_error()), "UNKNOWN Json");
    assert_eq!(message_of(&bad_gateway()), "Bad Gateway");
    let (status, body) = not_found_user();
    assert_eq!(status, 400);
    assert_eq!(message_of(&body), "Not found User");
}

#[test]
fn role_and_status_names() {
    assert_eq!(Role::Admin.name(), "Admin");
    assert_eq!(Role::Worker.name(), "Worker");
    assert_eq!(ReservationStatus::Save.name(), "Save");
    assert_eq!(ReservationStatus::Complete.name(), "Complete");
    assert_eq!(ReservationStatus::Cancel.name(), "Cancel");
}

#[test]
fn map_field_flags_only_empty_fields() {
    assert_eq!(
        map_field(String::new(), String::from("msg")),
        Some(String::from("msg"))
    );
    assert_eq!(map_field(String::from("x"), String::from("msg")), None);
}

#[test]
fn sign_up_validation_reports_every_missing_field_in_order() {
    let empty = UserModel {
        email: String::new(),
        mobile: String::new(),
        password: String::new(),
        first_name: String::new(),
        last_name: String::new(),
        role: Role::Admin,
    };
    assert_eq!(
        validate_sign_up(&empty),
        vec![
            String::from("Email is required"),
            String::from("Mobile is required"),
            String::from("Password is required"),
            String::from("First Name is required"),
            String::from("Last Name is required"),
        ]
    );
    let full = UserModel {
        email: String::from("a@x.com"),
        mobile: String::from("123"),
        password: String::from("pw"),
        first_name: String::from("A"),
        last_name: String::from("B"),
        role: Role::Worker,
    };
    assert_eq!(validate_sign_up(&full), Vec::<String>::new());
    let partial = UserModel {
        email: String::from("a@x.com"),
        mobile: String::new(),
        password: String::from("pw"),
        first_name: String::new(),
        last_name: String::from("B"),
        role: Role::Worker,
    };
    assert_eq!(
        validate_sign_up(&partial),
        vec![
            String::from("Mobile is required"),
            String::from("First Name is required"),
        ]
    );
}

#[test]
fn log_in_validation_reports_missing_credentials() {
    let empty = LoginModel { email: String::new(), password: String::new() };
    assert_eq!(
        validate_log_in(&empty),
        vec![
            String::from("Email is required"),
            String::from("Password is required"),
        ]
    );
    let full = LoginModel {
        email: String::from("a@x.com"),
        password: String::from("pw"),
    };
    assert_eq!(validate_log_in(&full), Vec::<String>::new());
}

#[test]
fn base64url_known_vectors() {
    assert_eq!(b64url_encode(b""), b"".to_vec());
    assert_eq!(b64url_encode(b"f"), b"Zg".to_vec());
    assert_eq!(b64url_encode(b"fo"), b"Zm8".to_vec());
    assert_eq!(b64url_encode(b"foo"), b"Zm9v".to_vec());
    assert_eq!(b64url_encode(b"foob"), b"Zm9vYg".to_vec());
    assert_eq!(b64url_encode(b"fooba"), b"Zm9vYmE".to_vec());
    assert_eq!(b64url_encode(b"foobar"), b"Zm9vYmFy".to_vec());
    assert_eq!(b64url_encode(&[0xfb, 0xff, 0xfe]), b"-__-".to_vec());
}

#[test]
fn base64url_round_trip_and_rejection() {
    let inputs: Vec<Vec<u8>> = vec![
        vec![],
        vec![0],
        vec![255],
        vec![1, 2],
        vec![1, 2, 3],
        vec![1, 2, 3, 4],
        (0u8..=255).collect(),
    ];
    for input in inputs {
        let encoded = b64url_encode(&input);
        assert_eq!(b64url_decode(&encoded), Some(input));
    }
    assert_eq!(b64url_decode(b"A"), None, "length one past a quad boundary");
    assert_eq!(b64url_decode(b"A!"), None, "byte outside the alphabet");
    assert_eq!(b64url_decode(b"Zm9v="), None, "padding is not part of the format");
}

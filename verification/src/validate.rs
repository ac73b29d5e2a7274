//! The input-validation rules the identity service applies before it touches
//! its store: every required field present, reported in a fixed order.

use vstd::prelude::*;
use vstd::string::StringExecFns;

use crate::models::LoginModel;
use crate::models::UserModel;

verus! {

/// The error a missing field contributes: its message when the field is
/// empty, nothing otherwise.
pub open spec fn spec_field_error(field: Seq<char>, message: Seq<char>) -> Seq<Seq<char>> {
    if field.len() == 0 {
        seq![message]
    } else {
        seq![]
    }
}

/// Every sign-up error, in the order the caller sees them. The role never
/// contributes: both members of the closed role set are acceptable.
pub open spec fn spec_sign_up_errors(
    email: Seq<char>,
    mobile: Seq<char>,
    password: Seq<char>,
    first_name: Seq<char>,
    last_name: Seq<char>,
) -> Seq<Seq<char>> {
    spec_field_error(email, "Email is required"@) + spec_field_error(
        mobile,
        "Mobile is required"@,
    ) + spec_field_error(password, "Password is required"@) + spec_field_error(
        first_name,
        "First Name is required"@,
    ) + spec_field_error(last_name, "Last Name is required"@)
}

/// Every login error, in the order the caller sees them.
pub open spec fn spec_log_in_errors(email: Seq<char>, password: Seq<char>) -> Seq<Seq<char>> {
    spec_field_error(email, "Email is required"@) + spec_field_error(
        password,
        "Password is required"@,
    )
}

/// Flags an empty required field with its message.
pub fn map_field(field: String, message: String) -> (r: Option<String>)
    ensures
        match r {
            Some(m) => field@.len() == 0 && m == message,
            None => field@.len() > 0,
        },
{
    if field.as_str().is_empty() {
        Some(message)
    } else {
        None
    }
}

/// Collects a field's error, if it has one.
fn push_error(errors: &mut Vec<String>, e: Option<String>)
    ensures
        final(errors)@ == (match e {
            Some(m) => old(errors)@.push(m),
            None => old(errors)@,
        }),
{
    match e {
        Some(m) => errors.push(m),
        None => {},
    }
}

/// Checks a sign-up request; an empty result means the model is acceptable.
pub fn validate_sign_up(model: &UserModel) -> (r: Vec<String>)
    ensures
        r.deep_view() == spec_sign_up_errors(
            model.email@,
            model.mobile@,
            model.password@,
            model.first_name@,
            model.last_name@,
        ),
{
    let mut errors: Vec<String> = Vec::new();
    push_error(&mut errors, map_field(model.email.clone(), String::from_str("Email is required")));
    push_error(
        &mut errors,
        map_field(model.mobile.clone(), String::from_str("Mobile is required")),
    );
    push_error(
        &mut errors,
        map_field(model.password.clone(), String::from_str("Password is required")),
    );
    push_error(
        &mut errors,
        map_field(model.first_name.clone(), String::from_str("First Name is required")),
    );
    push_error(
        &mut errors,
        map_field(model.last_name.clone(), String::from_str("Last Name is required")),
    );
    proof {
        assert(errors.deep_view() =~~= spec_sign_up_errors(
            model.email@,
            model.mobile@,
            model.password@,
            model.first_name@,
            model.last_name@,
        ));
    }
    errors
}

/// Checks a login request; an empty result means the model is acceptable.
pub fn validate_log_in(model: &LoginModel) -> (r: Vec<String>)
    ensures
        r.deep_view() == spec_log_in_errors(model.email@, model.password@),
{
    let mut errors: Vec<String> = Vec::new();
    push_error(&mut errors, map_field(model.email.clone(), String::from_str("Email is required")));
    push_error(
        &mut errors,
        map_field(model.password.clone(), String::from_str("Password is required")),
    );
    proof {
        assert(errors.deep_view() =~~= spec_log_in_errors(model.email@, model.password@));
    }
    errors
}

} // verus!

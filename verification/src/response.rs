//! The uniform reply envelopes every service sends, and the process-wide
//! catch-all error bodies.

use vstd::prelude::*;
use vstd::string::StringExecFns;

verus! {

/// The body of a successful reply: the payload under a `Data` tag.
#[derive(Debug)]
pub enum ResponseBody<T> {
    Data(T),
}

/// The body of a failure reply: the message under an `Error` tag.
#[derive(Debug)]
pub enum ResponseErrorBody<T> {
    Error(T),
}

/// A successful reply envelope.
#[derive(Debug)]
pub struct Response<T> {
    pub body: ResponseBody<T>,
}

/// A failure reply envelope.
#[derive(Debug)]
pub struct ResponseError<T> {
    pub error: ResponseErrorBody<T>,
}

/// The payload inside a failure envelope.
pub open spec fn error_message<T>(r: ResponseError<T>) -> T {
    match r.error {
        ResponseErrorBody::Error(m) => m,
    }
}

/// Builds the failure envelope around a message.
pub fn error_response(message: String) -> (r: ResponseError<String>)
    ensures
        error_message(r) == message,
{
    ResponseError { error: ResponseErrorBody::Error(message) }
}

/// The catch-all body of a reply that carries no credential at all.
pub fn unauthorized() -> (r: ResponseError<String>)
    ensures
        error_message(r)@ == "Unauthorize"@,
{
    error_response(String::from_str("Unauthorize"))
}

/// The catch-all body of a reply to a route no handler matches.
pub fn not_found() -> (r: ResponseError<String>)
    ensures
        error_message(r)@ == "Not Found"@,
{
    error_response(String::from_str("Not Found"))
}

/// The generic fallback body of an unclassified server fault.
pub fn internal_sever_error() -> (r: ResponseError<String>)
    ensures
        error_message(r)@ == "UNKNOWN Json"@,
{
    error_response(String::from_str("UNKNOWN Json"))
}

/// The generic fallback body of a failed upstream call.
pub fn bad_gateway() -> (r: ResponseError<String>)
    ensures
        error_message(r)@ == "Bad Gateway"@,
{
    error_response(String::from_str("Bad Gateway"))
}

/// The reply sent when an authenticated subject is not found downstream.
pub fn not_found_user() -> (r: (u16, ResponseError<String>))
    ensures
        r.0 == 400,
        error_message(r.1)@ == "Not found User"@,
{
    (400, error_response(String::from_str("Not found User")))
}

} // verus!

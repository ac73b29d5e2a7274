//! Shared core of the labranet services: the bearer-token authentication
//! mechanism (claims codec, token issuer, request authenticator) together
//! with the uniform response envelopes, roles, and input-validation rules
//! that all three services reuse.

pub mod auth;
pub mod base64url;
pub mod claims;
pub mod jsontext;
pub mod jwt;
pub mod models;
pub mod response;
pub mod roles;
pub mod validate;

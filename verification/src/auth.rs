//! Boundary types of the authentication collaborator. The engine itself
//! trusts an already-verified user identity; credential mechanics (hashing,
//! token issuance) live outside. Only the input-validation rule of
//! registration is the engine's to state.

use vstd::prelude::*;
use vstd::string::StrSliceExecFns;

use crate::model::is_blank;
use crate::store::is_blank_exec;

verus! {

/// A registration payload.
#[derive(Debug)]
pub struct RegisterRequest {
    pub username: String,
    pub password: String,
}

/// A login payload.
#[derive(Debug)]
pub struct LoginRequest {
    pub username: String,
    pub password: String,
}

/// A successful login's reply: the bearer token the caller presents from
/// then on.
#[derive(Debug)]
pub struct AuthResponse {
    pub token: String,
}

/// A registration is accepted exactly when the username is not blank and
/// the password has at least 8 characters.
pub open spec fn registration_ok(username: Seq<char>, password: Seq<char>) -> bool {
    !is_blank(username) && password.len() >= 8
}

/// Whether a registration payload passes the boundary validation rule.
pub fn validate_registration(req: &RegisterRequest) -> (r: bool)
    ensures
        r == registration_ok(req.username@, req.password@),
{
    !is_blank_exec(req.username.as_str()) && req.password.as_str().unicode_len() >= 8
}

} // verus!

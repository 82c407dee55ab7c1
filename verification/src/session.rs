//! Session and authentication data shapes, and session-token generation.
//!
//! The engine itself only consumes validated inputs; these are the request
//! and response shapes the surrounding HTTP layer exchanges with it, plus
//! the token generator that backs a successful login.

use vstd::prelude::*;

verus! {

/// Number of characters in a freshly generated session token.
pub const TOKEN_LENGTH: usize = 100;

/// Access role of an authenticated user.
#[derive(Clone, Copy, Debug, PartialEq, Eq, Structural)]
pub enum Role {
    /// An ordinary user.
    USER,
    /// An administrator.
    ADMIN,
}

/// One stored session: the token handed to the client and its owner.
#[derive(Clone, Debug)]
pub struct Session {
    /// Session token.
    pub token: String,
    /// Name of the user the session belongs to.
    pub username: String,
}

/// A session token as handed over by a client.
#[derive(Clone, Debug)]
pub struct SessionToken {
    /// The raw token string.
    pub token: String,
}

/// Successful login response: the fresh token and the user's role.
#[derive(Clone, Debug)]
pub struct OkRes {
    /// Fresh session token.
    pub token: String,
    /// Role of the authenticated user.
    pub role: Role,
}

/// Failed login response.
#[derive(Clone, Debug)]
pub struct ErrRes {
    /// Human-readable reason.
    pub msg: String,
}

/// Stored credentials of one user, as read back from the user store.
#[derive(Clone, Debug)]
pub struct UserCreds {
    /// Name of the user.
    pub username: String,
    /// Role of the user.
    pub role: Role,
}

/// A login request.
#[derive(Clone, Debug)]
pub struct UserRequest {
    /// Claimed user name.
    pub username: String,
    /// Claimed password.
    pub password: String,
}

/// `c` is one of the 62 ASCII letters or digits.
pub open spec fn is_alphanumeric_char(c: char) -> bool {
    (48 <= c as int <= 57) || (65 <= c as int <= 90) || (97 <= c as int <= 122)
}

/// Relies on rand's `Alphanumeric` distribution: `sample_string` appends
/// exactly `len` sampled characters, each drawn uniformly from the 62 ASCII
/// letters and digits. Nothing more is assumed of a random result.
#[verifier::external_body]
fn sample_alphanumeric(len: usize) -> (r: String)
    ensures
        r@.len() == len,
        forall|i: int| 0 <= i < r@.len() ==> is_alphanumeric_char(#[trigger] r@[i]),
{
    rand::distr::SampleString::sample_string(&rand::distr::Alphanumeric, &mut rand::rng(), len)
}

/// A fresh session token for one successful login: [`TOKEN_LENGTH`] ASCII
/// letters and digits.
pub fn make_session_token() -> (r: String)
    ensures
        r@.len() == TOKEN_LENGTH,
        forall|i: int| 0 <= i < r@.len() ==> is_alphanumeric_char(#[trigger] r@[i]),
{
    sample_alphanumeric(TOKEN_LENGTH)
}

} // verus!

//! The error taxonomy shared by the library.

use vstd::prelude::*;

verus! {

/// What went wrong, with a message for the caller.
#[derive(Debug, PartialEq)]
pub enum AppError {
    /// A validation failure: schema, overlap, missing keys, malformed condition.
    BadArgument(String),
    /// A missing primary key.
    NotFound(String),
    /// A missing or mismatched bearer token.
    Unauthorized(String),
    /// A persistence failure.
    DbError(String),
    /// A broken internal invariant.
    Unexpected(String),
}

/// A validation failure with the given message.
pub fn bad_argument(msg: &str) -> (r: AppError)
    ensures
        r matches AppError::BadArgument(m) && m@ == msg@,
{
    AppError::BadArgument(msg.to_string())
}

} // verus!

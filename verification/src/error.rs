//! Errors that the score server answers a request with.

use vstd::prelude::*;

verus! {

/// The HTTP status class of a refused request.
#[derive(Clone, Copy, Debug, PartialEq, Eq, Structural)]
pub enum ApiStatus {
    /// 400: the request itself is malformed.
    BadRequest,
    /// 401: the credentials are missing, invalid or expired.
    Unauthorized,
    /// 500: the server could not complete the request.
    Internal,
}

/// A refused request: its status and a human-readable message.
#[derive(Debug)]
pub struct ApiError {
    pub status: ApiStatus,
    pub message: String,
}

/// `e` has the given status and message.
pub open spec fn error_is(e: ApiError, status: ApiStatus, message: Seq<char>) -> bool {
    e.status == status && e.message@ == message
}

impl ApiError {
    /// A 400 error with `message`.
    pub fn bad_request(message: &str) -> (e: Self)
        ensures
            error_is(e, ApiStatus::BadRequest, message@),
    {
        ApiError { status: ApiStatus::BadRequest, message: message.to_owned() }
    }

    /// A 401 error with `message`.
    pub fn unauthorized(message: &str) -> (e: Self)
        ensures
            error_is(e, ApiStatus::Unauthorized, message@),
    {
        ApiError { status: ApiStatus::Unauthorized, message: message.to_owned() }
    }

    /// A 500 error with `message`.
    pub fn internal(message: &str) -> (e: Self)
        ensures
            error_is(e, ApiStatus::Internal, message@),
    {
        ApiError { status: ApiStatus::Internal, message: message.to_owned() }
    }
}

} // verus!

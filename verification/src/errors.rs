//! The ways in which a request can fail.

use vstd::prelude::*;

verus! {

/// The record store could not be read or written. It says no more than that.
#[derive(Clone, Copy, Debug, PartialEq, Eq, Structural)]
pub struct StoreFailure;

/// Why a request could not be answered.
#[derive(Clone, Copy, Debug, PartialEq, Eq, Structural)]
pub enum ApiError {
    /// The user id in the request is no UUID.
    InvalidUserId,
    /// The date in the request is not written as year, month and day.
    InvalidDate,
    /// The record store did not take the record.
    WriteRejected,
    /// The record store could not be read or written.
    StoreUnavailable,
    /// The record that was asked for does not exist.
    NotFound,
}

impl ApiError {
    /// The HTTP status that reports the failure.
    pub open spec fn status_of(self) -> int {
        match self {
            ApiError::InvalidUserId => 400,
            ApiError::InvalidDate => 400,
            ApiError::WriteRejected => 422,
            ApiError::StoreUnavailable => 500,
            ApiError::NotFound => 404,
        }
    }

    /// The text that tells the caller what went wrong.
    pub open spec fn message_of(self) -> Seq<char> {
        match self {
            ApiError::InvalidUserId => "Invalid user_id UUID"@,
            ApiError::InvalidDate => "Invalid date format (expected YYYY-MM-DD)"@,
            ApiError::WriteRejected => "Record rejected"@,
            ApiError::StoreUnavailable => "DB error"@,
            ApiError::NotFound => "No symptom found"@,
        }
    }

    /// The text that tells the caller what went wrong.
    pub fn message(&self) -> (text: &'static str)
        ensures
            text@ == self.message_of(),
    {
        match self {
            ApiError::InvalidUserId => "Invalid user_id UUID",
            ApiError::InvalidDate => "Invalid date format (expected YYYY-MM-DD)",
            ApiError::WriteRejected => "Record rejected",
            ApiError::StoreUnavailable => "DB error",
            ApiError::NotFound => "No symptom found",
        }
    }

    /// The HTTP status that reports the failure.
    pub fn status_code(&self) -> (status: u16)
        ensures
            status == self.status_of(),
    {
        match self {
            ApiError::InvalidUserId => 400,
            ApiError::InvalidDate => 400,
            ApiError::WriteRejected => 422,
            ApiError::StoreUnavailable => 500,
            ApiError::NotFound => 404,
        }
    }
}

/// What the answer of the record store to a new record means: a record that
/// the store did not take is reported as rejected.
pub fn insert_outcome(stored: Result<(), StoreFailure>) -> (outcome: Result<(), ApiError>)
    ensures
        outcome == (match stored {
            Ok(_) => Ok::<(), ApiError>(()),
            Err(_) => Err::<(), ApiError>(ApiError::WriteRejected),
        }),
{
    match stored {
        Ok(_) => Ok(()),
        Err(_) => Err(ApiError::WriteRejected),
    }
}

} // verus!

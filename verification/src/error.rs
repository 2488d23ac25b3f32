//! The errors a connection's pipeline can end in, and how each is surfaced to
//! the client.

use vstd::prelude::*;

verus! {

use crate::http::response::{IntoResponse, Status, status_head_bytes};

/// A per-connection failure. Parsing and routing problems are `BadRequest`;
/// filesystem and handler failures are `InternalServerError`. Each carries a
/// description for the log.
#[derive(Debug)]
pub enum Error {
    BadRequest(String),
    InternalServerError(String),
}

/// The status an error is surfaced as: 400 for a bad request, 500 otherwise.
pub open spec fn error_status(e: &Error) -> Status {
    match e {
        Error::BadRequest(_) => Status::BadRequest,
        Error::InternalServerError(_) => Status::InternalServer,
    }
}

impl Error {
    /// The status this error is surfaced as to the client.
    pub fn status(&self) -> (s: Status)
        ensures
            s == error_status(self),
    {
        match self {
            Error::BadRequest(_) => Status::BadRequest,
            Error::InternalServerError(_) => Status::InternalServer,
        }
    }

    /// The description carried by the error.
    pub fn message(&self) -> (m: &String)
        ensures
            match self {
                Error::BadRequest(s) => m@ == s@,
                Error::InternalServerError(s) => m@ == s@,
            },
    {
        match self {
            Error::BadRequest(s) => s,
            Error::InternalServerError(s) => s,
        }
    }

    /// The wire bytes written back for this error: a bare status line.
    pub fn response_bytes(&self) -> (r: Vec<u8>)
        ensures
            r@ == status_head_bytes(error_status(self)),
    {
        self.status().head_bytes()
    }
}

impl IntoResponse for Error {
    /// Every error serializes as a bare 500 head; the per-status form is
    /// `response_bytes`.
    fn into_response(self) -> Vec<u8> {
        Status::InternalServer.head_bytes()
    }
}

} // verus!

//! The status codes this server answers with.
use vstd::prelude::*;

verus! {

/// An HTTP status code.
#[derive(Clone, Copy, Debug, PartialEq, Eq, Structural)]
pub enum StatusCode {
    OK,
    BadRequest,
    NotFound,
    InternalServerError,
}

/// The number of a status code.
pub open spec fn status_number(s: StatusCode) -> u16 {
    match s {
        StatusCode::OK => 200,
        StatusCode::BadRequest => 400,
        StatusCode::NotFound => 404,
        StatusCode::InternalServerError => 500,
    }
}

/// The reason phrase of a status code (RFC 7231, Section 6).
pub open spec fn reason_text(s: StatusCode) -> Seq<char> {
    match s {
        StatusCode::OK => "OK"@,
        StatusCode::BadRequest => "Bad Request"@,
        StatusCode::NotFound => "Not Found"@,
        StatusCode::InternalServerError => "Internal Server Error"@,
    }
}

impl StatusCode {
    /// The numeric code, as written on the status line.
    pub fn code(&self) -> (res: u16)
        ensures
            res == status_number(*self),
    {
        match self {
            StatusCode::OK => 200,
            StatusCode::BadRequest => 400,
            StatusCode::NotFound => 404,
            StatusCode::InternalServerError => 500,
        }
    }

    /// Returns the human-readable phrase for the status line,
    /// e.g. "Not Found" in "HTTP/1.1 404 Not Found".
    pub fn reason_phrase(&self) -> (res: &'static str)
        ensures
            res@ == reason_text(*self),
    {
        match self {
            StatusCode::OK => "OK",
            StatusCode::BadRequest => "Bad Request",
            StatusCode::NotFound => "Not Found",
            StatusCode::InternalServerError => "Internal Server Error",
        }
    }
}

} // verus!

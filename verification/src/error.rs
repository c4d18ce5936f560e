use vstd::prelude::*;
use vstd::string::StringExecFns;

verus! {

/// The failure taxonomy of the service. Every collaborator failure is wrapped
/// into one of these kinds at the boundary; the payload is the user-visible
/// message.
#[derive(Debug)]
pub enum Error {
    /// Malformed or missing client input.
    BadRequest(String),
    /// Missing, invalid or expired token, or invalid credentials.
    Unauthorized(String),
    /// Authenticated, but not the owner of the addressed record.
    Forbidden(String),
    /// No record with the given id.
    NotFound(String),
    /// A uniqueness violation, such as a login that is already taken.
    Conflict(String),
    /// Hashing, token, storage-layer or id-allocation failure. The message is
    /// a generic string; the original cause never reaches a client.
    Internal(String),
}

impl Error {
    /// The HTTP status code that this kind of failure maps to.
    pub fn status_code(&self) -> (code: u16)
        ensures
            code == self.spec_status_code(),
    {
        match self {
            Error::BadRequest(_) => 400,
            Error::Unauthorized(_) => 401,
            Error::Forbidden(_) => 403,
            Error::NotFound(_) => 404,
            Error::Conflict(_) => 409,
            Error::Internal(_) => 500,
        }
    }

    pub open spec fn spec_status_code(&self) -> u16 {
        match self {
            Error::BadRequest(_) => 400u16,
            Error::Unauthorized(_) => 401u16,
            Error::Forbidden(_) => 403u16,
            Error::NotFound(_) => 404u16,
            Error::Conflict(_) => 409u16,
            Error::Internal(_) => 500u16,
        }
    }

    /// The user-visible message carried by this failure.
    pub fn message(&self) -> (m: &String)
        ensures
            m@ == self.spec_message(),
    {
        match self {
            Error::BadRequest(m) => m,
            Error::Unauthorized(m) => m,
            Error::Forbidden(m) => m,
            Error::NotFound(m) => m,
            Error::Conflict(m) => m,
            Error::Internal(m) => m,
        }
    }

    /// The message a client may see: internal failures are masked with a
    /// generic string, every other kind keeps its own message.
    pub fn public_message(&self) -> (m: String)
        ensures
            self is Internal ==> m@ == "Something went wrong."@,
            !(self is Internal) ==> m@ == self.spec_message(),
    {
        match self {
            Error::Internal(_) => String::from_str("Something went wrong."),
            _ => self.message().clone(),
        }
    }

    pub open spec fn spec_message(&self) -> Seq<char> {
        match self {
            Error::BadRequest(m) => m@,
            Error::Unauthorized(m) => m@,
            Error::Forbidden(m) => m@,
            Error::NotFound(m) => m@,
            Error::Conflict(m) => m@,
            Error::Internal(m) => m@,
        }
    }
}

} // verus!

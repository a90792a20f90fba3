//! Framework error types.

use vstd::prelude::*;

verus! {

/// `std::io::Error`, carried through unchanged by [`VeloxError::Io`].
#[verifier::external_type_specification]
#[verifier::external_body]
pub struct ExIoError(std::io::Error);

/// All errors that can occur within the Velox framework.
#[derive(Debug)]
pub enum VeloxError {
    /// The incoming HTTP request could not be parsed.
    ParseError(String),
    /// A required header was missing from the request.
    MissingHeader(String),
    /// An I/O error occurred (e.g. reading from the TCP stream).
    Io(std::io::Error),
    /// The requested route was not found.
    NotFound,
    /// The HTTP method used is not allowed for this route.
    MethodNotAllowed,
    /// An arbitrary internal error produced by a handler or middleware.
    Internal(String),
}

impl VeloxError {
    /// The human-readable description of the error (its display text).
    pub fn to_string(&self) -> (r: String)
        ensures
            match self {
                VeloxError::ParseError(msg) => r@ == "Parse error: "@ + msg@,
                VeloxError::MissingHeader(name) => r@ == "Missing header: "@ + name@,
                VeloxError::Io(e) => exists|t: String|
                    #[trigger] vstd::string::to_string_from_display_ensures::<std::io::Error>(e, t)
                        && r@ == "IO error: "@ + t@,
                VeloxError::NotFound => r@ == "Not found"@,
                VeloxError::MethodNotAllowed => r@ == "Method not allowed"@,
                VeloxError::Internal(msg) => r@ == "Internal error: "@ + msg@,
            },
    {
        match self {
            VeloxError::ParseError(msg) => {
                let mut r = String::from_str("Parse error: ");
                r.append(msg.as_str());
                r
            },
            VeloxError::MissingHeader(name) => {
                let mut r = String::from_str("Missing header: ");
                r.append(name.as_str());
                r
            },
            VeloxError::Io(err) => {
                let mut r = String::from_str("IO error: ");
                let text = err.to_string();
                r.append(text.as_str());
                r
            },
            VeloxError::NotFound => String::from_str("Not found"),
            VeloxError::MethodNotAllowed => String::from_str("Method not allowed"),
            VeloxError::Internal(msg) => {
                let mut r = String::from_str("Internal error: ");
                r.append(msg.as_str());
                r
            },
        }
    }
}

impl From<std::io::Error> for VeloxError {
    fn from(err: std::io::Error) -> (r: VeloxError) {
        VeloxError::Io(err)
    }
}

impl vstd::std_specs::convert::FromSpecImpl<std::io::Error> for VeloxError {
    open spec fn obeys_from_spec() -> bool {
        true
    }

    open spec fn from_spec(err: std::io::Error) -> VeloxError {
        VeloxError::Io(err)
    }
}

} // verus!

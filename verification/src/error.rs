use vstd::prelude::*;

verus! {

/// `std::io::Error`, the failure of a read or a write. Nothing is known of
/// what it holds.
#[verifier::external_type_specification]
#[verifier::external_body]
pub struct ExIoError(std::io::Error);

/// `std::string::FromUtf8Error`, the failure of `String::from_utf8`. Nothing
/// is known of what it holds.
#[verifier::external_type_specification]
#[verifier::external_body]
pub struct ExFromUtf8Error(std::string::FromUtf8Error);

/// Why a connection did not yield a request. Every kind is final for the
/// connection it occurred on.
#[derive(Clone, Copy, Debug, PartialEq, Eq, Structural)]
pub enum Error {
    /// The stream failed, or the peer closed it before the header block ended.
    IOError,
    /// A line, or a percent-decoded part of the target, is not UTF-8.
    EncodingError,
    /// The request line has fewer than three space-separated parts.
    MalformedRequestLine,
    /// The first part of the request line names no known method.
    UnknownMethod,
    /// The last part of the request line names no supported version.
    UnsupportedVersion,
    /// A header line holds no `:`.
    MalformedHeader,
    /// A group of the query string holds no `=`.
    MalformedQueryParameter,
    /// The deadline set for the request passed before it was complete.
    Timeout,
}

impl From<std::io::Error> for Error {
    fn from(internal_err: std::io::Error) -> (r: Error) {
        Error::IOError
    }
}

impl vstd::std_specs::convert::FromSpecImpl<std::io::Error> for Error {
    open spec fn obeys_from_spec() -> bool {
        true
    }

    open spec fn from_spec(internal_err: std::io::Error) -> Error {
        Error::IOError
    }
}

impl From<std::string::FromUtf8Error> for Error {
    fn from(internal_err: std::string::FromUtf8Error) -> (r: Error) {
        Error::EncodingError
    }
}

impl vstd::std_specs::convert::FromSpecImpl<std::string::FromUtf8Error> for Error {
    open spec fn obeys_from_spec() -> bool {
        true
    }

    open spec fn from_spec(internal_err: std::string::FromUtf8Error) -> Error {
        Error::EncodingError
    }
}

} // verus!

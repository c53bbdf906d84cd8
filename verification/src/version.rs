use vstd::prelude::*;
use crate::encoding::same_text;
use crate::error::Error;

verus! {

/// The protocol versions that the server speaks.
#[allow(non_camel_case_types)]
#[derive(Clone, Copy, Debug, PartialEq, Eq, Structural)]
pub enum Version {
    HTTP1_1,
}

impl Version {
    /// The version that a token of the request line names.
    pub open spec fn named(s: Seq<char>) -> Option<Version> {
        if s == "HTTP/1.1"@ {
            Some(Version::HTTP1_1)
        } else {
            None
        }
    }

    /// Reads a version from the last token of a request line. Any token but
    /// `HTTP/1.1` is an error.
    pub fn from(s: &str) -> (r: Result<Version, Error>)
        ensures
            match r {
                Ok(v) => Version::named(s@) == Some(v),
                Err(e) => Version::named(s@) is None && e == Error::UnsupportedVersion,
            },
    {
        if same_text(s, "HTTP/1.1") {
            Ok(Version::HTTP1_1)
        } else {
            Err(Error::UnsupportedVersion)
        }
    }

    /// The version's name as it stands on the wire.
    pub fn as_str(&self) -> (r: &'static str)
        ensures
            Version::named(r@) == Some(*self),
    {
        "HTTP/1.1"
    }
}

} // verus!

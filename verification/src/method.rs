use vstd::prelude::*;
use crate::encoding::same_text;
use crate::error::Error;

verus! {

/// The request methods that the server knows.
#[allow(clippy::upper_case_acronyms)]
#[derive(Clone, Copy, Debug, PartialEq, Eq, Structural)]
pub enum Method {
    GET,
    POST,
    PUT,
    PATCH,
    OPTIONS,
    DELETE,
}

impl Method {
    /// The method that a token of the request line names: its name in capital
    /// letters, and nothing else.
    pub open spec fn named(s: Seq<char>) -> Option<Method> {
        if s == "GET"@ {
            Some(Method::GET)
        } else if s == "POST"@ {
            Some(Method::POST)
        } else if s == "PUT"@ {
            Some(Method::PUT)
        } else if s == "PATCH"@ {
            Some(Method::PATCH)
        } else if s == "OPTIONS"@ {
            Some(Method::OPTIONS)
        } else if s == "DELETE"@ {
            Some(Method::DELETE)
        } else {
            None
        }
    }

    /// Reads a method from the first token of a request line. A token that
    /// names no method is an error: there is no default.
    pub fn from(s: &str) -> (r: Result<Method, Error>)
        ensures
            match r {
                Ok(m) => Method::named(s@) == Some(m),
                Err(e) => Method::named(s@) is None && e == Error::UnknownMethod,
            },
    {
        if same_text(s, "GET") {
            Ok(Method::GET)
        } else if same_text(s, "POST") {
            Ok(Method::POST)
        } else if same_text(s, "PUT") {
            Ok(Method::PUT)
        } else if same_text(s, "PATCH") {
            Ok(Method::PATCH)
        } else if same_text(s, "OPTIONS") {
            Ok(Method::OPTIONS)
        } else if same_text(s, "DELETE") {
            Ok(Method::DELETE)
        } else {
            Err(Error::UnknownMethod)
        }
    }

    /// The method's name as it stands on the wire.
    pub fn as_str(&self) -> (r: &'static str)
        ensures
            Method::named(r@) == Some(*self),
    {
        proof {
            reveal_strlit("GET");
            reveal_strlit("POST");
            reveal_strlit("PUT");
            reveal_strlit("PATCH");
            reveal_strlit("OPTIONS");
            reveal_strlit("DELETE");
            assert("GET"@.len() == 3 && "POST"@.len() == 4 && "PUT"@.len() == 3);
            assert("PATCH"@.len() == 5 && "OPTIONS"@.len() == 7 && "DELETE"@.len() == 6);
            assert("PUT"@[0] != "GET"@[0]);
        }
        match self {
            Method::GET => "GET",
            Method::POST => "POST",
            Method::PUT => "PUT",
            Method::PATCH => "PATCH",
            Method::OPTIONS => "OPTIONS",
            Method::DELETE => "DELETE",
        }
    }
}

} // verus!

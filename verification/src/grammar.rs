//! The form of a request on the wire, as functions on byte sequences.
//!
//! A request is a request line, `METHOD SP target SP version`, then header
//! lines `name: value`, then an empty line. Each line ends in LF; a CR before
//! that LF belongs to the line's end. Nothing after the empty line is read.
use vstd::prelude::*;
use vstd::utf8::*;
use crate::encoding::{ascii_lower, text};
use crate::error::Error;
use crate::method::Method;
use crate::percent::component;
use crate::scan::{index_of, CR, HT, LF, SP};
use crate::version::Version;

verus! {

pub const COLON: u8 = 58;

pub const QUESTION: u8 = 63;

pub const AMPERSAND: u8 = 38;

pub const EQUALS: u8 = 61;

/// What a request says.
pub struct RequestModel {
    pub method: Method,
    pub uri: Seq<char>,
    pub version: Version,
    pub headers: Map<Seq<char>, Seq<char>>,
    pub query_params: Map<Seq<char>, Seq<char>>,
    pub path_params: Map<Seq<char>, Seq<char>>,
}

impl RequestModel {
    /// The request with the header `name` set to `value`. Header names count
    /// without the case of their letters, and a later value replaces an earlier.
    pub open spec fn with_header(self, name: Seq<char>, value: Seq<char>) -> RequestModel {
        RequestModel { headers: self.headers.insert(ascii_lower(name), value), ..self }
    }
}

/// What a line holds: the bytes before its LF, without the CR that ends them,
/// if one does. A line without a CR loses nothing.
pub open spec fn line_content(line: Seq<u8>) -> Seq<u8> {
    if line.len() > 0 && line.last() == CR {
        line.drop_last()
    } else {
        line
    }
}

/// The parameters of a query string, added to `acc`. The string is a list of
/// groups with `&` between them; a group is a name, `=`, and a
/// percent-encoded value. A group without `=` is an error, the empty group
/// too. A later value of a name replaces an earlier.
pub open spec fn query(q: Seq<u8>, acc: Map<Seq<char>, Seq<char>>) -> Result<
    Map<Seq<char>, Seq<char>>,
    Error,
>
    decreases q.len(),
{
    let end = index_of(q, AMPERSAND) as int;
    let group = q.subrange(0, end);
    let eq = index_of(group, EQUALS) as int;
    if eq >= group.len() {
        Err(Error::MalformedQueryParameter)
    } else {
        match (text(group.subrange(0, eq)), component(group.subrange(eq + 1, group.len() as int))) {
            (Some(name), Some(value)) => {
                if end >= q.len() {
                    Ok(acc.insert(name, value))
                } else {
                    query(q.subrange(end + 1, q.len() as int), acc.insert(name, value))
                }
            },
            _ => Err(Error::EncodingError),
        }
    }
}

/// The path and the query parameters of a request target. The path is what
/// stands before the first `?`, percent-decoded; the query string is what
/// follows it.
pub open spec fn target(t: Seq<u8>) -> Result<(Seq<char>, Map<Seq<char>, Seq<char>>), Error> {
    let mark = index_of(t, QUESTION) as int;
    match component(t.subrange(0, mark)) {
        None => Err(Error::EncodingError),
        Some(path) => {
            if mark >= t.len() {
                Ok((path, Map::empty()))
            } else {
                match query(t.subrange(mark + 1, t.len() as int), Map::empty()) {
                    Err(e) => Err(e),
                    Ok(params) => Ok((path, params)),
                }
            }
        },
    }
}

/// What a request line says. The line is cut at its first two spaces into
/// method, target and version; the first failure, in the order UTF-8, number
/// of parts, method, version, target, is the error.
pub open spec fn request_line(c: Seq<u8>) -> Result<RequestModel, Error> {
    let first = index_of(c, SP) as int;
    let rest = c.subrange(first + 1, c.len() as int);
    let second = index_of(rest, SP) as int;
    if !valid_utf8(c) {
        Err(Error::EncodingError)
    } else if first >= c.len() || second >= rest.len() {
        Err(Error::MalformedRequestLine)
    } else {
        match Method::named(decode_utf8(c.subrange(0, first))) {
            None => Err(Error::UnknownMethod),
            Some(method) => match Version::named(
                decode_utf8(rest.subrange(second + 1, rest.len() as int)),
            ) {
                None => Err(Error::UnsupportedVersion),
                Some(version) => match target(rest.subrange(0, second)) {
                    Err(e) => Err(e),
                    Ok((uri, query_params)) => Ok(
                        RequestModel {
                            method,
                            uri,
                            version,
                            headers: Map::empty(),
                            query_params,
                            path_params: Map::empty(),
                        },
                    ),
                },
            },
        }
    }
}

/// `s` without the spaces and tabs that it begins with.
pub open spec fn skip_blank(s: Seq<u8>) -> Seq<u8>
    decreases s.len(),
{
    if s.len() > 0 && (s[0] == SP || s[0] == HT) {
        skip_blank(s.drop_first())
    } else {
        s
    }
}

/// The name and the value of a header line: what stands before the first `:`,
/// and what follows it without the blanks that it begins with.
pub open spec fn header_line(c: Seq<u8>) -> Result<(Seq<char>, Seq<char>), Error> {
    let colon = index_of(c, COLON) as int;
    if !valid_utf8(c) {
        Err(Error::EncodingError)
    } else if colon >= c.len() {
        Err(Error::MalformedHeader)
    } else {
        Ok(
            (
                decode_utf8(c.subrange(0, colon)),
                decode_utf8(skip_blank(c.subrange(colon + 1, c.len() as int))),
            ),
        )
    }
}

/// The headers of a header block, added to `acc`. An empty line ends the
/// block. Header names count without the case of their letters, and a later
/// value replaces an earlier. A block that stops before its empty line is a
/// stream that was closed too early.
pub open spec fn header_block(s: Seq<u8>, acc: Map<Seq<char>, Seq<char>>) -> Result<
    Map<Seq<char>, Seq<char>>,
    Error,
>
    decreases s.len(),
{
    let end = index_of(s, LF) as int;
    let line = line_content(s.subrange(0, end));
    if end >= s.len() {
        Err(Error::IOError)
    } else if line.len() == 0 {
        Ok(acc)
    } else {
        match header_line(line) {
            Err(e) => Err(e),
            Ok((name, value)) => header_block(
                s.subrange(end + 1, s.len() as int),
                acc.insert(ascii_lower(name), value),
            ),
        }
    }
}

/// The request that a request line and a header block make.
pub open spec fn with_headers(
    start: RequestModel,
    block: Result<Map<Seq<char>, Seq<char>>, Error>,
) -> Result<RequestModel, Error> {
    match block {
        Err(e) => Err(e),
        Ok(headers) => Ok(RequestModel { headers, ..start }),
    }
}

/// What the bytes `s`, received from a connection until it was closed or
/// longer than needed, say as a request.
pub open spec fn request(s: Seq<u8>) -> Result<RequestModel, Error> {
    let end = index_of(s, LF) as int;
    if end >= s.len() {
        Err(Error::IOError)
    } else {
        match request_line(line_content(s.subrange(0, end))) {
            Err(e) => Err(e),
            Ok(start) => with_headers(
                start,
                header_block(s.subrange(end + 1, s.len() as int), Map::empty()),
            ),
        }
    }
}

} // verus!

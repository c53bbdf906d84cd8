//! Reading single lines of a request.
use vstd::prelude::*;
use vstd::slice::slice_subrange;
use vstd::utf8::*;
use crate::encoding::{decode, lemma_cut_at_ascii};
use crate::error::Error;
use crate::grammar::{self, RequestModel, AMPERSAND, COLON, EQUALS, QUESTION};
use crate::method::Method;
use crate::params::{Headers, Params};
use crate::percent::decode_component;
use crate::request::Request;
use crate::scan::{find, lemma_index_of, CR, HT, SP};
use crate::version::Version;

verus! {

/// What a line holds, given the bytes before its LF.
pub fn content(line: &[u8]) -> (r: &[u8])
    ensures
        r@ == grammar::line_content(line@),
{
    let n = line.len();
    if n > 0 && line[n - 1] == CR {
        slice_subrange(line, 0, n - 1)
    } else {
        line
    }
}

/// `s` without the spaces and tabs that it begins with.
pub fn trim_start(s: &[u8]) -> (r: &[u8])
    ensures
        r@ == grammar::skip_blank(s@),
        valid_utf8(s@) ==> valid_utf8(r@),
{
    let mut k: usize = 0;
    assert(s@.subrange(0, s@.len() as int) =~= s@);
    while k < s.len() && (s[k] == SP || s[k] == HT)
        invariant
            k <= s@.len(),
            grammar::skip_blank(s@) == grammar::skip_blank(s@.subrange(k as int, s@.len() as int)),
            valid_utf8(s@) ==> valid_utf8(s@.subrange(k as int, s@.len() as int)),
        decreases s@.len() - k,
    {
        proof {
            let cur = s@.subrange(k as int, s@.len() as int);
            assert(cur[0] == s@[k as int]);
            assert(cur.drop_first() =~= s@.subrange(k + 1, s@.len() as int));
            if valid_utf8(s@) {
                lemma_cut_at_ascii(cur, 0);
                assert(cur.subrange(1, cur.len() as int) =~= s@.subrange(k + 1, s@.len() as int));
            }
        }
        k += 1;
    }
    proof {
        let cur = s@.subrange(k as int, s@.len() as int);
        if cur.len() > 0 {
            assert(cur[0] == s@[k as int]);
        }
    }
    slice_subrange(s, k, s.len())
}

/// Adds the parameters of a query string to `params`. The parameters that
/// stand before a failure have been added when it is met.
pub fn parse_query(q: &[u8], params: &mut Params) -> (r: Result<(), Error>)
    ensures
        match r {
            Ok(()) => grammar::query(q@, old(params)@) == Ok::<Map<Seq<char>, Seq<char>>, Error>(
                final(params)@,
            ),
            Err(e) => grammar::query(q@, old(params)@) == Err::<Map<Seq<char>, Seq<char>>, Error>(
                e,
            ),
        },
{
    let ghost given = params@;
    let mut pos: usize = 0;
    assert(q@.subrange(0, q@.len() as int) =~= q@);
    loop
        invariant
            pos <= q@.len(),
            given == old(params)@,
            grammar::query(q@, given) == grammar::query(
                q@.subrange(pos as int, q@.len() as int),
                params@,
            ),
        decreases q@.len() - pos,
    {
        let rest = slice_subrange(q, pos, q.len());
        let end = find(rest, AMPERSAND);
        let group = slice_subrange(rest, 0, end);
        let eq = find(group, EQUALS);
        if eq >= group.len() {
            return Err(Error::MalformedQueryParameter);
        }
        let name = match decode(slice_subrange(group, 0, eq)) {
            Ok(n) => n,
            Err(e) => {
                return Err(e);
            },
        };
        let value = match decode_component(slice_subrange(group, eq + 1, group.len())) {
            Ok(v) => v,
            Err(e) => {
                return Err(e);
            },
        };
        params.insert(name, value);
        if end >= rest.len() {
            return Ok(());
        }
        proof {
            assert(rest@.subrange(end + 1, rest@.len() as int) =~= q@.subrange(
                pos + end + 1,
                q@.len() as int,
            ));
        }
        pos = pos + end + 1;
    }
}

/// Reads a request target: its path and its query parameters.
pub fn parse_target(t: &[u8]) -> (r: Result<(String, Params), Error>)
    ensures
        match r {
            Ok((uri, params)) => grammar::target(t@) == Ok::<
                (Seq<char>, Map<Seq<char>, Seq<char>>),
                Error,
            >((uri@, params@)),
            Err(e) => grammar::target(t@) == Err::<(Seq<char>, Map<Seq<char>, Seq<char>>), Error>(
                e,
            ),
        },
{
    let mark = find(t, QUESTION);
    let uri = match decode_component(slice_subrange(t, 0, mark)) {
        Ok(u) => u,
        Err(e) => {
            return Err(e);
        },
    };
    let mut params = Params::new();
    if mark < t.len() {
        match parse_query(slice_subrange(t, mark + 1, t.len()), &mut params) {
            Ok(()) => {},
            Err(e) => {
                return Err(e);
            },
        }
    }
    Ok((uri, params))
}

/// Reads a request line, given what the line holds. The request that comes
/// back has no headers yet.
pub fn parse_request_line(c: &[u8]) -> (r: Result<Request, Error>)
    ensures
        match r {
            Ok(request) => grammar::request_line(c@) == Ok::<RequestModel, Error>(request@),
            Err(e) => grammar::request_line(c@) == Err::<RequestModel, Error>(e),
        },
{
    match decode(c) {
        Ok(_) => {},
        Err(e) => {
            return Err(e);
        },
    }
    let first = find(c, SP);
    if first >= c.len() {
        return Err(Error::MalformedRequestLine);
    }
    let rest = slice_subrange(c, first + 1, c.len());
    let second = find(rest, SP);
    if second >= rest.len() {
        return Err(Error::MalformedRequestLine);
    }
    proof {
        lemma_index_of(c@, SP);
        lemma_index_of(rest@, SP);
        lemma_cut_at_ascii(c@, first as int);
        lemma_cut_at_ascii(rest@, second as int);
    }
    // The parts of a line that is UTF-8 are UTF-8: none of the three fails
    // to decode.
    let method_name = match decode(slice_subrange(c, 0, first)) {
        Ok(name) => name,
        Err(e) => {
            return Err(e);
        },
    };
    let method = match Method::from(method_name.as_str()) {
        Ok(m) => m,
        Err(e) => {
            return Err(e);
        },
    };
    let version_name = match decode(slice_subrange(rest, second + 1, rest.len())) {
        Ok(name) => name,
        Err(e) => {
            return Err(e);
        },
    };
    let version = match Version::from(version_name.as_str()) {
        Ok(v) => v,
        Err(e) => {
            return Err(e);
        },
    };
    let (uri, query_params) = match parse_target(slice_subrange(rest, 0, second)) {
        Ok(t) => t,
        Err(e) => {
            return Err(e);
        },
    };
    Ok(
        Request {
            method,
            uri,
            version,
            headers: Headers::new(),
            query_params,
            path_params: Params::new(),
        },
    )
}

/// Reads a header line, given what the line holds: its name as written, and
/// its value.
pub fn parse_header_line(c: &[u8]) -> (r: Result<(String, String), Error>)
    ensures
        match r {
            Ok((name, value)) => grammar::header_line(c@) == Ok::<(Seq<char>, Seq<char>), Error>(
                (name@, value@),
            ),
            Err(e) => grammar::header_line(c@) == Err::<(Seq<char>, Seq<char>), Error>(e),
        },
{
    match decode(c) {
        Ok(_) => {},
        Err(e) => {
            return Err(e);
        },
    }
    let colon = find(c, COLON);
    if colon >= c.len() {
        return Err(Error::MalformedHeader);
    }
    proof {
        lemma_index_of(c@, COLON);
        lemma_cut_at_ascii(c@, colon as int);
    }
    // Both sides of the colon are UTF-8, as the line is.
    let name = match decode(slice_subrange(c, 0, colon)) {
        Ok(name) => name,
        Err(e) => {
            return Err(e);
        },
    };
    let value = match decode(trim_start(slice_subrange(c, colon + 1, c.len()))) {
        Ok(value) => value,
        Err(e) => {
            return Err(e);
        },
    };
    Ok((name, value))
}

} // verus!

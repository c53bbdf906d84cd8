use vstd::prelude::*;
use crate::error::Error;
use crate::grammar::{self, RequestModel};
use crate::method::Method;
use crate::params::{Headers, Params};
use crate::parser::{lemma_run_reads_request, run, Event, Parser, ParserModel, Step};
use crate::version::Version;

verus! {

pub type RequestParseResult = Result<Request, Error>;

/// A request as it was read from a connection.
#[derive(Debug)]
pub struct Request {
    pub method: Method,
    /// The path of the target, percent-decoded, without the query string.
    pub uri: String,
    pub version: Version,
    pub headers: Headers,
    pub query_params: Params,
    /// Kept for a router to fill; reading a request leaves it empty.
    pub path_params: Params,
}

impl View for Request {
    type V = RequestModel;

    open spec fn view(&self) -> RequestModel {
        RequestModel {
            method: self.method,
            uri: self.uri@,
            version: self.version,
            headers: self.headers@,
            query_params: self.query_params@,
            path_params: self.path_params@,
        }
    }
}

/// Whether the result `r` of reading is what the grammar says: the request
/// with the same content, or the same error.
pub open spec fn agrees(r: RequestParseResult, said: Result<RequestModel, Error>) -> bool {
    match r {
        Ok(request) => said == Ok::<RequestModel, Error>(request@),
        Err(e) => said == Err::<RequestModel, Error>(e),
    }
}

impl Request {
    /// Reads a request from the bytes that a connection delivered, by handing
    /// them one by one to a [`Parser`]. Bytes behind the empty line that ends
    /// the header block are not looked at; bytes that end before it are a
    /// connection closed too early.
    pub fn new(bytes: &[u8]) -> (r: RequestParseResult)
        ensures
            agrees(r, grammar::request(bytes@)),
    {
        let mut parser = Parser::new();
        let mut i: usize = 0;
        proof {
            lemma_run_reads_request(ParserModel::start(), bytes@);
            assert(Seq::<u8>::empty() + bytes@ =~= bytes@);
            assert(bytes@.subrange(0, bytes@.len() as int) =~= bytes@);
        }
        loop
            invariant
                i <= bytes@.len(),
                grammar::request(bytes@) == run(
                    parser@,
                    bytes@.subrange(i as int, bytes@.len() as int),
                ),
            decreases bytes@.len() - i,
        {
            let ghost rest = bytes@.subrange(i as int, bytes@.len() as int);
            let event = if i < bytes.len() {
                Event::Byte(bytes[i])
            } else {
                Event::Closed
            };
            match parser.step(event) {
                Step::Read(next) => {
                    proof {
                        assert(rest[0] == bytes@[i as int]);
                        assert(rest.drop_first() =~= bytes@.subrange(i + 1, bytes@.len() as int));
                    }
                    parser = next;
                    i += 1;
                },
                Step::Done(request) => {
                    return Ok(request);
                },
                Step::Failed(e) => {
                    return Err(e);
                },
            }
        }
    }
}

} // verus!

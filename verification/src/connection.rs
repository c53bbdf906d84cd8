use vstd::prelude::*;
use crate::error::Error;
use crate::grammar::{self, RequestModel};
use crate::request::Request;
use crate::response::Response;

verus! {

/// A request together with the stream that it came from. The connection owns
/// both: the stream has no other reader or writer.
#[derive(Debug)]
pub struct Connection<S> {
    pub request: Request,
    pub socket: S,
}

impl<S> Connection<S> {
    /// Takes a stream and the bytes that it delivered, and reads the request
    /// from them. Where that fails the stream is dropped with the error.
    pub fn new(socket: S, received: &[u8]) -> (r: Result<Connection<S>, Error>)
        ensures
            match r {
                Ok(connection) => connection.socket == socket && grammar::request(received@)
                    == Ok::<RequestModel, Error>(connection.request@),
                Err(e) => grammar::request(received@) == Err::<RequestModel, Error>(e),
            },
    {
        match Request::new(received) {
            Ok(request) => Ok(Connection { request, socket }),
            Err(e) => Err(e),
        }
    }

    /// Answers the request. The connection ends here: what comes back is its
    /// stream and the bytes to write to it, and no second answer can be given.
    pub fn respond(self, response: &Response) -> (r: (S, Vec<u8>))
        ensures
            r.0 == self.socket,
            r.1@ == response.wire(),
    {
        (self.socket, response.to_bytes())
    }
}

} // verus!

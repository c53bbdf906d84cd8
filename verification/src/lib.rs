//! A front end for an HTTP/1.1 server that performs no I/O of its own.
//!
//! Bytes received from a connection are fed to a [`Parser`], which turns the
//! request line and the header block into a [`Request`]. A [`Connection`]
//! pairs the request with the stream it came from, and a [`Response`] is
//! turned back into the bytes to put on the wire.
//!
//! The wire format is stated once, as functions on byte sequences, in
//! [`grammar`]; the functions that read are proved against it. What holds of
//! reading for all inputs is proved in [`laws`], and that a client reads a
//! response back as it was sent, in [`client`].

pub mod client;
pub mod connection;
pub mod encoding;
pub mod error;
pub mod grammar;
pub mod laws;
pub mod lines;
pub mod method;
pub mod params;
pub mod parser;
pub mod percent;
pub mod request;
pub mod response;
pub mod scan;
pub mod version;

pub use connection::Connection;
pub use error::Error;
pub use method::Method;
pub use params::{Headers, Params};
pub use parser::{Event, Parser, State, Step};
pub use request::{Request, RequestParseResult};
pub use response::{Response, StatusCode};
pub use version::Version;

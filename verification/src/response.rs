//! Responses, and their form on the wire.
use vstd::prelude::*;
use vstd::utf8::*;
use crate::encoding::ascii_lower;
use crate::grammar::COLON;
use crate::params::{has_name, Headers};
use crate::scan::{CR, LF, SP};

verus! {

/// The decimal digits of `n`, as ASCII.
pub open spec fn digits(n: nat) -> Seq<u8>
    decreases n,
{
    if n < 10 {
        seq![(48 + n) as u8]
    } else {
        digits(n / 10).push((48 + n % 10) as u8)
    }
}

/// The words that go with a status code on the status line. A code that is
/// not listed goes without words.
pub open spec fn reason_phrase(code: nat) -> Seq<char> {
    if code == 200 {
        "OK"@
    } else if code == 201 {
        "Created"@
    } else if code == 204 {
        "No Content"@
    } else if code == 301 {
        "Moved Permanently"@
    } else if code == 302 {
        "Found"@
    } else if code == 304 {
        "Not Modified"@
    } else if code == 400 {
        "Bad Request"@
    } else if code == 401 {
        "Unauthorized"@
    } else if code == 403 {
        "Forbidden"@
    } else if code == 404 {
        "Not Found"@
    } else if code == 405 {
        "Method Not Allowed"@
    } else if code == 408 {
        "Request Timeout"@
    } else if code == 500 {
        "Internal Server Error"@
    } else if code == 501 {
        "Not Implemented"@
    } else if code == 503 {
        "Service Unavailable"@
    } else {
        ""@
    }
}

/// The status line: `HTTP/1.1`, the code in three digits, the words.
pub open spec fn status_line(code: nat) -> Seq<u8> {
    encode_utf8("HTTP/1.1 "@) + digits(code) + seq![SP] + encode_utf8(reason_phrase(code))
        + seq![CR, LF]
}

/// One header line.
pub open spec fn field_line(name: Seq<char>, value: Seq<char>) -> Seq<u8> {
    encode_utf8(name) + seq![COLON, SP] + encode_utf8(value) + seq![CR, LF]
}

/// The header lines of a list of fields, in the order of the list.
pub open spec fn field_lines(p: Seq<(Seq<char>, Seq<char>)>) -> Seq<u8>
    decreases p.len(),
{
    if p.len() == 0 {
        Seq::empty()
    } else {
        field_lines(p.drop_last()) + field_line(p.last().0, p.last().1)
    }
}

/// The header line that gives the length of a body of `n` bytes.
pub open spec fn content_length_line(n: nat) -> Seq<u8> {
    encode_utf8("content-length"@) + seq![COLON, SP] + digits(n) + seq![CR, LF]
}

/// The status code of a response: a number of three digits.
#[derive(Clone, Copy, Debug, PartialEq, Eq)]
pub struct StatusCode {
    code: u16,
}

impl StatusCode {
    /// The code as a number.
    pub closed spec fn value(&self) -> nat {
        self.code as nat
    }

    /// The code has three digits.
    #[verifier::type_invariant]
    pub open spec fn wf(&self) -> bool {
        100 <= self.value() <= 999
    }

    /// The status with the code `code`, if that has three digits.
    pub fn new(code: u16) -> (r: Option<StatusCode>)
        ensures
            match r {
                Some(status) => 100 <= code <= 999 && status.value() == code,
                None => !(100 <= code <= 999),
            },
    {
        if 100 <= code && code <= 999 {
            Some(StatusCode { code })
        } else {
            None
        }
    }

    /// The code as a number.
    pub fn code(&self) -> (r: u16)
        ensures
            r == self.value(),
            100 <= r <= 999,
    {
        proof {
            use_type_invariant(self);
        }
        self.code
    }

    /// The words that go with the code on the status line.
    pub fn reason(&self) -> (r: &'static str)
        ensures
            r@ == reason_phrase(self.value()),
    {
        let code = self.code;
        if code == 200 {
            "OK"
        } else if code == 201 {
            "Created"
        } else if code == 204 {
            "No Content"
        } else if code == 301 {
            "Moved Permanently"
        } else if code == 302 {
            "Found"
        } else if code == 304 {
            "Not Modified"
        } else if code == 400 {
            "Bad Request"
        } else if code == 401 {
            "Unauthorized"
        } else if code == 403 {
            "Forbidden"
        } else if code == 404 {
            "Not Found"
        } else if code == 405 {
            "Method Not Allowed"
        } else if code == 408 {
            "Request Timeout"
        } else if code == 500 {
            "Internal Server Error"
        } else if code == 501 {
            "Not Implemented"
        } else if code == 503 {
            "Service Unavailable"
        } else {
            ""
        }
    }
}

/// What a handler answers: a status, header fields and a body.
#[derive(Debug)]
pub struct Response {
    pub status: StatusCode,
    pub headers: Headers,
    pub body: String,
}

/// Writes `n` in decimal digits.
pub fn decimal(n: usize) -> (v: Vec<u8>)
    ensures
        v@ == digits(n as nat),
    decreases n,
{
    if n < 10 {
        let mut v: Vec<u8> = Vec::new();
        v.push(48 + n as u8);
        assert(v@ =~= seq![(48 + n) as u8]);
        v
    } else {
        let mut v = decimal(n / 10);
        v.push(48 + (n % 10) as u8);
        v
    }
}

/// Appends `bytes` to `out`.
pub fn put(out: &mut Vec<u8>, bytes: &[u8])
    ensures
        final(out)@ == old(out)@ + bytes@,
{
    let mut i: usize = 0;
    assert(bytes@.subrange(0, 0) =~= Seq::<u8>::empty());
    assert(out@ =~= old(out)@ + bytes@.subrange(0, 0));
    while i < bytes.len()
        invariant
            i <= bytes@.len(),
            out@ == old(out)@ + bytes@.subrange(0, i as int),
        decreases bytes@.len() - i,
    {
        out.push(bytes[i]);
        assert(bytes@.subrange(0, i + 1) =~= bytes@.subrange(0, i as int).push(bytes@[i as int]));
        assert(out@ =~= old(out)@ + bytes@.subrange(0, i + 1));
        i += 1;
    }
    assert(bytes@.subrange(0, bytes@.len() as int) =~= bytes@);
}

/// Appends a header line to `out`.
fn put_field(out: &mut Vec<u8>, name: &str, value: &[u8])
    ensures
        final(out)@ == old(out)@ + (encode_utf8(name@) + seq![COLON, SP] + value@ + seq![CR, LF]),
{
    let ghost before = out@;
    put(out, name.as_bytes());
    out.push(COLON);
    out.push(SP);
    put(out, value);
    out.push(CR);
    out.push(LF);
    assert(out@ =~= before + (encode_utf8(name@) + seq![COLON, SP] + value@ + seq![CR, LF]));
}

impl Response {
    /// A response with a status and a body, and no header field.
    pub fn new(status: StatusCode, body: String) -> (r: Response)
        ensures
            r.status == status,
            r.body == body,
            r.headers.pairs() == Seq::<(Seq<char>, Seq<char>)>::empty(),
    {
        Response { status, headers: Headers::new(), body }
    }

    /// Whether the handler has set the length of the body itself.
    pub open spec fn has_content_length(&self) -> bool {
        has_name(self.headers.pairs(), "content-length"@)
    }

    /// The response on the wire: the status line, the header fields in their
    /// order, the length of the body in bytes unless the fields give one, an
    /// empty line, and the body.
    pub open spec fn wire(&self) -> Seq<u8> {
        status_line(self.status.value()) + field_lines(self.headers.pairs()) + (if self.has_content_length() {
            Seq::empty()
        } else {
            content_length_line(encode_utf8(self.body@).len())
        }) + seq![CR, LF] + encode_utf8(self.body@)
    }

    /// Writes the response as it goes on the wire.
    pub fn to_bytes(&self) -> (out: Vec<u8>)
        ensures
            out@ == self.wire(),
    {
        let mut out: Vec<u8> = Vec::new();
        put(&mut out, "HTTP/1.1 ".as_bytes());
        let code = decimal(self.status.code() as usize);
        put(&mut out, code.as_slice());
        out.push(SP);
        put(&mut out, self.status.reason().as_bytes());
        out.push(CR);
        out.push(LF);
        assert(out@ =~= status_line(self.status.value()));
        let n = self.headers.len();
        let mut i: usize = 0;
        assert(self.headers.pairs().subrange(0, 0) =~= Seq::empty());
        assert(out@ =~= status_line(self.status.value()) + field_lines(
            self.headers.pairs().subrange(0, 0),
        ));
        while i < n
            invariant
                n == self.headers.pairs().len(),
                i <= n,
                out@ == status_line(self.status.value()) + field_lines(
                    self.headers.pairs().subrange(0, i as int),
                ),
            decreases n - i,
        {
            let ghost done = self.headers.pairs().subrange(0, i as int);
            let ghost more = self.headers.pairs().subrange(0, i + 1);
            match self.headers.entry(i) {
                Some((name, value)) => {
                    put_field(&mut out, name.as_str(), value.as_str().as_bytes());
                    proof {
                        assert(more.drop_last() =~= done);
                        assert(more.last() == (name@, value@));
                        assert(out@ =~= status_line(self.status.value()) + field_lines(more));
                    }
                },
                None => {},
            }
            i += 1;
        }
        assert(self.headers.pairs().subrange(0, n as int) =~= self.headers.pairs());
        let body = self.body.as_str().as_bytes();
        proof {
            reveal_strlit("content-length");
            assert(ascii_lower("content-length"@) =~= "content-length"@);
        }
        if !self.headers.contains("content-length") {
            let length = decimal(body.len());
            put_field(&mut out, "content-length", length.as_slice());
        }
        out.push(CR);
        out.push(LF);
        put(&mut out, body);
        assert(out@ =~= self.wire());
        out
    }
}

} // verus!

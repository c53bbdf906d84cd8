//! The machine that reads a request byte by byte.
//!
//! The machine performs no I/O. Whoever owns the connection reads a byte,
//! hands it over as an [`Event`], and does what the [`Step`] that comes back
//! says: read on, or stop with a request or an error.
use vstd::prelude::*;
use crate::error::Error;
use crate::grammar::{self, RequestModel};
use crate::lines::{content, parse_header_line, parse_request_line};
use crate::request::Request;
use crate::scan::{index_of, lemma_index_of, lemma_index_of_append, lemma_index_of_is, LF};

verus! {

/// What happened on the connection.
#[derive(Clone, Copy, Debug, PartialEq, Eq, Structural)]
pub enum Event {
    /// A byte arrived.
    Byte(u8),
    /// The stream was closed, or reading from it failed.
    Closed,
    /// The deadline for the request passed.
    TimedOut,
}

/// What the machine is reading.
#[derive(Clone, Copy, Debug, PartialEq, Eq, Structural)]
pub enum State {
    ReadingRequestLine,
    ReadingHeaders,
}

/// The state of the machine: the bytes of the line that is being read, and
/// the request as far as it is known. The request is absent while the request
/// line is being read, and present while the headers are.
pub struct ParserModel {
    pub line: Seq<u8>,
    pub request: Option<RequestModel>,
}

/// Where an event leads.
pub enum StepModel {
    Read(ParserModel),
    Done(RequestModel),
    Failed(Error),
}

impl ParserModel {
    /// The state before any byte.
    pub open spec fn start() -> ParserModel {
        ParserModel { line: Seq::empty(), request: None }
    }

    /// The state that reads the next line.
    pub open spec fn next_line(request: RequestModel) -> ParserModel {
        ParserModel { line: Seq::empty(), request: Some(request) }
    }

    /// What the machine is reading in this state.
    pub open spec fn state(self) -> State {
        if self.request is Some {
            State::ReadingHeaders
        } else {
            State::ReadingRequestLine
        }
    }
}

/// The machine's answer to an event. A byte other than LF joins the line. LF
/// ends the line: the request line is read and the headers begin; or a header
/// is read; or, at an empty line, the request is done. The first failure ends
/// the machine, as do a closed stream and a passed deadline.
pub open spec fn step(m: ParserModel, event: Event) -> StepModel {
    match event {
        Event::Closed => StepModel::Failed(Error::IOError),
        Event::TimedOut => StepModel::Failed(Error::Timeout),
        Event::Byte(b) => {
            if b != LF {
                StepModel::Read(ParserModel { line: m.line.push(b), request: m.request })
            } else {
                let c = grammar::line_content(m.line);
                match m.request {
                    None => match grammar::request_line(c) {
                        Err(e) => StepModel::Failed(e),
                        Ok(request) => StepModel::Read(ParserModel::next_line(request)),
                    },
                    Some(request) => {
                        if c.len() == 0 {
                            StepModel::Done(request)
                        } else {
                            match grammar::header_line(c) {
                                Err(e) => StepModel::Failed(e),
                                Ok((name, value)) => StepModel::Read(
                                    ParserModel::next_line(request.with_header(name, value)),
                                ),
                            }
                        }
                    },
                }
            }
        },
    }
}

/// Where the machine ends when it is handed the bytes `s`, one by one, and
/// then the news that the stream was closed.
pub open spec fn run(m: ParserModel, s: Seq<u8>) -> Result<RequestModel, Error>
    decreases s.len(),
{
    if s.len() == 0 {
        Err(Error::IOError)
    } else {
        match step(m, Event::Byte(s[0])) {
            StepModel::Read(next) => run(next, s.drop_first()),
            StepModel::Done(request) => Ok(request),
            StepModel::Failed(e) => Err(e),
        }
    }
}

/// The machine reads what the grammar says. From a state whose line holds no
/// LF, running over `s` ends as the grammar reads the line's bytes followed
/// by `s`: as a request where the request line is still being read, as a
/// header block where the headers are.
pub proof fn lemma_run_reads_request(m: ParserModel, s: Seq<u8>)
    requires
        index_of(m.line, LF) == m.line.len(),
    ensures
        run(m, s) == match m.request {
            None => grammar::request(m.line + s),
            Some(request) => grammar::with_headers(
                request,
                grammar::header_block(m.line + s, request.headers),
            ),
        },
    decreases s.len(),
{
    let all = m.line + s;
    lemma_index_of_append(m.line, s, LF);
    lemma_index_of(s, LF);
    if s.len() == 0 {
        assert(all =~= m.line);
    } else if s[0] != LF {
        let next = ParserModel { line: m.line.push(s[0]), request: m.request };
        assert(next.line + s.drop_first() =~= all);
        assert(index_of(next.line, LF) == next.line.len()) by {
            lemma_index_of(m.line, LF);
            lemma_index_of_is(next.line, LF, next.line.len() as int);
        }
        lemma_run_reads_request(next, s.drop_first());
    } else {
        let end = m.line.len() as int;
        assert(index_of(s, LF) == 0);
        assert(index_of(all, LF) == end);
        assert(all.subrange(0, end) =~= m.line);
        assert(all.subrange(end + 1, all.len() as int) =~= s.drop_first());
        assert(Seq::<u8>::empty() + s.drop_first() =~= s.drop_first());
        assert(index_of(Seq::<u8>::empty(), LF) == 0);
        let c = grammar::line_content(m.line);
        match m.request {
            None => {
                if let Ok(request) = grammar::request_line(c) {
                    lemma_run_reads_request(ParserModel::next_line(request), s.drop_first());
                }
            },
            Some(request) => {
                if c.len() != 0 {
                    if let Ok((name, value)) = grammar::header_line(c) {
                        lemma_run_reads_request(
                            ParserModel::next_line(request.with_header(name, value)),
                            s.drop_first(),
                        );
                    }
                }
            },
        }
    }
}

/// The machine that reads one request.
#[derive(Debug)]
pub struct Parser {
    line: Vec<u8>,
    request: Option<Request>,
}

impl View for Parser {
    type V = ParserModel;

    closed spec fn view(&self) -> ParserModel {
        ParserModel {
            line: self.line@,
            request: match self.request {
                Some(request) => Some(request@),
                None => None,
            },
        }
    }
}

/// What the owner of the connection is to do next.
#[derive(Debug)]
pub enum Step {
    /// Read another byte and hand it to the parser in here.
    Read(Parser),
    /// Stop reading: the request is complete.
    Done(Request),
    /// Stop reading and give the connection up.
    Failed(Error),
}

impl View for Step {
    type V = StepModel;

    open spec fn view(&self) -> StepModel {
        match self {
            Step::Read(parser) => StepModel::Read(parser@),
            Step::Done(request) => StepModel::Done(request@),
            Step::Failed(e) => StepModel::Failed(*e),
        }
    }
}

impl Parser {
    /// A machine that has seen no byte.
    pub fn new() -> (r: Parser)
        ensures
            r@ == ParserModel::start(),
    {
        Parser { line: Vec::new(), request: None }
    }

    /// What the machine is reading.
    pub fn state(&self) -> (r: State)
        ensures
            r == self@.state(),
    {
        if self.request.is_some() {
            State::ReadingHeaders
        } else {
            State::ReadingRequestLine
        }
    }

    /// Takes an event and says what to do next.
    pub fn step(self, event: Event) -> (r: Step)
        ensures
            r@ == step(self@, event),
    {
        let Parser { mut line, request } = self;
        match event {
            Event::Closed => Step::Failed(Error::IOError),
            Event::TimedOut => Step::Failed(Error::Timeout),
            Event::Byte(b) => {
                if b != LF {
                    line.push(b);
                    Step::Read(Parser { line, request })
                } else {
                    let c = content(line.as_slice());
                    match request {
                        None => match parse_request_line(c) {
                            Err(e) => Step::Failed(e),
                            Ok(found) => Step::Read(
                                Parser { line: Vec::new(), request: Some(found) },
                            ),
                        },
                        Some(mut known) => {
                            if c.len() == 0 {
                                Step::Done(known)
                            } else {
                                match parse_header_line(c) {
                                    Err(e) => Step::Failed(e),
                                    Ok((name, value)) => {
                                        known.headers.insert(name.as_str(), value);
                                        Step::Read(
                                            Parser { line: Vec::new(), request: Some(known) },
                                        )
                                    },
                                }
                            }
                        },
                    }
                }
            },
        }
    }
}

} // verus!

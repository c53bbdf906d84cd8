//! What holds of the reading of requests, whatever the bytes.
use vstd::prelude::*;
use vstd::utf8::*;
use crate::encoding::ascii_lower;
use crate::error::Error;
use crate::grammar::{
    header_block,
    header_line,
    line_content,
    request,
    request_line,
    target,
    RequestModel,
    COLON,
};
use crate::method::Method;
use crate::parser::{lemma_run_reads_request, run, step, Event, ParserModel, StepModel};
use crate::request::{agrees, RequestParseResult};
use crate::scan::{
    index_of,
    lacks,
    lemma_index_of,
    lemma_index_of_append,
    lemma_index_of_is,
    CR,
    LF,
    SP,
};
use crate::version::Version;

verus! {

/// Reading is repeatable: two readings of the same bytes, from whatever
/// streams they came, give requests with the same content, or the same error.
pub proof fn lemma_reading_is_repeatable(
    bytes: Seq<u8>,
    first: RequestParseResult,
    second: RequestParseResult,
)
    requires
        agrees(first, request(bytes)),
        agrees(second, request(bytes)),
    ensures
        match (first, second) {
            (Ok(a), Ok(b)) => a@ == b@,
            (Err(a), Err(b)) => a == b,
            _ => false,
        },
{
}

/// The machine, handed bytes one by one from its first state, ends where the
/// grammar says that the bytes as a whole lead.
pub proof fn lemma_machine_reads_request(s: Seq<u8>)
    ensures
        run(ParserModel::start(), s) == request(s),
{
    lemma_run_reads_request(ParserModel::start(), s);
    assert(Seq::<u8>::empty() + s =~= s);
}

/// A request line of three parts with single spaces between them is read part
/// by part: the method, then the version, then the target, and the first of
/// them that fails gives the error.
pub proof fn lemma_request_line_of_three_parts(m: Seq<u8>, t: Seq<u8>, v: Seq<u8>)
    requires
        lacks(m, SP),
        lacks(t, SP),
        valid_utf8(m + seq![SP] + t + seq![SP] + v),
    ensures
        request_line(m + seq![SP] + t + seq![SP] + v) == match Method::named(decode_utf8(m)) {
            None => Err::<RequestModel, Error>(Error::UnknownMethod),
            Some(method) => match Version::named(decode_utf8(v)) {
                None => Err(Error::UnsupportedVersion),
                Some(version) => match target(t) {
                    Err(e) => Err(e),
                    Ok((uri, query_params)) => Ok(
                        RequestModel {
                            method,
                            uri,
                            version,
                            headers: Map::empty(),
                            query_params,
                            path_params: Map::empty(),
                        },
                    ),
                },
            },
        },
{
    let c = m + seq![SP] + t + seq![SP] + v;
    let first = m.len() as int;
    assert forall|j: int| 0 <= j < first implies c[j] != SP by {
        assert(c[j] == m[j]);
    }
    assert(c[first] == SP);
    lemma_index_of_is(c, SP, first);
    let rest = c.subrange(first + 1, c.len() as int);
    assert(rest =~= t + seq![SP] + v);
    let second = t.len() as int;
    assert forall|j: int| 0 <= j < second implies rest[j] != SP by {
        assert(rest[j] == t[j]);
    }
    assert(rest[second] == SP);
    lemma_index_of_is(rest, SP, second);
    assert(c.subrange(0, first) =~= m);
    assert(rest.subrange(0, second) =~= t);
    assert(rest.subrange(second + 1, rest.len() as int) =~= v);
}

/// A request line of fewer than three parts is malformed: one that holds no
/// space, and one that holds a single space.
pub proof fn lemma_fewer_than_three_parts(a: Seq<u8>, b: Seq<u8>)
    requires
        lacks(a, SP),
        lacks(b, SP),
    ensures
        valid_utf8(a) ==> request_line(a) == Err::<RequestModel, Error>(
            Error::MalformedRequestLine,
        ),
        valid_utf8(a + seq![SP] + b) ==> request_line(a + seq![SP] + b) == Err::<
            RequestModel,
            Error,
        >(Error::MalformedRequestLine),
{
    lemma_index_of_is(a, SP, a.len() as int);
    let c = a + seq![SP] + b;
    let first = a.len() as int;
    assert forall|j: int| 0 <= j < first implies c[j] != SP by {
        assert(c[j] == a[j]);
    }
    assert(c[first] == SP);
    lemma_index_of_is(c, SP, first);
    assert(c.subrange(first + 1, c.len() as int) =~= b);
    lemma_index_of_is(b, SP, b.len() as int);
}

/// A header line that holds no colon is malformed.
pub proof fn lemma_header_without_colon(c: Seq<u8>)
    requires
        valid_utf8(c),
        lacks(c, COLON),
    ensures
        header_line(c) == Err::<(Seq<char>, Seq<char>), Error>(Error::MalformedHeader),
{
    lemma_index_of_is(c, COLON, c.len() as int);
}

/// Header names count without the case of their letters, and a later value
/// replaces an earlier: after two headers whose names differ in case at
/// most, the request holds the second value under either name.
pub proof fn lemma_header_names_ignore_case(
    known: RequestModel,
    first: Seq<char>,
    second: Seq<char>,
    earlier: Seq<char>,
    later: Seq<char>,
)
    requires
        ascii_lower(first) == ascii_lower(second),
    ensures
        ({
            let headers = known.with_header(first, earlier).with_header(second, later).headers;
            &&& headers.contains_key(ascii_lower(first))
            &&& headers[ascii_lower(first)] == later
            &&& headers[ascii_lower(second)] == later
            &&& headers.dom() == known.headers.dom().insert(ascii_lower(first))
        }),
{
    let headers = known.with_header(first, earlier).with_header(second, later).headers;
    assert(headers.dom() =~= known.headers.dom().insert(ascii_lower(first)));
}

/// An empty line completes the request, whether headers came before it or
/// none did, and whether it ends in CR and LF or in LF alone. What stands
/// behind the empty line plays no part.
pub proof fn lemma_empty_line_completes(known: RequestModel, behind: Seq<u8>)
    ensures
        run(ParserModel::next_line(known), seq![CR, LF] + behind) == Ok::<RequestModel, Error>(
            known,
        ),
        run(ParserModel::next_line(known), seq![LF] + behind) == Ok::<RequestModel, Error>(known),
{
    let m = ParserModel::next_line(known);
    let with_cr = seq![CR, LF] + behind;
    let after_cr = ParserModel { line: seq![CR], request: Some(known) };
    assert(m.line.push(CR) =~= seq![CR]);
    assert(step(m, Event::Byte(CR)) == StepModel::Read(after_cr));
    assert(with_cr.drop_first()[0] == LF);
    assert(line_content(seq![CR]) =~= Seq::<u8>::empty());
    assert(step(after_cr, Event::Byte(LF)) == StepModel::Done(known));
    assert(run(after_cr, with_cr.drop_first()) == Ok::<RequestModel, Error>(known));
    let bare = seq![LF] + behind;
    assert(bare[0] == LF);
    assert(step(m, Event::Byte(LF)) == StepModel::Done(known));
}

/// A stream that is closed within a line gives an I/O error, in whatever
/// state the line was begun: no request comes of it.
pub proof fn lemma_close_within_a_line(m: ParserModel, s: Seq<u8>)
    requires
        lacks(s, LF),
    ensures
        step(m, Event::Closed) == StepModel::Failed(Error::IOError),
        run(m, s) == Err::<RequestModel, Error>(Error::IOError),
    decreases s.len(),
{
    if s.len() > 0 {
        let next = ParserModel { line: m.line.push(s[0]), request: m.request };
        assert forall|i: int| 0 <= i < s.drop_first().len() implies s.drop_first()[i] != LF by {
            assert(s.drop_first()[i] == s[i + 1]);
        }
        lemma_close_within_a_line(next, s.drop_first());
    }
}

/// The headers of a block that is complete, or that fails on one of its
/// lines, do not depend on what follows.
pub proof fn lemma_header_block_ignores_what_follows(
    s: Seq<u8>,
    t: Seq<u8>,
    acc: Map<Seq<char>, Seq<char>>,
)
    requires
        header_block(s, acc) != Err::<Map<Seq<char>, Seq<char>>, Error>(Error::IOError),
    ensures
        header_block(s + t, acc) == header_block(s, acc),
    decreases s.len(),
{
    lemma_index_of(s, LF);
    lemma_index_of_append(s, t, LF);
    let end = index_of(s, LF) as int;
    let all = s + t;
    assert(all.subrange(0, end) =~= s.subrange(0, end));
    assert(all.subrange(end + 1, all.len() as int) =~= s.subrange(end + 1, s.len() as int) + t);
    let line = line_content(s.subrange(0, end));
    if line.len() != 0 {
        if let Ok((name, value)) = header_line(line) {
            lemma_header_block_ignores_what_follows(
                s.subrange(end + 1, s.len() as int),
                t,
                acc.insert(ascii_lower(name), value),
            );
        }
    }
}

/// Bytes behind the request are not read: where the bytes `s` give a request,
/// or an error other than a stream closed too early, the bytes `s` followed
/// by any others give the same.
pub proof fn lemma_request_ignores_what_follows(s: Seq<u8>, t: Seq<u8>)
    requires
        request(s) != Err::<RequestModel, Error>(Error::IOError),
    ensures
        request(s + t) == request(s),
{
    lemma_index_of(s, LF);
    lemma_index_of_append(s, t, LF);
    let end = index_of(s, LF) as int;
    let all = s + t;
    assert(all.subrange(0, end) =~= s.subrange(0, end));
    assert(all.subrange(end + 1, all.len() as int) =~= s.subrange(end + 1, s.len() as int) + t);
    if let Ok(start) = request_line(line_content(s.subrange(0, end))) {
        lemma_header_block_ignores_what_follows(
            s.subrange(end + 1, s.len() as int),
            t,
            Map::empty(),
        );
    }
}

} // verus!

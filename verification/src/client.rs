//! What a client reads from a response, and the proof that it reads what was
//! sent.
use vstd::prelude::*;
use vstd::utf8::*;
use crate::encoding::ascii_lower;
use crate::error::Error;
use crate::grammar::{header_block, header_line, line_content, skip_blank, COLON};
use crate::params::{
    distinct_names,
    has_name,
    lemma_map_of_at,
    lower_names,
    position,
};
use crate::response::{
    content_length_line,
    digits,
    field_line,
    field_lines,
    reason_phrase,
    status_line,
    Response,
};
use crate::scan::{index_of, lacks, lemma_index_of_is, CR, LF, SP};

verus! {

/// The value of a decimal digit.
pub open spec fn digit(b: u8) -> Option<nat> {
    if 48 <= b <= 57 {
        Some((b - 48) as nat)
    } else {
        None
    }
}

/// The number that decimal digits write. `None` where a byte is no digit, or
/// where there is no byte.
pub open spec fn number(s: Seq<u8>) -> Option<nat>
    decreases s.len(),
{
    if s.len() == 0 {
        None
    } else {
        match digit(s.last()) {
            None => None,
            Some(d) => if s.len() == 1 {
                Some(d)
            } else {
                match number(s.drop_last()) {
                    None => None,
                    Some(n) => Some(10 * n + d),
                }
            },
        }
    }
}

/// The status code on a status line: the line begins with `HTTP/1.1`, a
/// space, three digits and a space.
pub open spec fn status_of(line: Seq<u8>) -> Option<nat> {
    if line.len() >= 13 && line.subrange(0, 9) == encode_utf8("HTTP/1.1 "@) && line[12] == SP {
        number(line.subrange(9, 12))
    } else {
        None
    }
}

/// What follows the empty line that ends a header block.
pub open spec fn after_header_block(s: Seq<u8>) -> Seq<u8>
    decreases s.len(),
{
    let end = index_of(s, LF) as int;
    if end >= s.len() {
        Seq::empty()
    } else if line_content(s.subrange(0, end)).len() == 0 {
        s.subrange(end + 1, s.len() as int)
    } else {
        after_header_block(s.subrange(end + 1, s.len() as int))
    }
}

/// The status and the body that a client reads from the bytes `w`: the code
/// of the status line, and after the header block as many bytes as the
/// header `content-length` says, or all there are if there is no such
/// header. `None` where the bytes are no response, or end too early.
pub open spec fn reading(w: Seq<u8>) -> Option<(nat, Seq<u8>)> {
    let end = index_of(w, LF) as int;
    let rest = w.subrange(end + 1, w.len() as int);
    let body = after_header_block(rest);
    if end >= w.len() {
        None
    } else {
        match (status_of(line_content(w.subrange(0, end))), header_block(rest, Map::empty())) {
            (Some(status), Ok(headers)) => {
                if !headers.contains_key("content-length"@) {
                    Some((status, body))
                } else {
                    match number(encode_utf8(headers["content-length"@])) {
                        None => None,
                        Some(n) => if n <= body.len() {
                            Some((status, body.subrange(0, n as int)))
                        } else {
                            None
                        },
                    }
                }
            },
            _ => None,
        }
    }
}

/// The fields can be sent as header lines: no name holds a line feed or a
/// colon, and no value holds a line feed.
pub open spec fn sendable(p: Seq<(Seq<char>, Seq<char>)>) -> bool {
    forall|i: int|
        0 <= i < p.len() ==> {
            &&& lacks(encode_utf8((#[trigger] p[i]).0), LF)
            &&& lacks(encode_utf8(p[i].0), COLON)
            &&& lacks(encode_utf8(p[i].1), LF)
        }
}

/// The headers that a client has after it read the lines of the fields `p`.
pub open spec fn received(acc: Map<Seq<char>, Seq<char>>, p: Seq<(Seq<char>, Seq<char>)>) -> Map<
    Seq<char>,
    Seq<char>,
>
    decreases p.len(),
{
    if p.len() == 0 {
        acc
    } else {
        received(
            acc.insert(ascii_lower(p[0].0), decode_utf8(skip_blank(encode_utf8(p[0].1)))),
            p.drop_first(),
        )
    }
}

/// Every character is a printable ASCII character.
pub open spec fn printable(s: Seq<char>) -> bool {
    forall|i: int| 0 <= i < s.len() ==> ' ' <= #[trigger] s[i] <= '~'
}

proof fn lemma_printable_bytes(s: Seq<char>)
    requires
        printable(s),
    ensures
        encode_utf8(s).len() == s.len(),
        forall|i: int| 0 <= i < s.len() ==> #[trigger] encode_utf8(s)[i] == s[i] as u8,
        lacks(encode_utf8(s), LF),
{
    assert(is_ascii_chars(s));
    is_ascii_chars_encode_utf8(s);
    assert forall|i: int| 0 <= i < s.len() implies #[trigger] encode_utf8(s)[i] == s[i] as u8 by {
        assert(s[i] as u8 == encode_utf8(s)[i]);
    }
}

proof fn lemma_reason_printable(code: nat)
    ensures
        printable(reason_phrase(code)),
{
    reveal_strlit("OK");
    reveal_strlit("Created");
    reveal_strlit("No Content");
    reveal_strlit("Moved Permanently");
    reveal_strlit("Found");
    reveal_strlit("Not Modified");
    reveal_strlit("Bad Request");
    reveal_strlit("Unauthorized");
    reveal_strlit("Forbidden");
    reveal_strlit("Not Found");
    reveal_strlit("Method Not Allowed");
    reveal_strlit("Request Timeout");
    reveal_strlit("Internal Server Error");
    reveal_strlit("Not Implemented");
    reveal_strlit("Service Unavailable");
    reveal_strlit("");
}

proof fn lemma_ascii_is_utf8(s: Seq<u8>)
    requires
        forall|i: int| 0 <= i < s.len() ==> s[i] < 0x80,
    ensures
        valid_utf8(s),
{
    assert(s.subrange(0, 0) =~= Seq::<u8>::empty());
    assert(partial_valid_utf8(s, 0));
    assert forall|i: int| 0 <= 0 <= i < s.len() <= s.len() implies #[trigger] is_leading_byte_width_1(
        s[i],
    ) by {}
    partial_valid_utf8_extend_ascii_block(s, 0, s.len() as int);
    assert(s.subrange(0, s.len() as int) =~= s);
}

/// Digits write the number that they were made from, and are nothing but
/// digits.
pub proof fn lemma_number_of_digits(n: nat)
    ensures
        number(digits(n)) == Some(n),
        digits(n).len() >= 1,
        forall|i: int| 0 <= i < digits(n).len() ==> 48 <= #[trigger] digits(n)[i] <= 57,
    decreases n,
{
    if n >= 10 {
        lemma_number_of_digits(n / 10);
        let s = digits(n);
        assert(s.drop_last() =~= digits(n / 10));
        assert(s.last() == (48 + n % 10) as u8);
    }
}

proof fn lemma_three_digits(code: nat)
    requires
        100 <= code <= 999,
    ensures
        digits(code).len() == 3,
{
    reveal_with_fuel(digits, 3);
}

/// A line that is sent with CR and LF behind it is read back as it was.
proof fn lemma_first_line(body: Seq<u8>, rest: Seq<u8>)
    requires
        lacks(body, LF),
    ensures
        ({
            let w = body + seq![CR, LF] + rest;
            &&& index_of(w, LF) == body.len() + 1
            &&& line_content(w.subrange(0, body.len() as int + 1)) == body
            &&& w.subrange(body.len() as int + 2, w.len() as int) == rest
        }),
{
    let w = body + seq![CR, LF] + rest;
    let end = body.len() as int + 1;
    assert forall|j: int| 0 <= j < end implies w[j] != LF by {
        if j < body.len() {
            assert(w[j] == body[j]);
        } else {
            assert(w[j] == CR);
        }
    }
    assert(w[end] == LF);
    lemma_index_of_is(w, LF, end);
    let line = w.subrange(0, end);
    assert(line.last() == CR);
    assert(line.drop_last() =~= body);
    assert(w.subrange(end + 1, w.len() as int) =~= rest);
}

/// A header line that was written from a name and a value is read as that
/// name, and as the value without the blanks that it begins with.
proof fn lemma_header_line_of_field(name: Seq<char>, value: Seq<char>)
    requires
        lacks(encode_utf8(name), COLON),
    ensures
        ({
            let c = encode_utf8(name) + seq![COLON, SP] + encode_utf8(value);
            &&& c.len() > 0
            &&& header_line(c) == Ok::<(Seq<char>, Seq<char>), Error>(
                (name, decode_utf8(skip_blank(encode_utf8(value)))),
            )
        }),
{
    let n = encode_utf8(name);
    let v = encode_utf8(value);
    let sep = seq![COLON, SP];
    let c = n + sep + v;
    encode_utf8_valid_utf8(name);
    encode_utf8_valid_utf8(value);
    lemma_ascii_is_utf8(sep);
    valid_utf8_concat(n, sep);
    valid_utf8_concat(n + sep, v);
    let colon = n.len() as int;
    assert forall|j: int| 0 <= j < colon implies c[j] != COLON by {
        assert(c[j] == n[j]);
    }
    assert(c[colon] == COLON);
    lemma_index_of_is(c, COLON, colon);
    assert(c.subrange(0, colon) =~= n);
    encode_utf8_decode_utf8(name);
    let after = c.subrange(colon + 1, c.len() as int);
    assert(after =~= seq![SP] + v);
    assert(after[0] == SP);
    assert(after.drop_first() =~= v);
}

/// The lines of a list of fields begin with the line of its first field.
proof fn lemma_field_lines_front(p: Seq<(Seq<char>, Seq<char>)>)
    requires
        p.len() > 0,
    ensures
        field_lines(p) == field_line(p[0].0, p[0].1) + field_lines(p.drop_first()),
    decreases p.len(),
{
    if p.len() == 1 {
        assert(p.drop_last() =~= Seq::empty());
        assert(p.drop_first() =~= Seq::empty());
        assert(field_lines(p) =~= field_line(p[0].0, p[0].1) + field_lines(p.drop_first()));
    } else {
        let front = p.drop_last();
        lemma_field_lines_front(front);
        assert(front[0] == p[0]);
        assert(p.drop_first().drop_last() =~= front.drop_first());
        assert(p.drop_first().last() == p.last());
        assert(field_lines(p) =~= field_line(p[0].0, p[0].1) + field_lines(p.drop_first()));
    }
}

/// A client that reads the lines of sendable fields has their names and
/// values, and stands behind those lines.
proof fn lemma_reads_field_lines(
    p: Seq<(Seq<char>, Seq<char>)>,
    tail: Seq<u8>,
    acc: Map<Seq<char>, Seq<char>>,
)
    requires
        sendable(p),
    ensures
        header_block(field_lines(p) + tail, acc) == header_block(tail, received(acc, p)),
        after_header_block(field_lines(p) + tail) == after_header_block(tail),
    decreases p.len(),
{
    if p.len() == 0 {
        assert(field_lines(p) + tail =~= tail);
    } else {
        let name = p[0].0;
        let value = p[0].1;
        let rest = p.drop_first();
        let body = encode_utf8(name) + seq![COLON, SP] + encode_utf8(value);
        let behind = field_lines(rest) + tail;
        let w = field_lines(p) + tail;
        lemma_field_lines_front(p);
        assert(w =~= body + seq![CR, LF] + behind);
        assert(lacks(body, LF)) by {
            assert forall|j: int| 0 <= j < body.len() implies body[j] != LF by {
                let n = encode_utf8(name).len() as int;
                if j < n {
                    assert(body[j] == encode_utf8(name)[j]);
                } else if j >= n + 2 {
                    assert(body[j] == encode_utf8(value)[j - n - 2]);
                }
            }
        }
        lemma_first_line(body, behind);
        lemma_header_line_of_field(name, value);
        assert(sendable(rest)) by {
            assert forall|i: int| 0 <= i < rest.len() implies {
                &&& lacks(encode_utf8((#[trigger] rest[i]).0), LF)
                &&& lacks(encode_utf8(rest[i].0), COLON)
                &&& lacks(encode_utf8(rest[i].1), LF)
            } by {
                assert(rest[i] == p[i + 1]);
            }
        }
        lemma_reads_field_lines(
            rest,
            tail,
            acc.insert(ascii_lower(name), decode_utf8(skip_blank(encode_utf8(value)))),
        );
    }
}

/// Fields with other names leave a header as it was.
proof fn lemma_received_other(
    acc: Map<Seq<char>, Seq<char>>,
    p: Seq<(Seq<char>, Seq<char>)>,
    k: Seq<char>,
)
    requires
        forall|i: int| 0 <= i < p.len() ==> ascii_lower((#[trigger] p[i]).0) != k,
    ensures
        received(acc, p).contains_key(k) == acc.contains_key(k),
        received(acc, p)[k] == acc[k],
    decreases p.len(),
{
    if p.len() > 0 {
        let rest = p.drop_first();
        assert(ascii_lower(p[0].0) != k);
        assert forall|i: int| 0 <= i < rest.len() implies ascii_lower((#[trigger] rest[i]).0)
            != k by {
            assert(rest[i] == p[i + 1]);
        }
        lemma_received_other(
            acc.insert(ascii_lower(p[0].0), decode_utf8(skip_blank(encode_utf8(p[0].1)))),
            rest,
            k,
        );
    }
}

/// Where no name occurs twice, the client has for each field's name what that
/// field's line gave.
proof fn lemma_received_at(
    acc: Map<Seq<char>, Seq<char>>,
    p: Seq<(Seq<char>, Seq<char>)>,
    j: int,
)
    requires
        distinct_names(p),
        lower_names(p),
        0 <= j < p.len(),
    ensures
        received(acc, p).contains_key(p[j].0),
        received(acc, p)[p[j].0] == decode_utf8(skip_blank(encode_utf8(p[j].1))),
    decreases p.len(),
{
    let rest = p.drop_first();
    let next = acc.insert(ascii_lower(p[0].0), decode_utf8(skip_blank(encode_utf8(p[0].1))));
    assert forall|i: int| 0 <= i < rest.len() implies rest[i] == p[i + 1] by {}
    if j == 0 {
        assert forall|i: int| 0 <= i < rest.len() implies ascii_lower((#[trigger] rest[i]).0)
            != p[0].0 by {
            assert(rest[i] == p[i + 1]);
            assert(p[0].0 != p[i + 1].0);
        }
        lemma_received_other(next, rest, p[0].0);
    } else {
        assert(distinct_names(rest)) by {
            assert forall|a: int, b: int| 0 <= a < b < rest.len() implies (#[trigger] rest[a]).0
                != (#[trigger] rest[b]).0 by {
                assert(rest[a] == p[a + 1] && rest[b] == p[b + 1]);
            }
        }
        assert(lower_names(rest)) by {
            assert forall|i: int| 0 <= i < rest.len() implies ascii_lower((#[trigger] rest[i]).0)
                == rest[i].0 by {
                assert(rest[i] == p[i + 1]);
            }
        }
        assert(rest[j - 1] == p[j]);
        lemma_received_at(next, rest, j - 1);
    }
}

/// A client reads the code of a status line, and stands behind the line.
proof fn lemma_reads_status_line(code: nat, rest: Seq<u8>)
    requires
        100 <= code <= 999,
    ensures
        ({
            let w = status_line(code) + rest;
            let end = index_of(w, LF) as int;
            &&& end < w.len()
            &&& status_of(line_content(w.subrange(0, end))) == Some(code)
            &&& w.subrange(end + 1, w.len() as int) == rest
        }),
{
    let version = encode_utf8("HTTP/1.1 "@);
    let words = encode_utf8(reason_phrase(code));
    let first = version + digits(code) + seq![SP] + words;
    let w = status_line(code) + rest;
    reveal_strlit("HTTP/1.1 ");
    assert(printable("HTTP/1.1 "@));
    lemma_printable_bytes("HTTP/1.1 "@);
    lemma_reason_printable(code);
    lemma_printable_bytes(reason_phrase(code));
    lemma_number_of_digits(code);
    lemma_three_digits(code);
    assert(w =~= first + seq![CR, LF] + rest);
    assert(lacks(first, LF)) by {
        assert forall|j: int| 0 <= j < first.len() implies first[j] != LF by {
            if j < 9 {
                assert(first[j] == version[j]);
            } else if j < 12 {
                assert(first[j] == digits(code)[j - 9]);
            } else if j >= 13 {
                assert(first[j] == words[j - 13]);
            }
        }
    }
    lemma_first_line(first, rest);
    assert(first.subrange(0, 9) =~= version);
    assert(first.subrange(9, 12) =~= digits(code));
    assert(first[12] == SP);
}

/// The empty line ends the header block, and the body follows it.
proof fn lemma_reads_empty_line(body: Seq<u8>, acc: Map<Seq<char>, Seq<char>>)
    ensures
        header_block(seq![CR, LF] + body, acc) == Ok::<Map<Seq<char>, Seq<char>>, Error>(acc),
        after_header_block(seq![CR, LF] + body) == body,
{
    let none = Seq::<u8>::empty();
    lemma_first_line(none, body);
    assert(none + seq![CR, LF] + body =~= seq![CR, LF] + body);
}

/// The name `content-length` is in small letters and can be sent.
proof fn lemma_content_length_name()
    ensures
        ascii_lower("content-length"@) == "content-length"@,
        lacks(encode_utf8("content-length"@), LF),
        lacks(encode_utf8("content-length"@), COLON),
{
    let name = "content-length"@;
    reveal_strlit("content-length");
    assert(printable(name));
    lemma_printable_bytes(name);
    assert(ascii_lower(name) =~= name);
    assert forall|j: int| 0 <= j < encode_utf8(name).len() implies encode_utf8(name)[j]
        != COLON by {
        assert(encode_utf8(name)[j] == name[j] as u8);
    }
}

/// The digits of a number are UTF-8 that begins with no blank, and no line
/// feed is among them.
proof fn lemma_digits_as_text(n: nat)
    ensures
        valid_utf8(digits(n)),
        encode_utf8(decode_utf8(digits(n))) == digits(n),
        skip_blank(digits(n)) == digits(n),
        lacks(digits(n), LF),
{
    lemma_number_of_digits(n);
    lemma_ascii_is_utf8(digits(n));
    decode_utf8_encode_utf8(digits(n));
    assert(48 <= digits(n)[0] <= 57);
}

/// The fields that a response is sent with: its header fields, and behind
/// them the length of its body unless they give one.
pub open spec fn sent_fields(response: Response) -> Seq<(Seq<char>, Seq<char>)> {
    if response.has_content_length() {
        response.headers.pairs()
    } else {
        response.headers.pairs().push(
            ("content-length"@, decode_utf8(digits(encode_utf8(response.body@).len()))),
        )
    }
}

/// Whether a client can read the response back: its status code has three
/// digits, its header fields can be sent as lines, and a length that they
/// give for the body is the length of the body, in decimal digits.
pub open spec fn readable(response: Response) -> bool {
    &&& response.status.wf()
    &&& response.headers.wf()
    &&& sendable(response.headers.pairs())
    &&& response.has_content_length() ==> encode_utf8(response.headers@["content-length"@])
        == digits(encode_utf8(response.body@).len())
}

proof fn lemma_sent_fields(response: Response) -> (j: int)
    requires
        readable(response),
    ensures
        response.wire() == status_line(response.status.value()) + (field_lines(
            sent_fields(response),
        ) + (seq![CR, LF] + encode_utf8(response.body@))),
        sendable(sent_fields(response)),
        distinct_names(sent_fields(response)),
        lower_names(sent_fields(response)),
        0 <= j < sent_fields(response).len(),
        sent_fields(response)[j].0 == "content-length"@,
        encode_utf8(sent_fields(response)[j].1) == digits(encode_utf8(response.body@).len()),
{
    let p = response.headers.pairs();
    let name = "content-length"@;
    let body = encode_utf8(response.body@);
    let n = body.len();
    let all = sent_fields(response);
    let w = response.wire();
    lemma_content_length_name();
    lemma_digits_as_text(n);
    if response.has_content_length() {
        let j = position(p, name);
        lemma_map_of_at(p, j);
        assert(w =~= status_line(response.status.value()) + (field_lines(all) + (seq![CR, LF]
            + body)));
        j
    } else {
        let length = decode_utf8(digits(n));
        assert(all.drop_last() =~= p);
        assert(all.last() == (name, length));
        assert(field_line(name, length) == content_length_line(n));
        assert(field_lines(all) == field_lines(p) + content_length_line(n));
        assert(w =~= status_line(response.status.value()) + (field_lines(all) + (seq![CR, LF]
            + body)));
        assert forall|i: int| 0 <= i < all.len() implies {
            &&& lacks(encode_utf8((#[trigger] all[i]).0), LF)
            &&& lacks(encode_utf8(all[i].0), COLON)
            &&& lacks(encode_utf8(all[i].1), LF)
            &&& ascii_lower(all[i].0) == all[i].0
        } by {
            if i < p.len() {
                assert(all[i] == p[i]);
            }
        }
        assert forall|a: int, b: int| 0 <= a < b < all.len() implies (#[trigger] all[a]).0 != (
        #[trigger] all[b]).0 by {
            assert(all[a] == p[a]);
            if b < p.len() {
                assert(all[b] == p[b]);
            } else {
                assert(!has_name(p, name));
                assert(p[a].0 != name);
            }
        }
        p.len() as int
    }
}

/// A response that is sent is read back: from the bytes of a readable
/// response, a client reads the status code and the body that the response
/// holds.
pub proof fn lemma_response_is_read_back(response: Response)
    requires
        readable(response),
    ensures
        reading(response.wire()) == Some((response.status.value(), encode_utf8(response.body@))),
{
    let code = response.status.value();
    let body = encode_utf8(response.body@);
    let n = body.len();
    let all = sent_fields(response);
    let tail = seq![CR, LF] + body;
    let rest = field_lines(all) + tail;
    let none = Map::<Seq<char>, Seq<char>>::empty();
    let headers = received(none, all);
    let j = lemma_sent_fields(response);
    lemma_reads_status_line(code, rest);
    lemma_reads_field_lines(all, tail, none);
    lemma_reads_empty_line(body, headers);
    lemma_received_at(none, all, j);
    lemma_digits_as_text(n);
    lemma_number_of_digits(n);
    assert(encode_utf8(headers["content-length"@]) == digits(n));
    assert(body.subrange(0, n as int) =~= body);
}

} // verus!

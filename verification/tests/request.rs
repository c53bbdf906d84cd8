use urst::{Error, Method, Request, Version};

fn text(value: Option<&String>) -> Option<&str> {
    value.map(|s| s.as_str())
}

fn read(bytes: &[u8]) -> Request {
    match Request::new(bytes) {
        Ok(request) => request,
        Err(e) => panic!("{:?}", e),
    }
}

fn refused(bytes: &[u8]) -> Error {
    match Request::new(bytes) {
        Ok(_) => panic!("the bytes were read as a request"),
        Err(e) => e,
    }
}

#[test]
fn reads_a_request_with_query_and_header() {
    let request = read(b"GET /a?x=1&y=2 HTTP/1.1\r\nHost: h\r\n\r\n");
    assert_eq!(request.method, Method::GET);
    assert_eq!(request.uri, "/a");
    assert_eq!(request.version, Version::HTTP1_1);
    assert_eq!(request.query_params.len(), 2);
    assert_eq!(text(request.query_params.get("x")), Some("1"));
    assert_eq!(text(request.query_params.get("y")), Some("2"));
    assert_eq!(request.headers.len(), 1);
    assert_eq!(text(request.headers.get("Host")), Some("h"));
    assert!(request.path_params.is_empty());
}

#[test]
fn two_tokens_are_a_malformed_request_line() {
    assert_eq!(refused(b"GET /a\r\n\r\n"), Error::MalformedRequestLine);
}

#[test]
fn one_token_is_a_malformed_request_line() {
    assert_eq!(refused(b"GET\r\n\r\n"), Error::MalformedRequestLine);
    assert_eq!(refused(b"\r\n\r\n"), Error::MalformedRequestLine);
    assert_eq!(refused(b"\n"), Error::MalformedRequestLine);
}

#[test]
fn unknown_method_is_refused() {
    assert_eq!(refused(b"FOO / HTTP/1.1\r\n\r\n"), Error::UnknownMethod);
}

#[test]
fn method_names_are_in_capital_letters() {
    assert_eq!(refused(b"get / HTTP/1.1\r\n\r\n"), Error::UnknownMethod);
    assert_eq!(refused(b" / HTTP/1.1\r\n\r\n"), Error::UnknownMethod);
    assert_eq!(refused(b"GETS / HTTP/1.1\r\n\r\n"), Error::UnknownMethod);
}

#[test]
fn every_known_method_is_read() {
    assert_eq!(read(b"GET / HTTP/1.1\r\n\r\n").method, Method::GET);
    assert_eq!(read(b"POST / HTTP/1.1\r\n\r\n").method, Method::POST);
    assert_eq!(read(b"PUT / HTTP/1.1\r\n\r\n").method, Method::PUT);
    assert_eq!(read(b"PATCH / HTTP/1.1\r\n\r\n").method, Method::PATCH);
    assert_eq!(read(b"OPTIONS / HTTP/1.1\r\n\r\n").method, Method::OPTIONS);
    assert_eq!(read(b"DELETE / HTTP/1.1\r\n\r\n").method, Method::DELETE);
}

#[test]
fn other_versions_are_refused() {
    assert_eq!(refused(b"GET / HTTP/1.0\r\n\r\n"), Error::UnsupportedVersion);
    assert_eq!(refused(b"GET / http/1.1\r\n\r\n"), Error::UnsupportedVersion);
    assert_eq!(refused(b"GET / \r\n\r\n"), Error::UnsupportedVersion);
}

#[test]
fn what_follows_the_second_space_is_the_version() {
    assert_eq!(refused(b"GET / HTTP/1.1 x\r\n\r\n"), Error::UnsupportedVersion);
    assert_eq!(refused(b"GET /a b HTTP/1.1\r\n\r\n"), Error::UnsupportedVersion);
}

#[test]
fn an_empty_target_is_an_empty_path() {
    let request = read(b"GET  HTTP/1.1\r\n\r\n");
    assert_eq!(request.uri, "");
    assert!(request.query_params.is_empty());
}

#[test]
fn header_without_colon_is_malformed() {
    assert_eq!(refused(b"GET / HTTP/1.1\r\nHost h\r\n\r\n"), Error::MalformedHeader);
}

#[test]
fn a_line_of_one_carriage_return_is_no_empty_line() {
    assert_eq!(refused(b"GET / HTTP/1.1\r\n\r\r\n\r\n"), Error::MalformedHeader);
}

#[test]
fn empty_header_block_is_complete() {
    let request = read(b"GET / HTTP/1.1\r\n\r\n");
    assert_eq!(request.uri, "/");
    assert!(request.headers.is_empty());
    assert!(request.query_params.is_empty());
    assert!(request.path_params.is_empty());
}

#[test]
fn query_group_without_equals_is_malformed() {
    assert_eq!(refused(b"GET /p?a=1&b HTTP/1.1\r\n\r\n"), Error::MalformedQueryParameter);
}

#[test]
fn an_empty_query_group_is_malformed() {
    assert_eq!(refused(b"GET /p? HTTP/1.1\r\n\r\n"), Error::MalformedQueryParameter);
    assert_eq!(refused(b"GET /p?a=1& HTTP/1.1\r\n\r\n"), Error::MalformedQueryParameter);
    assert_eq!(refused(b"GET /p?a=1&&b=2 HTTP/1.1\r\n\r\n"), Error::MalformedQueryParameter);
}

#[test]
fn a_query_group_is_cut_at_its_first_equals_sign() {
    let request = read(b"GET /p?a=b=c&d=&=e&f=1?2 HTTP/1.1\r\n\r\n");
    assert_eq!(request.uri, "/p");
    assert_eq!(request.query_params.len(), 4);
    assert_eq!(text(request.query_params.get("a")), Some("b=c"));
    assert_eq!(text(request.query_params.get("d")), Some(""));
    assert_eq!(text(request.query_params.get("")), Some("e"));
    assert_eq!(text(request.query_params.get("f")), Some("1?2"));
}

#[test]
fn a_later_query_value_replaces_an_earlier() {
    let request = read(b"GET /p?a=1&b=2&a=3 HTTP/1.1\r\n\r\n");
    assert_eq!(request.query_params.len(), 2);
    assert_eq!(text(request.query_params.get("a")), Some("3"));
    assert_eq!(text(request.query_params.get("b")), Some("2"));
    assert_eq!(text(request.query_params.get("A")), None);
}

#[test]
fn path_and_query_values_are_percent_decoded() {
    let request = read(b"GET /a%20b%2Fc?x=%41%zz&k%20=%e2%82%ac&t=50%25 HTTP/1.1\r\n\r\n");
    assert_eq!(request.uri, "/a b/c");
    assert_eq!(text(request.query_params.get("x")), Some("A%zz"));
    assert_eq!(text(request.query_params.get("k%20")), Some("\u{20ac}"));
    assert_eq!(text(request.query_params.get("t")), Some("50%"));
}

#[test]
fn an_escaped_question_mark_stays_in_the_path() {
    let request = read(b"GET /a%3Fb?c=%26%3D HTTP/1.1\r\n\r\n");
    assert_eq!(request.uri, "/a?b");
    assert_eq!(request.query_params.len(), 1);
    assert_eq!(text(request.query_params.get("c")), Some("&="));
}

#[test]
fn escapes_that_make_no_text_are_an_encoding_error() {
    assert_eq!(refused(b"GET /%ff HTTP/1.1\r\n\r\n"), Error::EncodingError);
    assert_eq!(refused(b"GET /p?a=%c3 HTTP/1.1\r\n\r\n"), Error::EncodingError);
}

#[test]
fn a_line_that_is_no_text_is_an_encoding_error() {
    assert_eq!(refused(b"GET /\xff HTTP/1.1\r\n\r\n"), Error::EncodingError);
    assert_eq!(refused(b"\xff\r\n\r\n"), Error::EncodingError);
    assert_eq!(refused(b"GET / HTTP/1.1\r\nX: \xc3\x28\r\n\r\n"), Error::EncodingError);
    assert_eq!(refused(b"GET / HTTP/1.1\r\n\x80\r\n\r\n"), Error::EncodingError);
}

#[test]
fn text_beyond_ascii_is_read() {
    let request = read("GET /caf\u{e9}?n=\u{4f60} HTTP/1.1\r\nX-Name: J\u{fc}rgen\r\n\r\n".as_bytes());
    assert_eq!(request.uri, "/caf\u{e9}");
    assert_eq!(text(request.query_params.get("n")), Some("\u{4f60}"));
    assert_eq!(text(request.headers.get("x-name")), Some("J\u{fc}rgen"));
}

#[test]
fn the_first_failure_of_the_request_line_is_reported() {
    assert_eq!(refused(b"FOO /p?b HTTP/9\r\n\r\n"), Error::UnknownMethod);
    assert_eq!(refused(b"GET /p?b HTTP/9\r\n\r\n"), Error::UnsupportedVersion);
    assert_eq!(refused(b"GET /%ff?b HTTP/1.1\r\n\r\n"), Error::EncodingError);
    assert_eq!(refused(b"GET /p?b&a=%ff HTTP/1.1\r\n\r\n"), Error::MalformedQueryParameter);
    assert_eq!(refused(b"GET /p?a=%ff&b HTTP/1.1\r\n\r\n"), Error::EncodingError);
}

#[test]
fn the_request_line_is_judged_before_the_headers() {
    assert_eq!(refused(b"FOO / HTTP/1.1\r\nno colon\r\n\r\n"), Error::UnknownMethod);
    assert_eq!(refused(b"FOO / HTTP/1.1\r\n"), Error::UnknownMethod);
    assert_eq!(refused(b"GET / HTTP/1.1\r\nno colon\r\n"), Error::MalformedHeader);
}

#[test]
fn header_names_are_read_without_case() {
    let request = read(b"GET / HTTP/1.1\r\nContent-Type: text/plain\r\n\r\n");
    assert_eq!(text(request.headers.get("content-type")), Some("text/plain"));
    assert_eq!(text(request.headers.get("CONTENT-TYPE")), Some("text/plain"));
    assert_eq!(text(request.headers.get("Content-Type")), Some("text/plain"));
    assert_eq!(text(request.headers.get("content_type")), None);
    assert!(request.headers.contains("cOnTeNt-TyPe"));
}

#[test]
fn a_later_header_replaces_an_earlier() {
    let request = read(b"GET / HTTP/1.1\r\nHost: a\r\nAccept: x\r\nHOST: b\r\n\r\n");
    assert_eq!(request.headers.len(), 2);
    assert_eq!(text(request.headers.get("host")), Some("b"));
    assert_eq!(text(request.headers.get("accept")), Some("x"));
}

#[test]
fn blanks_before_a_header_value_are_dropped() {
    let request = read(b"GET / HTTP/1.1\r\nA:b\r\nC: \t  d e \r\nF:\r\nG:   \r\nH: i:j\r\n\r\n");
    assert_eq!(request.headers.len(), 5);
    assert_eq!(text(request.headers.get("a")), Some("b"));
    assert_eq!(text(request.headers.get("c")), Some("d e "));
    assert_eq!(text(request.headers.get("f")), Some(""));
    assert_eq!(text(request.headers.get("g")), Some(""));
    assert_eq!(text(request.headers.get("h")), Some("i:j"));
}

#[test]
fn a_header_name_may_be_empty() {
    let request = read(b"GET / HTTP/1.1\r\n: v\r\n\r\n");
    assert_eq!(request.headers.len(), 1);
    assert_eq!(text(request.headers.get("")), Some("v"));
}

#[test]
fn lines_that_end_in_a_bare_line_feed_lose_nothing() {
    let request = read(b"GET /ab?k=v HTTP/1.1\nHost: h\nA:b\n\n");
    assert_eq!(request.uri, "/ab");
    assert_eq!(text(request.query_params.get("k")), Some("v"));
    assert_eq!(request.headers.len(), 2);
    assert_eq!(text(request.headers.get("host")), Some("h"));
    assert_eq!(text(request.headers.get("a")), Some("b"));
}

#[test]
fn only_one_carriage_return_belongs_to_the_line_end() {
    let request = read(b"GET / HTTP/1.1\r\nA: b\r\r\n\r\n");
    assert_eq!(text(request.headers.get("a")), Some("b\r"));
}

#[test]
fn bytes_behind_the_header_block_are_not_read() {
    let request = read(b"POST /submit HTTP/1.1\r\nContent-Length: 4\r\n\r\nbody\xff\n\n");
    assert_eq!(request.method, Method::POST);
    assert_eq!(request.uri, "/submit");
    assert_eq!(text(request.headers.get("content-length")), Some("4"));
}

#[test]
fn close_within_a_header_line_is_an_io_error() {
    assert_eq!(refused(b"GET / HTTP/1.1\r\nHost: exam"), Error::IOError);
}

#[test]
fn close_before_the_empty_line_is_an_io_error() {
    assert_eq!(refused(b""), Error::IOError);
    assert_eq!(refused(b"GET / HTTP/1.1"), Error::IOError);
    assert_eq!(refused(b"GET / HTTP/1.1\r\n"), Error::IOError);
    assert_eq!(refused(b"GET / HTTP/1.1\r\nHost: h\r\n"), Error::IOError);
    assert_eq!(refused(b"GET / HTTP/1.1\r\nHost: h\r\n\r"), Error::IOError);
}

#[test]
fn reading_the_same_bytes_twice_gives_the_same_request() {
    let bytes = b"PUT /items/7?tag=a%20b&n=2 HTTP/1.1\r\nHost: example.org\r\nX-Id: 9\r\n\r\n";
    let first = read(bytes);
    let second = read(bytes);
    assert_eq!(first.method, second.method);
    assert_eq!(first.uri, second.uri);
    assert_eq!(first.version, second.version);
    assert_eq!(first.headers.len(), second.headers.len());
    assert_eq!(first.query_params.len(), second.query_params.len());
    assert_eq!(first.path_params.len(), second.path_params.len());
    let mut i = 0;
    while i < first.headers.len() {
        assert_eq!(first.headers.entry(i), second.headers.entry(i));
        i += 1;
    }
    let mut j = 0;
    while j < first.query_params.len() {
        assert_eq!(first.query_params.entry(j), second.query_params.entry(j));
        j += 1;
    }
    assert_eq!(first.uri, "/items/7");
    assert_eq!(text(first.query_params.get("tag")), Some("a b"));
    assert_eq!(refused(b"GET /a"), refused(b"GET /a"));
}

#[test]
fn method_from_reads_names() {
    assert_eq!(Method::from("GET"), Ok(Method::GET));
    assert_eq!(Method::from("POST"), Ok(Method::POST));
    assert_eq!(Method::from("PUT"), Ok(Method::PUT));
    assert_eq!(Method::from("PATCH"), Ok(Method::PATCH));
    assert_eq!(Method::from("OPTIONS"), Ok(Method::OPTIONS));
    assert_eq!(Method::from("DELETE"), Ok(Method::DELETE));
    assert_eq!(Method::from("OPTION"), Err(Error::UnknownMethod));
    assert_eq!(Method::from("Get"), Err(Error::UnknownMethod));
    assert_eq!(Method::from(""), Err(Error::UnknownMethod));
    assert_eq!(Method::from("GET "), Err(Error::UnknownMethod));
}

#[test]
fn method_names_read_back() {
    let all = [
        Method::GET,
        Method::POST,
        Method::PUT,
        Method::PATCH,
        Method::OPTIONS,
        Method::DELETE,
    ];
    for m in all {
        assert_eq!(Method::from(m.as_str()), Ok(m));
    }
    assert_eq!(Method::PATCH.as_str(), "PATCH");
}

#[test]
fn version_from_reads_names() {
    assert_eq!(Version::from("HTTP/1.1"), Ok(Version::HTTP1_1));
    assert_eq!(Version::from("HTTP/1.0"), Err(Error::UnsupportedVersion));
    assert_eq!(Version::from("HTTP/2"), Err(Error::UnsupportedVersion));
    assert_eq!(Version::from(""), Err(Error::UnsupportedVersion));
    assert_eq!(Version::HTTP1_1.as_str(), "HTTP/1.1");
}

#[test]
fn outside_errors_become_error_kinds() {
    let not_text = match String::from_utf8(vec![0xff]) {
        Ok(_) => panic!("0xff was read as text"),
        Err(e) => e,
    };
    assert_eq!(Error::from(not_text), Error::EncodingError);
    let broken = std::io::Error::new(std::io::ErrorKind::UnexpectedEof, "closed");
    assert_eq!(Error::from(broken), Error::IOError);
}

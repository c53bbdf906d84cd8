use urst::encoding::{decode, same_text};
use urst::lines::{content, parse_header_line, parse_query, parse_target, trim_start};
use urst::percent::{decode_component, hex_value, percent_decode_bytes};
use urst::scan::{find, same_bytes};
use urst::{Error, Params};

#[test]
fn find_gives_the_first_position_or_the_length() {
    assert_eq!(find(b"a b c", b' '), 1);
    assert_eq!(find(b" ab", b' '), 0);
    assert_eq!(find(b"abc", b' '), 3);
    assert_eq!(find(b"", b' '), 0);
    assert_eq!(find(b"ab?cd?", b'?'), 2);
}

#[test]
fn same_bytes_compares_length_and_content() {
    assert!(same_bytes(b"", b""));
    assert!(same_bytes(b"abc", b"abc"));
    assert!(!same_bytes(b"abc", b"abd"));
    assert!(!same_bytes(b"abc", b"ab"));
    assert!(!same_bytes(b"", b"a"));
}

#[test]
fn same_text_compares_characters() {
    assert!(same_text("", ""));
    assert!(same_text("h\u{e9}", "h\u{e9}"));
    assert!(!same_text("h\u{e9}", "he"));
    assert!(!same_text("GET", "get"));
}

#[test]
fn decode_reads_utf8_and_nothing_else() {
    assert_eq!(decode(b"abc"), Ok("abc".to_string()));
    assert_eq!(decode(b""), Ok(String::new()));
    assert_eq!(decode(&[0xe2, 0x82, 0xac]), Ok("\u{20ac}".to_string()));
    assert_eq!(decode(&[0xf0, 0x9f, 0x98, 0x80]), Ok("\u{1f600}".to_string()));
    assert_eq!(decode(&[0xe2, 0x82]), Err(Error::EncodingError));
    assert_eq!(decode(&[0xc0, 0x80]), Err(Error::EncodingError));
    assert_eq!(decode(&[0xed, 0xa0, 0x80]), Err(Error::EncodingError));
    assert_eq!(decode(&[0xf4, 0x90, 0x80, 0x80]), Err(Error::EncodingError));
    assert_eq!(decode(&[0x80]), Err(Error::EncodingError));
}

#[test]
fn hex_value_reads_digits_of_either_case() {
    assert_eq!(hex_value(b'0'), Some(0));
    assert_eq!(hex_value(b'9'), Some(9));
    assert_eq!(hex_value(b'a'), Some(10));
    assert_eq!(hex_value(b'f'), Some(15));
    assert_eq!(hex_value(b'A'), Some(10));
    assert_eq!(hex_value(b'F'), Some(15));
    assert_eq!(hex_value(b'g'), None);
    assert_eq!(hex_value(b'G'), None);
    assert_eq!(hex_value(b'/'), None);
    assert_eq!(hex_value(b':'), None);
    assert_eq!(hex_value(b'@'), None);
    assert_eq!(hex_value(b'`'), None);
    assert_eq!(hex_value(b'%'), None);
}

#[test]
fn percent_decoding_resolves_escapes() {
    assert_eq!(percent_decode_bytes(b""), b"".to_vec());
    assert_eq!(percent_decode_bytes(b"abc"), b"abc".to_vec());
    assert_eq!(percent_decode_bytes(b"a%20b"), b"a b".to_vec());
    assert_eq!(percent_decode_bytes(b"%41%42%43"), b"ABC".to_vec());
    assert_eq!(percent_decode_bytes(b"%fF%00"), vec![0xff, 0x00]);
    assert_eq!(percent_decode_bytes(b"%2541"), b"%41".to_vec());
    assert_eq!(percent_decode_bytes(b"a+b"), b"a+b".to_vec());
}

#[test]
fn a_percent_sign_without_two_digits_stands_for_itself() {
    assert_eq!(percent_decode_bytes(b"%"), b"%".to_vec());
    assert_eq!(percent_decode_bytes(b"%4"), b"%4".to_vec());
    assert_eq!(percent_decode_bytes(b"%4g"), b"%4g".to_vec());
    assert_eq!(percent_decode_bytes(b"%g4"), b"%g4".to_vec());
    assert_eq!(percent_decode_bytes(b"100%"), b"100%".to_vec());
    assert_eq!(percent_decode_bytes(b"%%41"), b"%A".to_vec());
    assert_eq!(percent_decode_bytes(b"%4%41"), b"%4A".to_vec());
}

#[test]
fn a_component_is_text_after_decoding() {
    assert_eq!(decode_component(b"a%20b"), Ok("a b".to_string()));
    assert_eq!(decode_component(b"%e2%82%ac"), Ok("\u{20ac}".to_string()));
    assert_eq!(decode_component(b"%e2%82"), Err(Error::EncodingError));
    assert_eq!(decode_component(&[0xff]), Err(Error::EncodingError));
}

#[test]
fn content_drops_one_carriage_return_at_the_end() {
    assert_eq!(content(b"abc\r"), b"abc");
    assert_eq!(content(b"abc"), b"abc");
    assert_eq!(content(b"\r"), b"");
    assert_eq!(content(b""), b"");
    assert_eq!(content(b"a\r\r"), b"a\r");
    assert_eq!(content(b"\ra"), b"\ra");
}

#[test]
fn trim_start_drops_spaces_and_tabs() {
    assert_eq!(trim_start(b"  \t a b "), b"a b ");
    assert_eq!(trim_start(b"a"), b"a");
    assert_eq!(trim_start(b" \t "), b"");
    assert_eq!(trim_start(b""), b"");
    assert_eq!(trim_start(b"\r a"), b"\r a");
    assert_eq!(trim_start(b"\n a"), b"\n a");
}

#[test]
fn a_target_is_a_path_and_a_query() {
    let (uri, params) = match parse_target(b"/a/b?x=1&y=") {
        Ok(t) => t,
        Err(e) => panic!("{:?}", e),
    };
    assert_eq!(uri, "/a/b");
    assert_eq!(params.len(), 2);
    assert_eq!(params.get("x").map(|s| s.as_str()), Some("1"));
    assert_eq!(params.get("y").map(|s| s.as_str()), Some(""));
    let (uri, params) = match parse_target(b"*") {
        Ok(t) => t,
        Err(e) => panic!("{:?}", e),
    };
    assert_eq!(uri, "*");
    assert!(params.is_empty());
    assert_eq!(parse_target(b"/a?").err(), Some(Error::MalformedQueryParameter));
    assert_eq!(parse_target(b"/a?\xff=1").err(), Some(Error::EncodingError));
    assert_eq!(parse_target(b"/\xff").err(), Some(Error::EncodingError));
}

#[test]
fn a_query_adds_to_the_parameters_it_is_given() {
    let mut params = Params::new();
    params.insert("a".to_string(), "0".to_string());
    params.insert("z".to_string(), "9".to_string());
    assert_eq!(parse_query(b"a=1&b=2", &mut params), Ok(()));
    assert_eq!(params.len(), 3);
    assert_eq!(params.get("a").map(|s| s.as_str()), Some("1"));
    assert_eq!(params.get("b").map(|s| s.as_str()), Some("2"));
    assert_eq!(params.get("z").map(|s| s.as_str()), Some("9"));
    assert_eq!(parse_query(b"c=3&d", &mut params), Err(Error::MalformedQueryParameter));
}

#[test]
fn a_header_line_is_a_name_and_a_value() {
    assert_eq!(parse_header_line(b"Host: h"), Ok(("Host".to_string(), "h".to_string())));
    assert_eq!(parse_header_line(b"a:b:c"), Ok(("a".to_string(), "b:c".to_string())));
    assert_eq!(parse_header_line(b" a : b"), Ok((" a ".to_string(), "b".to_string())));
    assert_eq!(parse_header_line(b":"), Ok((String::new(), String::new())));
    assert_eq!(parse_header_line(b"Host"), Err(Error::MalformedHeader));
    assert_eq!(parse_header_line(b""), Err(Error::MalformedHeader));
    assert_eq!(parse_header_line(b"a: \xff"), Err(Error::EncodingError));
    assert_eq!(parse_header_line(b"\xff"), Err(Error::EncodingError));
}

use rymo::error::Error;
use rymo::http::request::{HeaderScan, Request};

fn parse(bytes: &[u8]) -> Result<Request, Error> {
    Request::parse_from_bytes(bytes.to_vec())
}

#[test]
fn parse_simple_request() {
    let req = parse(b"GET /v1/ HTTP/1.1\r\nUser-Agent: ua\r\n\r\n").unwrap();
    assert_eq!(req.method, "GET");
    assert_eq!(req.path, "/v1/");
    assert_eq!(req.version, "HTTP/1.1");
    assert_eq!(req.headers.get("user-agent").unwrap(), "ua");
    assert!(req.body.is_empty());
}

#[test]
fn parse_lowercases_header_names_only() {
    let req = parse(b"GET / HTTP/1.1\r\nX-Custom-Header: MixedCase Value\r\n\r\n").unwrap();
    assert_eq!(req.headers.get("x-custom-header").unwrap(), "MixedCase Value");
    assert!(req.headers.get("X-Custom-Header").is_none());
}

#[test]
fn parse_duplicate_header_keeps_first() {
    let req = parse(b"GET / HTTP/1.1\r\nA: 1\r\nA: 2\r\n\r\n").unwrap();
    assert_eq!(req.headers.get("a").unwrap(), "1");
}

#[test]
fn parse_header_value_split_at_first_separator() {
    let req = parse(b"GET / HTTP/1.1\r\nHost: a: b\r\n\r\n").unwrap();
    assert_eq!(req.headers.get("host").unwrap(), "a: b");
}

#[test]
fn parse_malformed_request_line_is_bad_request() {
    let err = parse(b"BADLINE\r\n\r\n").unwrap_err();
    assert!(matches!(err, Error::BadRequest(_)));
}

#[test]
fn parse_two_token_request_line_is_bad_request() {
    let err = parse(b"GET /only\r\n\r\n").unwrap_err();
    assert!(matches!(err, Error::BadRequest(_)));
}

#[test]
fn parse_four_token_request_line_is_bad_request() {
    let err = parse(b"GET / HTTP/1.1 extra\r\n\r\n").unwrap_err();
    assert!(matches!(err, Error::BadRequest(_)));
}

#[test]
fn parse_header_without_separator_is_bad_request() {
    let err = parse(b"GET / HTTP/1.1\r\nNoSeparator\r\n\r\n").unwrap_err();
    assert!(matches!(err, Error::BadRequest(_)));
}

#[test]
fn parse_non_utf8_is_bad_request() {
    let err = parse(b"GET / HTTP/1.1\r\nA: \xff\xfe\r\n\r\n").unwrap_err();
    assert!(matches!(err, Error::BadRequest(_)));
}

#[test]
fn parse_empty_input_is_empty_request() {
    let req = parse(b"").unwrap();
    assert_eq!(req.method, "");
    assert_eq!(req.path, "");
    assert_eq!(req.version, "");
}

#[test]
fn parse_decodes_multibyte_utf8() {
    let req = parse("G\u{c9}T /caf\u{e9} HTTP/1.1\r\n\u{c4}b: v\u{e4}l\r\n\r\n".as_bytes())
        .unwrap();
    assert_eq!(req.method, "G\u{c9}T");
    assert_eq!(req.path, "/caf\u{e9}");
    assert_eq!(req.headers.get("\u{c4}b").unwrap(), "v\u{e4}l");
}

#[test]
fn content_length_round_trip() {
    let mut req = parse(b"POST / HTTP/1.1\r\ncontent-length: 5\r\n\r\n").unwrap();
    assert_eq!(req.content_length().unwrap(), Some(5));
    req.attach_body(b"hello".to_vec());
    assert_eq!(req.body, b"hello".to_vec());
}

#[test]
fn content_length_absent_means_no_body() {
    let req = parse(b"GET / HTTP/1.1\r\n\r\n").unwrap();
    assert_eq!(req.content_length().unwrap(), None);
}

#[test]
fn content_length_malformed_is_bad_request() {
    let req = parse(b"POST / HTTP/1.1\r\ncontent-length: abc\r\n\r\n").unwrap();
    assert!(matches!(req.content_length(), Err(Error::BadRequest(_))));
}

#[test]
fn content_length_too_large_is_bad_request() {
    let req = parse(b"POST / HTTP/1.1\r\ncontent-length: 99999999999999999999999999\r\n\r\n")
        .unwrap();
    assert!(matches!(req.content_length(), Err(Error::BadRequest(_))));
}

#[test]
fn header_scan_stops_at_first_terminator() {
    let mut scan = HeaderScan::new();
    let wire = b"GET / HTTP/1.1\r\n\r\nBODY\r\n\r\n";
    let mut consumed = Vec::new();
    for &b in wire.iter() {
        consumed.push(b);
        if scan.push_byte(b) {
            break;
        }
    }
    assert_eq!(consumed, b"GET / HTTP/1.1\r\n\r\n".to_vec());
    assert!(scan.is_done());
    assert_eq!(scan.into_bytes(), b"GET / HTTP/1.1\r\n\r\n".to_vec());
}

#[test]
fn header_scan_without_terminator_keeps_everything() {
    let mut scan = HeaderScan::new();
    for &b in b"GET / HT".iter() {
        assert!(!scan.push_byte(b));
    }
    assert!(!scan.is_done());
    assert_eq!(scan.into_bytes(), b"GET / HT".to_vec());
}

#[test]
fn default_request_is_empty() {
    let req = Request::default();
    assert_eq!(req.method, "");
    assert_eq!(req.path, "");
    assert_eq!(req.version, "");
    assert_eq!(req.headers.len(), 0);
    assert!(req.body.is_empty());
}

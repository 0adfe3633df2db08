use rustdiscordbot::http::{HttpParser, ParseError};

const RESPONSE: &[u8] = b"HTTP/1.1 200 OK\r\nContent-Length: 5\r\n\r\nhello";

#[test]
fn status_line_round_trip() {
    let mut p = HttpParser::init(true);
    p.parse(RESPONSE).unwrap();
    assert!(!p.should_continue());
    let parsed = p.finalize();
    assert_eq!(parsed.code, Some(200));
    assert_eq!(parsed.msg.as_deref(), Some(b"OK".as_slice()));
    assert_eq!(
        parsed.headers.get(b"content-length").map(|v| v.as_slice()),
        Some(b"5".as_slice())
    );
    assert_eq!(parsed.body.as_deref(), Some(b"hello".as_slice()));
}

#[test]
fn fragmentation_one_byte_at_a_time() {
    let mut p = HttpParser::init(true);
    for b in RESPONSE {
        p.parse(std::slice::from_ref(b)).unwrap();
    }
    assert!(!p.should_continue());
    let parsed = p.finalize();
    assert_eq!(parsed.code, Some(200));
    assert_eq!(parsed.msg.as_deref(), Some(b"OK".as_slice()));
    assert_eq!(
        parsed.headers.get(b"content-length").map(|v| v.as_slice()),
        Some(b"5".as_slice())
    );
    assert_eq!(parsed.body.as_deref(), Some(b"hello".as_slice()));
}

#[test]
fn fragmentation_every_split_point() {
    for cut in 0..=RESPONSE.len() {
        let mut p = HttpParser::init(true);
        p.parse(&RESPONSE[..cut]).unwrap();
        p.parse(&RESPONSE[cut..]).unwrap();
        assert!(!p.should_continue());
        let parsed = p.finalize();
        assert_eq!(parsed.code, Some(200));
        assert_eq!(parsed.msg.as_deref(), Some(b"OK".as_slice()));
        assert_eq!(parsed.body.as_deref(), Some(b"hello".as_slice()));
    }
}

#[test]
fn missing_length_fatal() {
    let mut p = HttpParser::init(true);
    let r = p.parse(b"HTTP/1.1 200 OK\r\nX-Header: y\r\n\r\n");
    assert_eq!(r, Err(ParseError::MissingContentLength));
    assert!(!p.should_continue());
    let parsed = p.finalize();
    assert!(parsed.body.is_none());
}

#[test]
fn bad_header_line_fatal() {
    let mut p = HttpParser::init(true);
    let r = p.parse(b"HTTP/1.1 200 OK\r\ngarbage\r\n");
    assert_eq!(r, Err(ParseError::BadHeader));
    assert!(!p.should_continue());
}

#[test]
fn duplicate_header_overwrites() {
    let mut p = HttpParser::init(false);
    p.parse(b"HTTP/1.1 200 OK\r\nX: a\r\nX: b\r\n\r\n").unwrap();
    let parsed = p.finalize();
    assert_eq!(parsed.headers.get(b"x").map(|v| v.as_slice()), Some(b"b".as_slice()));
}

#[test]
fn non_digit_status_code_fatal() {
    let mut p = HttpParser::init(true);
    let r = p.parse(b"HTTP/1.1 2AB ");
    assert_eq!(r, Err(ParseError::BadStatusDigit));
    assert!(!p.should_continue());
}

#[test]
fn terminal_failure_is_idempotent() {
    let mut p = HttpParser::init(true);
    let r = p.parse(b"HTTP/1.1 200 OK\r\ngarbage\r\n");
    assert_eq!(r, Err(ParseError::BadHeader));
    let r2 = p.parse(b"Content-Length: 5\r\n\r\nhello");
    assert_eq!(r2, Err(ParseError::BadHeader));
    let parsed = p.finalize();
    assert_eq!(parsed.code, Some(200));
    assert_eq!(parsed.msg.as_deref(), Some(b"OK".as_slice()));
    assert!(parsed.headers.get(b"content-length").is_none());
    assert!(parsed.body.is_none());
}

#[test]
fn headers_only_mode_stops_at_blank_line() {
    let mut p = HttpParser::init(false);
    p.parse(b"HTTP/1.1 101 Switching Protocols\r\nUpgrade: websocket\r\n").unwrap();
    assert!(p.should_continue());
    p.parse(b"\r\nwould-be body bytes").unwrap();
    assert!(!p.should_continue());
    let parsed = p.finalize();
    assert_eq!(parsed.code, Some(101));
    assert!(parsed.body.is_none());
}

#[test]
fn eof_is_fatal() {
    let mut p = HttpParser::init(true);
    p.parse(b"HTTP/1.1 200 OK\r\n").unwrap();
    assert!(p.should_continue());
    let r = p.eof();
    assert_eq!(r, Err(ParseError::UnexpectedEof));
    assert!(!p.should_continue());
    let r2 = p.parse(b"Content-Length: 5\r\n\r\nhello");
    assert_eq!(r2, Err(ParseError::UnexpectedEof));
}

#[test]
fn eof_keeps_earlier_failure() {
    let mut p = HttpParser::init(true);
    let r = p.parse(b"HTTP/1.1 200 OK\r\ngarbage\r\n");
    assert_eq!(r, Err(ParseError::BadHeader));
    let r2 = p.eof();
    assert_eq!(r2, Err(ParseError::BadHeader));
}

#[test]
fn bad_literal_prefix_fatal() {
    let mut p = HttpParser::init(true);
    let r = p.parse(b"XTTP/1.1 200 OK\r\n");
    assert_eq!(r, Err(ParseError::BadLiteral));
}

#[test]
fn short_prefix_waits_for_more() {
    let mut p = HttpParser::init(true);
    // Even a mismatching start is not judged until nine bytes are buffered.
    p.parse(b"XTT").unwrap();
    assert!(p.should_continue());
    let r = p.parse(b"P/1.1 200 OK\r\n");
    assert_eq!(r, Err(ParseError::BadLiteral));
}

#[test]
fn missing_space_after_code_fatal() {
    let mut p = HttpParser::init(true);
    let r = p.parse(b"HTTP/1.1 200-OK\r\n");
    assert_eq!(r, Err(ParseError::BadLiteral));
}

#[test]
fn empty_reason_phrase() {
    let mut p = HttpParser::init(false);
    p.parse(b"HTTP/1.1 204 \r\n\r\n").unwrap();
    let parsed = p.finalize();
    assert_eq!(parsed.code, Some(204));
    assert_eq!(parsed.msg.as_deref(), Some(b"".as_slice()));
}

#[test]
fn zero_content_length_gives_empty_body() {
    let mut p = HttpParser::init(true);
    p.parse(b"HTTP/1.1 200 OK\r\nContent-Length: 0\r\n\r\n").unwrap();
    assert!(!p.should_continue());
    let parsed = p.finalize();
    assert_eq!(parsed.body.as_deref(), Some(b"".as_slice()));
}

#[test]
fn unparsable_content_length_fatal() {
    let mut p = HttpParser::init(true);
    let r = p.parse(b"HTTP/1.1 200 OK\r\nContent-Length: 5x\r\n\r\n");
    assert_eq!(r, Err(ParseError::BadContentLength));
}

#[test]
fn transfer_encoding_unsupported() {
    let mut p = HttpParser::init(true);
    let r = p.parse(b"HTTP/1.1 200 OK\r\nTransfer-Encoding: chunked\r\n\r\n");
    assert_eq!(r, Err(ParseError::UnsupportedTransferEncoding));
}

#[test]
fn header_names_are_lowercased() {
    let mut p = HttpParser::init(false);
    p.parse(b"HTTP/1.1 200 OK\r\nCONTENT-Type: text/plain\r\n\r\n").unwrap();
    let parsed = p.finalize();
    assert_eq!(
        parsed.headers.get(b"content-type").map(|v| v.as_slice()),
        Some(b"text/plain".as_slice())
    );
    assert!(parsed.headers.get(b"CONTENT-Type").is_none());
}

#[test]
fn header_value_keeps_case_and_later_separators() {
    let mut p = HttpParser::init(false);
    p.parse(b"HTTP/1.1 200 OK\r\nA: B: C\r\n\r\n").unwrap();
    let parsed = p.finalize();
    assert_eq!(parsed.headers.get(b"a").map(|v| v.as_slice()), Some(b"B: C".as_slice()));
}

#[test]
fn bytes_past_the_body_are_ignored() {
    let mut p = HttpParser::init(true);
    p.parse(b"HTTP/1.1 200 OK\r\nContent-Length: 2\r\n\r\nhiEXTRA").unwrap();
    assert!(!p.should_continue());
    let parsed = p.finalize();
    assert_eq!(parsed.body.as_deref(), Some(b"hi".as_slice()));
}

#[test]
fn body_waits_for_enough_bytes() {
    let mut p = HttpParser::init(true);
    p.parse(b"HTTP/1.1 200 OK\r\nContent-Length: 5\r\n\r\nhel").unwrap();
    assert!(p.should_continue());
    p.parse(b"lo").unwrap();
    assert!(!p.should_continue());
    let parsed = p.finalize();
    assert_eq!(parsed.body.as_deref(), Some(b"hello".as_slice()));
}

use base64::Engine;
use rustdiscordbot::headers::HeaderMap;
use rustdiscordbot::http::{HttpParsed, HttpParser};
use rustdiscordbot::websocket::{websocket_sec_key, websocket_validate_headers, WsValidateError};

fn upgrade_response(accept: &[u8]) -> HttpParsed {
    let mut headers = HeaderMap::new();
    headers.insert(b"upgrade".to_vec(), b"websocket".to_vec());
    headers.insert(b"connection".to_vec(), b"upgrade".to_vec());
    headers.insert(b"sec-websocket-accept".to_vec(), accept.to_vec());
    HttpParsed { code: Some(101), msg: Some(b"Switching Protocols".to_vec()), headers, body: None }
}

#[test]
fn validate_accepts_a_good_response() {
    let parsed = upgrade_response(b"ACCEPT");
    assert_eq!(websocket_validate_headers(b"ACCEPT", &parsed), Ok(()));
}

#[test]
fn validate_accepts_a_parsed_upgrade_response() {
    let mut p = HttpParser::init(false);
    p.parse(
        b"HTTP/1.1 101 Switching Protocols\r\nUpgrade: websocket\r\nConnection: upgrade\r\nSec-WebSocket-Accept: k\r\n\r\n",
    )
    .unwrap();
    assert!(!p.should_continue());
    let parsed = p.finalize();
    assert_eq!(websocket_validate_headers(b"k", &parsed), Ok(()));
}

#[test]
fn validate_rejects_missing_code() {
    let mut parsed = upgrade_response(b"k");
    parsed.code = None;
    assert_eq!(websocket_validate_headers(b"k", &parsed), Err(WsValidateError::MissingCode));
}

#[test]
fn validate_rejects_wrong_code() {
    let mut parsed = upgrade_response(b"k");
    parsed.code = Some(200);
    assert_eq!(websocket_validate_headers(b"k", &parsed), Err(WsValidateError::WrongCode));
}

#[test]
fn validate_rejects_missing_upgrade() {
    let mut headers = HeaderMap::new();
    headers.insert(b"connection".to_vec(), b"upgrade".to_vec());
    headers.insert(b"sec-websocket-accept".to_vec(), b"k".to_vec());
    let parsed = HttpParsed { code: Some(101), msg: None, headers, body: None };
    assert_eq!(websocket_validate_headers(b"k", &parsed), Err(WsValidateError::MissingUpgrade));
}

#[test]
fn validate_rejects_wrong_upgrade() {
    let mut parsed = upgrade_response(b"k");
    parsed.headers.insert(b"upgrade".to_vec(), b"other".to_vec());
    assert_eq!(websocket_validate_headers(b"k", &parsed), Err(WsValidateError::WrongUpgrade));
}

#[test]
fn validate_rejects_wrong_connection() {
    let mut parsed = upgrade_response(b"k");
    parsed.headers.insert(b"connection".to_vec(), b"close".to_vec());
    assert_eq!(websocket_validate_headers(b"k", &parsed), Err(WsValidateError::WrongConnection));
}

#[test]
fn validate_rejects_wrong_accept() {
    let parsed = upgrade_response(b"other");
    assert_eq!(websocket_validate_headers(b"k", &parsed), Err(WsValidateError::WrongAccept));
}

#[test]
fn validate_rejects_unexpected_extensions() {
    let mut parsed = upgrade_response(b"k");
    parsed.headers.insert(b"sec-websocket-extensions".to_vec(), b"permessage-deflate".to_vec());
    assert_eq!(
        websocket_validate_headers(b"k", &parsed),
        Err(WsValidateError::UnexpectedExtensions)
    );
}

#[test]
fn validate_rejects_unexpected_protocol() {
    let mut parsed = upgrade_response(b"k");
    parsed.headers.insert(b"sec-websocket-protocol".to_vec(), b"chat".to_vec());
    assert_eq!(websocket_validate_headers(b"k", &parsed), Err(WsValidateError::UnexpectedProtocol));
}

#[test]
fn sec_key_accept_matches_recomputation() {
    let key = websocket_sec_key();
    // The key is the padded base64 encoding of a two-byte nonce.
    assert_eq!(key.ws_key.len(), 4);
    let nonce = base64::prelude::BASE64_STANDARD
        .decode(&key.ws_key)
        .expect("ws_key is valid base64");
    assert_eq!(nonce.len(), 2);
    // The accept value is base64(sha1(key + fixed GUID)).
    let mut concat = key.ws_key.clone();
    concat.extend_from_slice(b"258EAFA5-E914-47DA-95CA-C5AB0DC85B11");
    let digest = openssl::sha::sha1(&concat);
    let expected = base64::prelude::BASE64_STANDARD.encode(digest);
    assert_eq!(key.ws_accept, expected.into_bytes());
}

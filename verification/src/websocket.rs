//! WebSocket handshake pieces: generating the client key with its expected
//! accept value, and validating an upgrade response.

use vstd::prelude::*;

use base64::Engine;
use rand::Rng;

use crate::bytes::{bytes_eq, copy_range};
use crate::http::HttpParsed;
use crate::http::ParsedModel;

verus! {

/// The bytes of the fixed WebSocket handshake GUID
/// `"258EAFA5-E914-47DA-95CA-C5AB0DC85B11"`.
pub open spec fn ws_guid() -> Seq<u8> {
    seq![
        50u8, 53, 56, 69, 65, 70, 65, 53, 45, 69, 57, 49, 52, 45, 52, 55, 68, 65, 45, 57, 53, 67,
        65, 45, 67, 53, 65, 66, 48, 68, 67, 56, 53, 66, 49, 49,
    ]
}

/// The bytes of the normalized header name (and value) `"upgrade"`.
pub open spec fn upgrade_name() -> Seq<u8> {
    seq![117u8, 112, 103, 114, 97, 100, 101]
}

/// The bytes of `"websocket"`.
pub open spec fn websocket_value() -> Seq<u8> {
    seq![119u8, 101, 98, 115, 111, 99, 107, 101, 116]
}

/// The bytes of the normalized header name `"connection"`.
pub open spec fn connection_name() -> Seq<u8> {
    seq![99u8, 111, 110, 110, 101, 99, 116, 105, 111, 110]
}

/// The bytes of the normalized header name `"sec-websocket-accept"`.
pub open spec fn accept_name() -> Seq<u8> {
    seq![
        115u8, 101, 99, 45, 119, 101, 98, 115, 111, 99, 107, 101, 116, 45, 97, 99, 99, 101, 112,
        116,
    ]
}

/// The bytes of the normalized header name `"sec-websocket-extensions"`.
pub open spec fn extensions_name() -> Seq<u8> {
    seq![
        115u8, 101, 99, 45, 119, 101, 98, 115, 111, 99, 107, 101, 116, 45, 101, 120, 116, 101,
        110, 115, 105, 111, 110, 115,
    ]
}

/// The bytes of the normalized header name `"sec-websocket-protocol"`.
pub open spec fn protocol_name() -> Seq<u8> {
    seq![
        115u8, 101, 99, 45, 119, 101, 98, 115, 111, 99, 107, 101, 116, 45, 112, 114, 111, 116,
        111, 99, 111, 108,
    ]
}

/// The standard, padded base64 encoding of `s`.
pub uninterp spec fn base64_of(s: Seq<u8>) -> Seq<u8>;

/// The SHA-1 digest of `s`.
pub uninterp spec fn sha1_of(s: Seq<u8>) -> Seq<u8>;

/// Relies on base64's `BASE64_STANDARD.encode`: the standard-alphabet,
/// padded encoding of the input; the result depends on the input bytes
/// alone.
#[verifier::external_body]
fn base64_encode(data: &[u8]) -> (r: Vec<u8>)
    ensures
        r@ == base64_of(data@),
{
    base64::prelude::BASE64_STANDARD.encode(data).into_bytes()
}

/// Relies on openssl's `sha::sha1`: the 20-byte SHA-1 digest of the input;
/// the result depends on the input bytes alone.
#[verifier::external_body]
fn sha1_digest(data: &[u8]) -> (r: Vec<u8>)
    ensures
        r@ == sha1_of(data@),
        r@.len() == 20,
{
    openssl::sha::sha1(data).to_vec()
}

/// Relies on rand's `rng().random::<u8>()`; nothing is promised of the
/// value drawn.
#[verifier::external_body]
fn random_byte() -> u8 {
    rand::rng().random::<u8>()
}

/// A generated client handshake key with the accept value the server must
/// echo back.
pub struct WebSocketSecKey {
    pub ws_key: Vec<u8>,
    pub ws_accept: Vec<u8>,
}

/// Generate a handshake key: the base64 encoding of a fresh two-byte nonce,
/// together with the matching accept value, the base64-encoded SHA-1 digest
/// of the key followed by the fixed GUID.
pub fn websocket_sec_key() -> (r: WebSocketSecKey)
    ensures
        exists|n: Seq<u8>| n.len() == 2 && r.ws_key@ == base64_of(n),
        r.ws_accept@ == base64_of(sha1_of(r.ws_key@ + ws_guid())),
{
    let mut nonce: Vec<u8> = Vec::new();
    nonce.push(random_byte());
    nonce.push(random_byte());
    let ws_key = base64_encode(nonce.as_slice());
    proof {
        assert(nonce@.len() == 2 && ws_key@ == base64_of(nonce@));
    }
    let mut concat = copy_range(ws_key.as_slice(), 0, ws_key.len());
    proof {
        assert(concat@ =~= ws_key@);
        assert(ws_key@ + ws_guid().take(0) =~= ws_key@);
    }
    let guid = ws_guid_vec();
    let mut i: usize = 0;
    while i < guid.len()
        invariant
            i <= guid.len(),
            guid@ == ws_guid(),
            concat@ == ws_key@ + ws_guid().take(i as int),
        decreases guid.len() - i,
    {
        concat.push(guid[i]);
        proof {
            assert(concat@ =~= ws_key@ + ws_guid().take(i + 1));
        }
        i = i + 1;
    }
    proof {
        assert(concat@ =~= ws_key@ + ws_guid());
    }
    let digest = sha1_digest(concat.as_slice());
    let ws_accept = base64_encode(digest.as_slice());
    WebSocketSecKey { ws_key, ws_accept }
}

/// The bytes of the fixed handshake GUID as a vector.
fn ws_guid_vec() -> (r: Vec<u8>)
    ensures
        r@ == ws_guid(),
{
    let r: Vec<u8> = vec![
        50u8, 53, 56, 69, 65, 70, 65, 53, 45, 69, 57, 49, 52, 45, 52, 55, 68, 65, 45, 57, 53, 67,
        65, 45, 67, 53, 65, 66, 48, 68, 67, 56, 53, 66, 49, 49,
    ];
    proof {
        assert(r@ =~= ws_guid());
    }
    r
}

/// The ways validating an upgrade response can fail, in the order the
/// checks are made.
#[derive(Clone, Copy, PartialEq, Eq, Structural, Debug)]
pub enum WsValidateError {
    /// No status code was parsed.
    MissingCode,
    /// The status code is not 101.
    WrongCode,
    /// No `upgrade` header is present.
    MissingUpgrade,
    /// The `upgrade` header is not `"websocket"`.
    WrongUpgrade,
    /// No `connection` header is present.
    MissingConnection,
    /// The `connection` header is not `"upgrade"`.
    WrongConnection,
    /// No `sec-websocket-accept` header is present.
    MissingAccept,
    /// The `sec-websocket-accept` header differs from the expected value.
    WrongAccept,
    /// A `sec-websocket-extensions` header is present though none was
    /// requested.
    UnexpectedExtensions,
    /// A `sec-websocket-protocol` header is present though none was
    /// requested.
    UnexpectedProtocol,
}

/// What validating yields, check by check.
pub open spec fn spec_validate(ws_accept: Seq<u8>, p: ParsedModel) -> Result<
    (),
    WsValidateError,
> {
    if p.code is None {
        Err(WsValidateError::MissingCode)
    } else if p.code != Some(101int) {
        Err(WsValidateError::WrongCode)
    } else if !p.headers.contains_key(upgrade_name()) {
        Err(WsValidateError::MissingUpgrade)
    } else if p.headers[upgrade_name()] != websocket_value() {
        Err(WsValidateError::WrongUpgrade)
    } else if !p.headers.contains_key(connection_name()) {
        Err(WsValidateError::MissingConnection)
    } else if p.headers[connection_name()] != upgrade_name() {
        Err(WsValidateError::WrongConnection)
    } else if !p.headers.contains_key(accept_name()) {
        Err(WsValidateError::MissingAccept)
    } else if p.headers[accept_name()] != ws_accept {
        Err(WsValidateError::WrongAccept)
    } else if p.headers.contains_key(extensions_name()) {
        Err(WsValidateError::UnexpectedExtensions)
    } else if p.headers.contains_key(protocol_name()) {
        Err(WsValidateError::UnexpectedProtocol)
    } else {
        Ok(())
    }
}

/// Check a headers-only upgrade response: status 101, `upgrade` equal to
/// `"websocket"`, `connection` equal to `"upgrade"`, `sec-websocket-accept`
/// equal to `ws_accept`, and neither `sec-websocket-extensions` nor
/// `sec-websocket-protocol` present.
pub fn websocket_validate_headers(ws_accept: &[u8], parsed: &HttpParsed) -> (r: Result<
    (),
    WsValidateError,
>)
    ensures
        r == spec_validate(ws_accept@, parsed@),
{
    match parsed.code {
        None => Err(WsValidateError::MissingCode),
        Some(c) => {
            if c != 101 {
                Err(WsValidateError::WrongCode)
            } else {
                let upgrade: Vec<u8> = vec![117u8, 112, 103, 114, 97, 100, 101];
                let websocket: Vec<u8> = vec![119u8, 101, 98, 115, 111, 99, 107, 101, 116];
                proof {
                    assert(upgrade@ =~= upgrade_name());
                    assert(websocket@ =~= websocket_value());
                }
                match parsed.headers.get(upgrade.as_slice()) {
                    None => Err(WsValidateError::MissingUpgrade),
                    Some(v) => {
                        if !bytes_eq(v.as_slice(), websocket.as_slice()) {
                            Err(WsValidateError::WrongUpgrade)
                        } else {
                            let connection: Vec<u8> = vec![
                                99u8, 111, 110, 110, 101, 99, 116, 105, 111, 110,
                            ];
                            proof {
                                assert(connection@ =~= connection_name());
                            }
                            match parsed.headers.get(connection.as_slice()) {
                                None => Err(WsValidateError::MissingConnection),
                                Some(v2) => {
                                    if !bytes_eq(v2.as_slice(), upgrade.as_slice()) {
                                        Err(WsValidateError::WrongConnection)
                                    } else {
                                        let accept: Vec<u8> = vec![
                                            115u8, 101, 99, 45, 119, 101, 98, 115, 111, 99, 107,
                                            101, 116, 45, 97, 99, 99, 101, 112, 116,
                                        ];
                                        proof {
                                            assert(accept@ =~= accept_name());
                                        }
                                        match parsed.headers.get(accept.as_slice()) {
                                            None => Err(WsValidateError::MissingAccept),
                                            Some(v3) => {
                                                if !bytes_eq(v3.as_slice(), ws_accept) {
                                                    Err(WsValidateError::WrongAccept)
                                                } else {
                                                    let extensions: Vec<u8> = vec![
                                                        115u8, 101, 99, 45, 119, 101, 98, 115,
                                                        111, 99, 107, 101, 116, 45, 101, 120, 116,
                                                        101, 110, 115, 105, 111, 110, 115,
                                                    ];
                                                    let protocol: Vec<u8> = vec![
                                                        115u8, 101, 99, 45, 119, 101, 98, 115,
                                                        111, 99, 107, 101, 116, 45, 112, 114, 111,
                                                        116, 111, 99, 111, 108,
                                                    ];
                                                    proof {
                                                        assert(extensions@ =~= extensions_name());
                                                        assert(protocol@ =~= protocol_name());
                                                    }
                                                    if parsed.headers.contains(
                                                        extensions.as_slice(),
                                                    ) {
                                                        Err(WsValidateError::UnexpectedExtensions)
                                                    } else if parsed.headers.contains(
                                                        protocol.as_slice(),
                                                    ) {
                                                        Err(WsValidateError::UnexpectedProtocol)
                                                    } else {
                                                        Ok(())
                                                    }
                                                }
                                            },
                                        }
                                    }
                                }
                            }
                        }
                    },
                }
            }
        },
    }
}

} // verus!

//! An incremental HTTP/1.1 response parser, together with the small pieces
//! of WebSocket-handshake logic that consume its output.
//!
//! The parser consumes a byte stream in arbitrarily small fragments and
//! recognises the status line, the headers and an optional body as soon as
//! enough bytes have been buffered, distinguishing "need more data" from
//! "malformed input" and never re-scanning consumed bytes.

pub mod bytes;
pub mod headers;
pub mod http;
pub mod url;
pub mod websocket;

//! A verified HTTP/1.x request decoding library.
//!
//! The crate turns raw bytes, as they arrive from a socket in arbitrarily
//! sized chunks, into structured requests: a request line, a multi-valued
//! header map, a Content-Length-bounded body, and an incremental
//! multipart/form-data decoder that tolerates part delimiters straddling
//! two reads. All parsing and decoding logic is verified; the surrounding
//! socket, file and thread plumbing lives outside the library and hands it
//! plain byte slices.

use vstd::prelude::*;

pub mod bstr;
pub mod content_type;
pub mod lit;
pub mod multimap;
pub mod multipart;
pub mod request;
pub mod response;
pub mod router;

verus! {

/// Errors raised while decoding a request from the wire. Protocol errors
/// are fatal to the connection that produced them.
#[derive(Debug, Clone, Copy, PartialEq, Eq, Structural)]
pub enum ProtocolError {
    /// The peer closed the connection before sending a request line.
    Empty,
    /// No bytes arrived before the read deadline.
    NoData,
    /// The request line did not consist of exactly three tokens.
    MalformedRequestLine,
    /// The request method is not one of the eight recognized methods.
    UnsupportedMethod,
    /// The request version is not HTTP/1.0, HTTP/1.1 or HTTP/2.
    UnsupportedVersion,
    /// A multipart boundary line did not match the declared boundary.
    MalformedBoundary,
    /// A multipart part did not carry a well-formed header block.
    MalformedDisposition,
    /// A declared body size lies beyond the acceptance ceiling.
    SizeLimitExceeded,
    /// A multipart body ended before its closing delimiter was found.
    DecodeExhausted,
}

/// Server configuration: the address and port the listener binds to.
pub struct RustWeb {
    pub address: String,
    pub port: u32,
}

/// Builds the server configuration value.
pub fn build_server(address: &str, port: u32) -> (r: RustWeb)
    ensures
        r.address@ == address@,
        r.port == port,
{
    RustWeb { address: address.to_owned(), port }
}

} // verus!

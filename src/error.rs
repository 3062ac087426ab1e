use vstd::prelude::*;

verus! {

/// The ways in which taking in a request can fail.
#[derive(Debug, Clone, Copy, PartialEq, Eq, Structural)]
pub enum Error {
    /// A header name holds a byte outside the token grammar, a header line
    /// has no `:`, or the request line is not `METHOD target version`.
    ParseHeaderName,
    /// A header value, or the header block as a whole, is over its bound,
    /// or `Content-Length` is not a number.
    ParseHeaderValue,
    /// The input ended before the head or the declared body was complete.
    ConnectionClosed,
    /// The request uses a transfer coding that is not supported.
    UnsupportedEncoding,
    /// The body does not have the structure that its content type claims.
    Decode,
}

} // verus!

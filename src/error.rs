//! Why a rule could not be parsed.

use vstd::prelude::*;

verus! {

/// A reason why a source or destination location was refused.
#[derive(Debug, Clone, Copy, PartialEq, Eq, Structural)]
pub enum Error {
    /// The text before `://` is not `http`, `https` or `tcp`.
    UnknownProtocol,
    /// The host is not a valid IP address or domain name.
    InvalidHost,
    /// The digits after the last `:` of the authority do not fit in 16 bits.
    InvalidPort,
    /// A source location may only use `http` or `tcp`.
    SourceProtocol,
    /// A `tcp` source location must give a port.
    TcpSourceWithoutPort,
    /// A `tcp` source location cannot have a path.
    TcpSourceWithPath,
    /// Two captures of one source path share a name.
    DuplicateCapture,
    /// A status code is not three digits from 100 to 599.
    InvalidStatusCode,
    /// The destination's kind does not suit the source's protocol.
    ProtocolMismatch,
    /// A `tcp` destination cannot have a path.
    TcpDestWithPath,
    /// A `tcp` destination cannot have a query string.
    TcpDestWithQuery,
}

} // verus!

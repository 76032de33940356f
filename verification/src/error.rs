//! Error taxonomy shared by the codec, the framing layer and the protocol
//! client.

use vstd::prelude::*;

verus! {

/// Everything that can go wrong while decoding bytes, setting up a
/// connection, or exchanging a request/response pair.
///
/// The first four variants are codec-level decode failures: they are fatal to
/// the current decode operation and are never silently recovered.
/// `HandshakeMismatch` is raised once at connection setup. `TransportError`
/// stands for an I/O failure reported by the transport; the connection must
/// be discarded. `RemoteError` carries the peer's error text; the framing
/// completed correctly, so the connection stays usable.
#[derive(Debug, Clone)]
pub enum Error {
    /// A varint or other variable-length item ended mid-sequence, was not in
    /// canonical form, or did not fit the decoded integer's width.
    MalformedInput,
    /// The bytes of a value were not a valid encoding (for example a string
    /// payload that is not UTF-8, or an unknown option tag).
    InvalidEncoding,
    /// A sum-type tag named no declared variant.
    InvalidVariant,
    /// The stream ended before the announced number of bytes arrived.
    UnexpectedEof,
    /// The peer echoed a handshake line different from the token sent.
    HandshakeMismatch,
    /// The transport failed; the message holds the reported cause.
    TransportError(String),
    /// The peer reported an application-level failure with this message.
    RemoteError(String),
}

impl Error {
    /// True for the codec-level decode failures.
    pub open spec fn is_decode_error(self) -> bool {
        match self {
            Error::MalformedInput => true,
            Error::InvalidEncoding => true,
            Error::InvalidVariant => true,
            Error::UnexpectedEof => true,
            _ => false,
        }
    }
}

} // verus!

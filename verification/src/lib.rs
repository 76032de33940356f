//! A structural binary codec and the client side of a framed wire protocol
//! for a remote version-controlled key/tree store.
//!
//! Every value exchanged with the store has a canonical, self-describing
//! byte encoding built from a variable-length integer primitive, fixed-width
//! scalars, and composite rules for options, tuples, sequences, records and
//! tagged unions. The protocol layer wraps encoded values in length-prefixed
//! frames, performs a line-based handshake, and correlates one request with
//! one response per round trip.

pub mod commit;
pub mod config;
pub mod error;
pub mod frame;
pub mod hash;
pub mod info;
pub mod istring;
pub mod path;
pub mod varint;
pub mod be;
pub mod client;
pub mod codec;
pub mod composite;
pub mod cow;
pub mod scalars;
pub mod text;
pub mod tree;

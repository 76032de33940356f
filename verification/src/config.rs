//! The content and hash types a store can be built with. The protocol
//! identifies a session's content type by name during the handshake; a hash
//! type fixes the width of every digest on the wire.

use vstd::prelude::*;

verus! {

/// Builtin content types a store can hold.
pub enum ContentType {
    /// Arbitrary UTF-8 text, named "string" on the wire.
    Text,
    /// JSON objects, named "json".
    Json,
    /// Arbitrary JSON values, named "json-value".
    JsonValue,
}

/// The ASCII name of a content type, as the handshake spells it.
pub open spec fn content_type_name(c: ContentType) -> Seq<u8> {
    match c {
        // "string"
        ContentType::Text => seq![115u8, 116u8, 114u8, 105u8, 110u8, 103u8],
        // "json"
        ContentType::Json => seq![106u8, 115u8, 111u8, 110u8],
        // "json-value"
        ContentType::JsonValue => seq![
            106u8,
            115u8,
            111u8,
            110u8,
            45u8,
            118u8,
            97u8,
            108u8,
            117u8,
            101u8,
        ],
    }
}

impl ContentType {
    /// The name the handshake hashes, as bytes.
    pub fn name_bytes(&self) -> (r: Vec<u8>)
        ensures
            r@ == content_type_name(*self),
    {
        let mut out: Vec<u8> = Vec::new();
        match self {
            ContentType::Text => {
                out.push(115u8);
                out.push(116u8);
                out.push(114u8);
                out.push(105u8);
                out.push(110u8);
                out.push(103u8);
            },
            ContentType::Json => {
                out.push(106u8);
                out.push(115u8);
                out.push(111u8);
                out.push(110u8);
            },
            ContentType::JsonValue => {
                out.push(106u8);
                out.push(115u8);
                out.push(111u8);
                out.push(110u8);
                out.push(45u8);
                out.push(118u8);
                out.push(97u8);
                out.push(108u8);
                out.push(117u8);
                out.push(101u8);
            },
        }
        proof {
            assert(out@ =~= content_type_name(*self));
        }
        out
    }
}

/// Available hash algorithms; each fixes a digest width in bytes.
pub enum HashType {
    Blake2b,
    Blake2s,
    Rmd160,
    Sha1,
    Sha224,
    Sha256,
    Sha384,
    Sha512,
}

/// The digest width of each algorithm, in bytes.
pub open spec fn hash_width(h: HashType) -> nat {
    match h {
        HashType::Blake2b => 64,
        HashType::Blake2s => 32,
        HashType::Rmd160 => 20,
        HashType::Sha1 => 20,
        HashType::Sha224 => 28,
        HashType::Sha256 => 32,
        HashType::Sha384 => 48,
        HashType::Sha512 => 64,
    }
}

impl HashType {
    /// The digest width in bytes; a `Hash` of this width pairs with the
    /// algorithm.
    pub fn width(&self) -> (r: usize)
        ensures
            r == hash_width(*self),
    {
        match self {
            HashType::Blake2b => 64,
            HashType::Blake2s => 32,
            HashType::Rmd160 => 20,
            HashType::Sha1 => 20,
            HashType::Sha224 => 28,
            HashType::Sha256 => 32,
            HashType::Sha384 => 48,
            HashType::Sha512 => 64,
        }
    }
}

} // verus!

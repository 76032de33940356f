//! The string encoding: a varint byte length followed by the raw UTF-8
//! bytes. Decoding fails with `UnexpectedEof` on a truncated payload and
//! with `InvalidEncoding` when the payload is not valid UTF-8.

use vstd::prelude::*;
use vstd::utf8::{decode_utf8, encode_utf8, valid_utf8};

use crate::codec::{lemma_consumed_is_prefix, prefix_of, Type};
use crate::composite::{
    bytes_enc, decode_byte_payload, encode_byte_payload, lemma_bytes_enc_prefix_unique,
};
use crate::error::Error;
use crate::varint::{lemma_varint_prefix, varint_dec};

verus! {

broadcast use vstd::utf8::encode_utf8_valid_utf8, vstd::utf8::encode_utf8_decode_utf8;

/// The wire encoding of a string with the given characters.
pub open spec fn str_enc(cs: Seq<char>) -> Seq<u8> {
    bytes_enc(encode_utf8(cs))
}

/// Relies on `String::from_utf8`: it succeeds exactly on valid UTF-8 and
/// returns the string spelled by those very bytes.
#[verifier::external_body]
fn bytes_to_string(v: Vec<u8>) -> (r: Option<String>)
    ensures
        match r {
            Some(s) => encode_utf8(s@) == v@,
            None => !valid_utf8(v@),
        },
{
    String::from_utf8(v).ok()
}

impl Type for String {
    open spec fn wf(&self) -> bool {
        true
    }

    open spec fn enc(&self) -> Seq<u8> {
        str_enc(self@)
    }

    fn encode_bin(&self, dest: &mut Vec<u8>) -> (n: usize) {
        let before = dest.len();
        encode_byte_payload(self.as_str().as_bytes(), dest);
        dest.len() - before
    }

    /// Beyond the codec contract: decoding succeeds for any character
    /// sequence whose string encoding starts the stream, not only for one
    /// already held in a `String`; borrowing wrappers rely on this. On
    /// failure the error kind follows the taxonomy: a bad length varint is
    /// `MalformedInput`, a truncated payload `UnexpectedEof`, and a complete
    /// payload that is not valid UTF-8 `InvalidEncoding`.
    fn decode_bin(src: &[u8], pos: usize) -> (r: Result<(Self, usize), Error>)
        ensures
            forall|cs: Seq<char>|
                #[trigger] prefix_of(str_enc(cs), src@.skip(pos as int)) ==> match r {
                    Ok(vp) => vp.0@ == cs && vp.1 == pos + str_enc(cs).len(),
                    Err(_) => false,
                },
            r matches Err(e) ==> match varint_dec(src@.skip(pos as int)) {
                None => e matches Error::MalformedInput,
                Some(t) => {
                    if t.0 > u64::MAX {
                        e matches Error::MalformedInput
                    } else if src@.len() < pos + t.1 + t.0 {
                        e matches Error::UnexpectedEof
                    } else {
                        e matches Error::InvalidEncoding && !valid_utf8(
                            src@.subrange(pos + t.1, pos + t.1 + t.0),
                        )
                    }
                },
            },
    {
        let ghost rest = src@.skip(pos as int);
        match decode_byte_payload(src, pos) {
            Err(e) => {
                let r: Result<(String, usize), Error> = Err(e);
                proof {
                    assert forall|cs: Seq<char>| !(#[trigger] prefix_of(str_enc(cs), rest)) by {
                        if prefix_of(str_enc(cs), rest) {
                            assert(prefix_of(bytes_enc(encode_utf8(cs)), rest));
                        }
                    }
                }
                r
            },
            Ok((payload, p)) => {
                let ghost pv = payload@;
                proof {
                    lemma_consumed_is_prefix(src@, pos as int, p as int);
                    assert(prefix_of(bytes_enc(pv), rest));
                    crate::codec::lemma_prefix_split(
                        crate::varint::varint_enc(pv.len() as nat),
                        pv,
                        rest,
                    );
                    lemma_varint_prefix(pv.len() as nat, rest);
                    assert(pv =~= src@.subrange(
                        pos + crate::varint::varint_enc(pv.len() as nat).len(),
                        p as int,
                    ));
                }
                match bytes_to_string(payload) {
                    Option::Some(s) => {
                        let r: Result<(String, usize), Error> = Ok((s, p));
                        proof {
                            assert forall|cs: Seq<char>|
                                #[trigger] prefix_of(str_enc(cs), rest) implies (s@ == cs && p
                                == pos + str_enc(cs).len()) by {
                                lemma_bytes_enc_prefix_unique(
                                    encode_utf8(cs),
                                    encode_utf8(s@),
                                    rest,
                                );
                                assert(decode_utf8(encode_utf8(cs)) == cs);
                                assert(decode_utf8(encode_utf8(s@)) == s@);
                            }
                        }
                        r
                    },
                    Option::None => {
                        let r: Result<(String, usize), Error> = Err(Error::InvalidEncoding);
                        proof {
                            assert forall|cs: Seq<char>|
                                !(#[trigger] prefix_of(str_enc(cs), rest)) by {
                                if prefix_of(str_enc(cs), rest) {
                                    lemma_bytes_enc_prefix_unique(encode_utf8(cs), pv, rest);
                                    assert(valid_utf8(encode_utf8(cs)));
                                }
                            }
                        }
                        r
                    },
                }
            },
        }
    }
}

} // verus!

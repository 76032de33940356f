//! The framing layer: length-prefixed frames and the connection handshake.
//!
//! A frame is an 8-byte big-endian length followed by exactly that many
//! payload bytes. The handshake sends one newline-terminated line — the
//! lower-case hex digest of the session's content-type name — and expects
//! the peer to echo exactly the same line before any request is accepted.

use vstd::prelude::*;

use crate::be::{
    be_dec, be_enc, decode_be, encode_be, lemma_be_canonical, lemma_be_enc_len,
    lemma_be_round_trip,
    lemma_pow256_8, pow256,
};
use crate::codec::{lemma_prefix_split, lemma_skip_skip, prefix_of};
use crate::error::Error;

verus! {

/// The wire form of one frame around `payload`.
pub open spec fn frame_enc(payload: Seq<u8>) -> Seq<u8> {
    be_enc(payload.len() as nat, 8) + payload
}

/// Appends a frame around `payload` to `dest`.
pub fn encode_frame(payload: &Vec<u8>, dest: &mut Vec<u8>)
    ensures
        final(dest)@ == old(dest)@ + frame_enc(payload@),
{
    encode_be(payload.len() as u64, 8, dest);
    let mut i: usize = 0;
    let n = payload.len();
    proof {
        assert(dest@ =~= old(dest)@ + be_enc(payload@.len() as nat, 8) + payload@.take(0));
    }
    #[verifier::loop_isolation(false)]
    while i < n
        invariant
            i <= n,
            dest@ == old(dest)@ + be_enc(payload@.len() as nat, 8) + payload@.take(i as int),
        decreases n - i,
    {
        dest.push(payload[i]);
        proof {
            assert(dest@ =~= old(dest)@ + be_enc(payload@.len() as nat, 8) + payload@.take(
                i + 1,
            ));
        }
        i = i + 1;
    }
    proof {
        assert(payload@.take(n as int) =~= payload@);
        assert(dest@ =~= old(dest)@ + frame_enc(payload@));
    }
}

/// Reads one frame starting at `src[pos]`: the payload and the position just
/// past it. It succeeds exactly when a whole frame is present — the 8-byte
/// length header and the announced byte count — and fails with
/// `UnexpectedEof` otherwise.
pub fn decode_frame(src: &[u8], pos: usize) -> (r: Result<(Vec<u8>, usize), Error>)
    requires
        pos <= src@.len(),
    ensures
        match r {
            Ok(vp) => {
                &&& pos <= vp.1 <= src@.len()
                &&& frame_enc(vp.0@) == src@.subrange(pos as int, vp.1 as int)
                &&& vp.1 == pos + 8 + vp.0@.len()
            },
            Err(e) => e matches Error::UnexpectedEof,
        },
        forall|b: Seq<u8>|
            #[trigger] prefix_of(frame_enc(b), src@.skip(pos as int)) ==> match r {
                Ok(vp) => vp.0@ == b && vp.1 == pos + 8 + b.len(),
                Err(_) => false,
            },
{
    let ghost rest = src@.skip(pos as int);
    let slen = src.len();
    proof {
        assert(vstd::slice::spec_slice_len(src) == src@.len());
        lemma_pow256_8();
        assert forall|b: Seq<u8>| #[trigger] prefix_of(frame_enc(b), rest) implies {
            &&& pos + 8 + b.len() <= src@.len()
            &&& b.len() <= usize::MAX
            &&& be_dec(src@.subrange(pos as int, pos + 8)) == b.len()
            &&& b == src@.subrange(pos + 8, pos + 8 + b.len())
        } by {
            lemma_be_enc_len(b.len() as nat, 8);
            lemma_prefix_split(be_enc(b.len() as nat, 8), b, rest);
            lemma_skip_skip(src@, pos as int, 8);
            assert(be_enc(b.len() as nat, 8) =~= src@.subrange(pos as int, pos + 8));
            assert((b.len() as nat) < pow256(8));
            lemma_be_round_trip(b.len() as nat, 8);
            assert(b =~= src@.subrange(pos + 8, pos + 8 + b.len()));
        }
    }
    match decode_be(src, pos, 8) {
        Err(e) => Err(e),
        Ok((len64, p0)) => {
            if len64 > usize::MAX as u64 || slen - p0 < len64 as usize {
                return Err(Error::UnexpectedEof);
            }
            let nb = len64 as usize;
            let payload = vstd::slice::slice_to_vec(
                vstd::slice::slice_subrange(src, p0, p0 + nb),
            );
            proof {
                lemma_be_canonical(src@.subrange(pos as int, pos + 8));
                assert(frame_enc(payload@) =~= src@.subrange(pos as int, p0 + nb));
                assert forall|b: Seq<u8>|
                    #[trigger] prefix_of(frame_enc(b), rest) implies (payload@ == b && p0 + nb
                    == pos + 8 + b.len()) by {
                    assert(payload@ =~= b);
                }
            }
            Ok((payload, p0 + nb))
        },
    }
}

/// Whether two byte strings are identical.
pub fn bytes_eq(a: &[u8], b: &[u8]) -> (r: bool)
    ensures
        r == (a@ == b@),
{
    let na = a.len();
    let nb = b.len();
    if na != nb {
        proof {
            assert(a@ != b@);
        }
        return false;
    }
    let mut i: usize = 0;
    #[verifier::loop_isolation(false)]
    while i < na
        invariant
            i <= na,
            na == nb,
            forall|j: int| 0 <= j < i ==> a@[j] == b@[j],
        decreases na - i,
    {
        if a[i] != b[i] {
            proof {
                assert(a@[i as int] != b@[i as int]);
            }
            return false;
        }
        i = i + 1;
    }
    proof {
        assert(a@ =~= b@);
    }
    true
}

/// The lower-case hex digit for a value below 16, as an ASCII byte.
pub open spec fn hex_digit(n: u8) -> u8 {
    if n < 10 {
        (48 + n) as u8
    } else {
        (87 + n) as u8
    }
}

/// The lower-case hex spelling of a byte string, two digits per byte.
pub open spec fn hex_of(b: Seq<u8>) -> Seq<u8> {
    Seq::new(
        2 * b.len(),
        |i: int|
            if i % 2 == 0 {
                hex_digit(b[i / 2] / 16)
            } else {
                hex_digit((b[i / 2] % 16) as u8)
            },
    )
}

/// Writes the hex spelling of `b`.
pub fn to_hex(b: &Vec<u8>) -> (r: Vec<u8>)
    ensures
        r@ == hex_of(b@),
{
    let mut out: Vec<u8> = Vec::new();
    let mut i: usize = 0;
    let n = b.len();
    #[verifier::loop_isolation(false)]
    while i < n
        invariant
            i <= n,
            out@.len() == 2 * i,
            out@ == hex_of(b@).take(2 * i as int),
        decreases n - i,
    {
        let hi = b[i] / 16;
        let lo = b[i] % 16;
        out.push(if hi < 10 {
            48 + hi
        } else {
            87 + hi
        });
        out.push(if lo < 10 {
            48 + lo
        } else {
            87 + lo
        });
        proof {
            assert((2 * i + 1) / 2 == i && (2 * i) / 2 == i);
            assert(out@ =~= hex_of(b@).take(2 * (i + 1)));
        }
        i = i + 1;
    }
    proof {
        assert(out@ =~= hex_of(b@));
    }
    out
}

/// What the blake2b-512 digest of a byte string is. The digest depends on
/// the input bytes alone; its definition is the algorithm's.
pub uninterp spec fn blake2b512_of(data: Seq<u8>) -> Seq<u8>;

/// Relies on `blake2::Blake2b512` (through `digest::Digest::digest`): a
/// 64-byte digest that is a function of the input bytes alone.
#[verifier::external_body]
fn blake2b512(data: &[u8]) -> (r: Vec<u8>)
    ensures
        r@ == blake2b512_of(data@),
        r@.len() == 64,
{
    <blake2::Blake2b512 as blake2::Digest>::digest(data).to_vec()
}

/// The handshake line for a content type name: the hex digest of the name,
/// terminated by a newline.
pub open spec fn handshake_token_spec(name: Seq<u8>) -> Seq<u8> {
    hex_of(blake2b512_of(name)) + seq![10u8]
}

/// Builds the handshake line the client writes, and against which the
/// peer's echo is compared.
pub fn handshake_token(content_name: &Vec<u8>) -> (r: Vec<u8>)
    ensures
        r@ == handshake_token_spec(content_name@),
{
    let digest = blake2b512(content_name.as_slice());
    let mut out = to_hex(&digest);
    out.push(10u8);
    proof {
        assert(out@ =~= handshake_token_spec(content_name@));
    }
    out
}

/// Checks the peer's echoed handshake line. Setup succeeds exactly when the
/// echo is byte-identical to the token sent; any other line fails with
/// `HandshakeMismatch`, and no request may be sent on that connection.
pub fn check_handshake(token: &Vec<u8>, echoed: &Vec<u8>) -> (r: Result<(), Error>)
    ensures
        match r {
            Ok(_) => echoed@ == token@,
            Err(e) => e matches Error::HandshakeMismatch && echoed@ != token@,
        },
{
    if bytes_eq(token.as_slice(), echoed.as_slice()) {
        Ok(())
    } else {
        Err(Error::HandshakeMismatch)
    }
}

} // verus!

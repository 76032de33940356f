//! Scalar encodings: booleans and fixed-width integers at fixed big-endian
//! width, and machine-word integers as varints.

use vstd::prelude::*;

use crate::be::{
    be_dec, be_enc, decode_be, encode_be, lemma_be_canonical, lemma_be_dec_bound,
    lemma_be_enc_len, lemma_be_round_trip, pow256,
};
use crate::codec::{prefix_of, Type};
use crate::error::Error;
use crate::varint::{
    decode_varint, encode_varint, lemma_varint_canonical, lemma_varint_enc_len,
    lemma_varint_prefix, varint_enc,
};

verus! {

/// The small powers of 256 behind the fixed scalar widths.
proof fn lemma_pow256_vals()
    ensures
        pow256(2) == 0x10000,
        pow256(4) == 0x100000000,
        pow256(8) == 0x10000000000000000,
{
    assert(pow256(0) == 1);
    assert(pow256(1) == 0x100);
    assert(pow256(2) == 0x10000);
    assert(pow256(3) == 0x1000000);
    assert(pow256(4) == 0x100000000);
    assert(pow256(5) == 0x10000000000);
    assert(pow256(6) == 0x1000000000000);
    assert(pow256(7) == 0x100000000000000);
    assert(pow256(8) == 0x10000000000000000);
}

/// The bytes a prefix of width `k` covers are exactly `src[pos..pos+k]`.
proof fn lemma_prefix_bytes(e: Seq<u8>, src: Seq<u8>, pos: int)
    requires
        0 <= pos <= src.len(),
        prefix_of(e, src.skip(pos)),
    ensures
        pos + e.len() <= src.len(),
        e == src.subrange(pos, pos + e.len()),
{
    assert(e =~= src.subrange(pos, pos + e.len()));
}

impl Type for u8 {
    open spec fn wf(&self) -> bool {
        true
    }

    open spec fn enc(&self) -> Seq<u8> {
        seq![*self]
    }

    fn encode_bin(&self, dest: &mut Vec<u8>) -> (n: usize) {
        dest.push(*self);
        proof {
            assert(final(dest)@ =~= old(dest)@ + self.enc());
        }
        1
    }

    fn decode_bin(src: &[u8], pos: usize) -> (r: Result<(Self, usize), Error>) {
        if pos < src.len() {
            let v = src[pos];
            let r: Result<(u8, usize), Error> = Ok((v, pos + 1));
            proof {
                assert(v.enc() =~= src@.subrange(pos as int, pos + 1));
                assert forall|w: u8|
                    w.wf() && #[trigger] prefix_of(w.enc(), src@.skip(pos as int)) implies w
                    == v by {
                    assert(w.enc()[0] == src@.skip(pos as int)[0]);
                }
            }
            r
        } else {
            let r: Result<(u8, usize), Error> = Err(Error::UnexpectedEof);
            proof {
                assert forall|w: u8|
                    !(w.wf() && #[trigger] prefix_of(w.enc(), src@.skip(pos as int))) by {
                    assert(w.enc().len() == 1);
                }
            }
            r
        }
    }
}

impl Type for bool {
    open spec fn wf(&self) -> bool {
        true
    }

    open spec fn enc(&self) -> Seq<u8> {
        if *self {
            seq![1u8]
        } else {
            seq![0u8]
        }
    }

    fn encode_bin(&self, dest: &mut Vec<u8>) -> (n: usize) {
        if *self {
            dest.push(1u8);
        } else {
            dest.push(0u8);
        }
        proof {
            assert(final(dest)@ =~= old(dest)@ + self.enc());
        }
        1
    }

    /// Beyond the codec contract: a missing byte is `UnexpectedEof`; a byte
    /// other than 0 or 1 is `InvalidEncoding`.
    fn decode_bin(src: &[u8], pos: usize) -> (r: Result<(Self, usize), Error>)
        ensures
            match r {
                Ok(_) => true,
                Err(e) => {
                    &&& (src@.len() == pos ==> (e matches Error::UnexpectedEof))
                    &&& ((pos < src@.len() && src@[pos as int] != 0 && src@[pos as int] != 1)
                        ==> (e matches Error::InvalidEncoding))
                },
            },
    {
        if pos < src.len() {
            let b = src[pos];
            if b == 0 || b == 1 {
                let v = b == 1;
                let r: Result<(bool, usize), Error> = Ok((v, pos + 1));
                proof {
                    assert(v.enc() =~= src@.subrange(pos as int, pos + 1));
                    assert forall|w: bool|
                        w.wf() && #[trigger] prefix_of(w.enc(), src@.skip(pos as int)) implies w
                        == v by {
                        assert(w.enc()[0] == src@.skip(pos as int)[0]);
                    }
                }
                r
            } else {
                let r: Result<(bool, usize), Error> = Err(Error::InvalidEncoding);
                proof {
                    assert forall|w: bool|
                        !(w.wf() && #[trigger] prefix_of(w.enc(), src@.skip(pos as int))) by {
                        assert(w.enc()[0] == 0 || w.enc()[0] == 1);
                        if prefix_of(w.enc(), src@.skip(pos as int)) {
                            assert(w.enc()[0] == src@.skip(pos as int)[0]);
                        }
                    }
                }
                r
            }
        } else {
            let r: Result<(bool, usize), Error> = Err(Error::UnexpectedEof);
            proof {
                assert forall|w: bool|
                    !(w.wf() && #[trigger] prefix_of(w.enc(), src@.skip(pos as int))) by {
                    assert(w.enc().len() == 1);
                }
            }
            r
        }
    }
}

impl Type for u16 {
    open spec fn wf(&self) -> bool {
        true
    }

    open spec fn enc(&self) -> Seq<u8> {
        be_enc(*self as nat, 2)
    }

    fn encode_bin(&self, dest: &mut Vec<u8>) -> (n: usize) {
        encode_be(*self as u64, 2, dest);
        proof {
            lemma_be_enc_len(*self as nat, 2);
        }
        2
    }

    fn decode_bin(src: &[u8], pos: usize) -> (r: Result<(Self, usize), Error>)
        ensures
            r matches Err(e) ==> e matches Error::UnexpectedEof && src@.len() < pos + 2,
    {
        match decode_be(src, pos, 2) {
            Ok((v, p)) => {
                proof {
                    lemma_pow256_vals();
                    lemma_be_dec_bound(src@.subrange(pos as int, pos + 2));
                }
                let x = v as u16;
                proof {
                    lemma_be_canonical(src@.subrange(pos as int, pos + 2));
                    assert forall|w: u16|
                        w.wf() && #[trigger] prefix_of(w.enc(), src@.skip(pos as int)) implies w
                        == x by {
                        lemma_be_enc_len(w as nat, 2);
                        lemma_prefix_bytes(w.enc(), src@, pos as int);
                        lemma_be_round_trip(w as nat, 2);
                    }
                }
                Ok((x, p))
            },
            Err(e) => {
                proof {
                    assert forall|w: u16|
                        !(w.wf() && #[trigger] prefix_of(w.enc(), src@.skip(pos as int))) by {
                        lemma_be_enc_len(w as nat, 2);
                    }
                }
                Err(e)
            },
        }
    }
}

impl Type for u32 {
    open spec fn wf(&self) -> bool {
        true
    }

    open spec fn enc(&self) -> Seq<u8> {
        be_enc(*self as nat, 4)
    }

    fn encode_bin(&self, dest: &mut Vec<u8>) -> (n: usize) {
        encode_be(*self as u64, 4, dest);
        proof {
            lemma_be_enc_len(*self as nat, 4);
        }
        4
    }

    fn decode_bin(src: &[u8], pos: usize) -> (r: Result<(Self, usize), Error>)
        ensures
            r matches Err(e) ==> e matches Error::UnexpectedEof && src@.len() < pos + 4,
    {
        match decode_be(src, pos, 4) {
            Ok((v, p)) => {
                proof {
                    lemma_pow256_vals();
                    lemma_be_dec_bound(src@.subrange(pos as int, pos + 4));
                }
                let x = v as u32;
                proof {
                    lemma_be_canonical(src@.subrange(pos as int, pos + 4));
                    assert forall|w: u32|
                        w.wf() && #[trigger] prefix_of(w.enc(), src@.skip(pos as int)) implies w
                        == x by {
                        lemma_be_enc_len(w as nat, 4);
                        lemma_prefix_bytes(w.enc(), src@, pos as int);
                        lemma_be_round_trip(w as nat, 4);
                    }
                }
                Ok((x, p))
            },
            Err(e) => {
                proof {
                    assert forall|w: u32|
                        !(w.wf() && #[trigger] prefix_of(w.enc(), src@.skip(pos as int))) by {
                        lemma_be_enc_len(w as nat, 4);
                    }
                }
                Err(e)
            },
        }
    }
}

impl Type for u64 {
    open spec fn wf(&self) -> bool {
        true
    }

    open spec fn enc(&self) -> Seq<u8> {
        be_enc(*self as nat, 8)
    }

    fn encode_bin(&self, dest: &mut Vec<u8>) -> (n: usize) {
        encode_be(*self, 8, dest);
        proof {
            lemma_be_enc_len(*self as nat, 8);
        }
        8
    }

    fn decode_bin(src: &[u8], pos: usize) -> (r: Result<(Self, usize), Error>)
        ensures
            r matches Err(e) ==> e matches Error::UnexpectedEof && src@.len() < pos + 8,
    {
        match decode_be(src, pos, 8) {
            Ok((v, p)) => {
                proof {
                    lemma_pow256_vals();
                    lemma_be_dec_bound(src@.subrange(pos as int, pos + 8));
                    lemma_be_canonical(src@.subrange(pos as int, pos + 8));
                    assert forall|w: u64|
                        w.wf() && #[trigger] prefix_of(w.enc(), src@.skip(pos as int)) implies w
                        == v by {
                        lemma_be_enc_len(w as nat, 8);
                        lemma_prefix_bytes(w.enc(), src@, pos as int);
                        lemma_be_round_trip(w as nat, 8);
                    }
                }
                Ok((v, p))
            },
            Err(e) => {
                proof {
                    assert forall|w: u64|
                        !(w.wf() && #[trigger] prefix_of(w.enc(), src@.skip(pos as int))) by {
                        lemma_be_enc_len(w as nat, 8);
                    }
                }
                Err(e)
            },
        }
    }
}

/// The two's-complement value of an `i32`, the integer its wire bytes carry.
pub open spec fn i32_repr(x: i32) -> nat {
    if x >= 0 {
        x as nat
    } else {
        (x + 0x100000000) as nat
    }
}

/// The two's-complement value of an `i64`.
pub open spec fn i64_repr(x: i64) -> nat {
    if x >= 0 {
        x as nat
    } else {
        (x + 0x10000000000000000) as nat
    }
}

impl Type for i32 {
    open spec fn wf(&self) -> bool {
        true
    }

    open spec fn enc(&self) -> Seq<u8> {
        be_enc(i32_repr(*self), 4)
    }

    fn encode_bin(&self, dest: &mut Vec<u8>) -> (n: usize) {
        let v: u64 = if *self >= 0 {
            *self as u64
        } else {
            ((*self as i64) + 0x100000000) as u64
        };
        encode_be(v, 4, dest);
        proof {
            lemma_be_enc_len(i32_repr(*self), 4);
        }
        4
    }

    fn decode_bin(src: &[u8], pos: usize) -> (r: Result<(Self, usize), Error>)
        ensures
            r matches Err(e) ==> e matches Error::UnexpectedEof && src@.len() < pos + 4,
    {
        match decode_be(src, pos, 4) {
            Ok((v, p)) => {
                proof {
                    lemma_pow256_vals();
                    lemma_be_dec_bound(src@.subrange(pos as int, pos + 4));
                }
                let x: i32 = if v <= 0x7fffffff {
                    v as i32
                } else {
                    ((v as i64) - 0x100000000) as i32
                };
                proof {
                    lemma_be_canonical(src@.subrange(pos as int, pos + 4));
                    assert(i32_repr(x) == v as nat);
                    assert forall|w: i32|
                        w.wf() && #[trigger] prefix_of(w.enc(), src@.skip(pos as int)) implies w
                        == x by {
                        lemma_be_enc_len(i32_repr(w), 4);
                        lemma_prefix_bytes(w.enc(), src@, pos as int);
                        lemma_be_round_trip(i32_repr(w), 4);
                    }
                }
                Ok((x, p))
            },
            Err(e) => {
                proof {
                    assert forall|w: i32|
                        !(w.wf() && #[trigger] prefix_of(w.enc(), src@.skip(pos as int))) by {
                        lemma_be_enc_len(i32_repr(w), 4);
                    }
                }
                Err(e)
            },
        }
    }
}

impl Type for i64 {
    open spec fn wf(&self) -> bool {
        true
    }

    open spec fn enc(&self) -> Seq<u8> {
        be_enc(i64_repr(*self), 8)
    }

    fn encode_bin(&self, dest: &mut Vec<u8>) -> (n: usize) {
        let v: u64 = if *self >= 0 {
            *self as u64
        } else {
            ((*self as i128) + 0x10000000000000000) as u64
        };
        encode_be(v, 8, dest);
        proof {
            lemma_be_enc_len(i64_repr(*self), 8);
        }
        8
    }

    fn decode_bin(src: &[u8], pos: usize) -> (r: Result<(Self, usize), Error>)
        ensures
            r matches Err(e) ==> e matches Error::UnexpectedEof && src@.len() < pos + 8,
    {
        match decode_be(src, pos, 8) {
            Ok((v, p)) => {
                proof {
                    lemma_pow256_vals();
                    lemma_be_dec_bound(src@.subrange(pos as int, pos + 8));
                }
                let x: i64 = if v <= 0x7fffffffffffffff {
                    v as i64
                } else {
                    ((v as i128) - 0x10000000000000000) as i64
                };
                proof {
                    lemma_be_canonical(src@.subrange(pos as int, pos + 8));
                    assert(i64_repr(x) == v as nat);
                    assert forall|w: i64|
                        w.wf() && #[trigger] prefix_of(w.enc(), src@.skip(pos as int)) implies w
                        == x by {
                        lemma_be_enc_len(i64_repr(w), 8);
                        lemma_prefix_bytes(w.enc(), src@, pos as int);
                        lemma_be_round_trip(i64_repr(w), 8);
                    }
                }
                Ok((x, p))
            },
            Err(e) => {
                proof {
                    assert forall|w: i64|
                        !(w.wf() && #[trigger] prefix_of(w.enc(), src@.skip(pos as int))) by {
                        lemma_be_enc_len(i64_repr(w), 8);
                    }
                }
                Err(e)
            },
        }
    }
}

impl Type for usize {
    open spec fn wf(&self) -> bool {
        true
    }

    open spec fn enc(&self) -> Seq<u8> {
        varint_enc(*self as nat)
    }

    fn encode_bin(&self, dest: &mut Vec<u8>) -> (n: usize) {
        let before = dest.len();
        encode_varint(*self as u64, dest);
        dest.len() - before
    }

    fn decode_bin(src: &[u8], pos: usize) -> (r: Result<(Self, usize), Error>)
        ensures
            r matches Err(e) ==> e matches Error::MalformedInput,
    {
        match decode_varint(src, pos) {
            Ok((v, p)) => {
                if v <= usize::MAX as u64 {
                    let x = v as usize;
                    proof {
                        lemma_varint_canonical(src@.skip(pos as int));
                        lemma_prefix_bytes(varint_enc(v as nat), src@, pos as int);
                        assert forall|w: usize|
                            w.wf() && #[trigger] prefix_of(w.enc(), src@.skip(pos as int)) implies w
                            == x by {
                            lemma_varint_prefix(w as nat, src@.skip(pos as int));
                        }
                    }
                    Ok((x, p))
                } else {
                    proof {
                        assert forall|w: usize|
                            !(w.wf() && #[trigger] prefix_of(w.enc(), src@.skip(pos as int))) by {
                            if prefix_of(w.enc(), src@.skip(pos as int)) {
                                lemma_varint_prefix(w as nat, src@.skip(pos as int));
                            }
                        }
                    }
                    Err(Error::MalformedInput)
                }
            },
            Err(e) => {
                proof {
                    assert forall|w: usize|
                        !(w.wf() && #[trigger] prefix_of(w.enc(), src@.skip(pos as int))) by {
                        if prefix_of(w.enc(), src@.skip(pos as int)) {
                            lemma_varint_prefix(w as nat, src@.skip(pos as int));
                        }
                    }
                }
                Err(e)
            },
        }
    }
}

impl Type for isize {
    /// The varint scheme carries no sign: only the non-negative machine
    /// integers have an encoding.
    open spec fn wf(&self) -> bool {
        *self >= 0
    }

    open spec fn enc(&self) -> Seq<u8> {
        varint_enc(*self as nat)
    }

    fn encode_bin(&self, dest: &mut Vec<u8>) -> (n: usize) {
        let before = dest.len();
        encode_varint(*self as u64, dest);
        dest.len() - before
    }

    fn decode_bin(src: &[u8], pos: usize) -> (r: Result<(Self, usize), Error>)
        ensures
            r matches Err(e) ==> e matches Error::MalformedInput,
    {
        match decode_varint(src, pos) {
            Ok((v, p)) => {
                if v <= isize::MAX as u64 {
                    let x = v as isize;
                    proof {
                        lemma_varint_canonical(src@.skip(pos as int));
                        lemma_prefix_bytes(varint_enc(v as nat), src@, pos as int);
                        assert forall|w: isize|
                            w.wf() && #[trigger] prefix_of(w.enc(), src@.skip(pos as int)) implies w
                            == x by {
                            lemma_varint_prefix(w as nat, src@.skip(pos as int));
                        }
                    }
                    Ok((x, p))
                } else {
                    proof {
                        assert forall|w: isize|
                            !(w.wf() && #[trigger] prefix_of(w.enc(), src@.skip(pos as int))) by {
                            if prefix_of(w.enc(), src@.skip(pos as int)) {
                                lemma_varint_prefix(w as nat, src@.skip(pos as int));
                            }
                        }
                    }
                    Err(Error::MalformedInput)
                }
            },
            Err(e) => {
                proof {
                    assert forall|w: isize|
                        !(w.wf() && #[trigger] prefix_of(w.enc(), src@.skip(pos as int))) by {
                        if prefix_of(w.enc(), src@.skip(pos as int)) {
                            lemma_varint_prefix(w as nat, src@.skip(pos as int));
                        }
                    }
                }
                Err(e)
            },
        }
    }
}

impl Type for () {
    open spec fn wf(&self) -> bool {
        true
    }

    open spec fn enc(&self) -> Seq<u8> {
        Seq::empty()
    }

    fn encode_bin(&self, dest: &mut Vec<u8>) -> (n: usize) {
        proof {
            assert(final(dest)@ =~= old(dest)@ + self.enc());
        }
        0
    }

    fn decode_bin(src: &[u8], pos: usize) -> (r: Result<(Self, usize), Error>) {
        let r: Result<((), usize), Error> = Ok(((), pos));
        proof {
            assert(().enc() =~= src@.subrange(pos as int, pos as int));
        }
        r
    }
}

} // verus!

//! Composite encodings, built generically over the scalar codecs: optional
//! values, fixed tuples, and homogeneous sequences.
//!
//! An option is a single discriminant byte, `0x00` for absent and `0xFF` for
//! present followed by the payload. A tuple is the concatenation of its
//! elements' encodings in declared order, with no length prefix. A sequence
//! is a varint count followed by that many back-to-back element encodings;
//! with byte elements this doubles as the byte-buffer encoding.

use vstd::prelude::*;

use crate::codec::{lemma_prefix_split, lemma_skip_skip, prefix_of, Type};
use crate::error::Error;
use crate::varint::{
    decode_varint, encode_varint, lemma_varint_canonical, lemma_varint_prefix, varint_dec,
    varint_enc,
};

verus! {

/// The back-to-back encodings of the elements of `s`.
pub open spec fn enc_elems<T: Type>(s: Seq<T>) -> Seq<u8>
    decreases s.len(),
{
    if s.len() == 0 {
        Seq::empty()
    } else {
        s[0].enc() + enc_elems(s.skip(1))
    }
}

/// Every element is well-formed.
pub open spec fn elems_wf<T: Type>(s: Seq<T>) -> bool {
    forall|i: int| 0 <= i < s.len() ==> #[trigger] s[i].wf()
}

/// The sequence encoding: a varint count followed by the element encodings.
pub open spec fn seq_enc<T: Type>(s: Seq<T>) -> Seq<u8> {
    varint_enc(s.len() as nat) + enc_elems(s)
}

/// The element-wise abstraction of a sequence of encodable values.
pub open spec fn seq_deep<T: Type>(s: Seq<T>) -> Seq<T::V> {
    Seq::new(s.len(), |i: int| s[i].deep_view())
}

/// The byte-buffer encoding: a varint byte count followed by the raw bytes.
pub open spec fn bytes_enc(b: Seq<u8>) -> Seq<u8> {
    varint_enc(b.len() as nat) + b
}

/// Appends `bytes_enc(b@)` to `dest`.
pub fn encode_byte_payload(b: &[u8], dest: &mut Vec<u8>)
    ensures
        final(dest)@ == old(dest)@ + bytes_enc(b@),
{
    encode_varint(b.len() as u64, dest);
    let mut i: usize = 0;
    proof {
        assert(dest@ =~= old(dest)@ + varint_enc(b@.len() as nat) + b@.take(0));
    }
    while i < b.len()
        invariant
            i <= b@.len(),
            dest@ == old(dest)@ + varint_enc(b@.len() as nat) + b@.take(i as int),
        decreases b@.len() - i,
    {
        dest.push(b[i]);
        proof {
            assert(b@.take(i + 1) =~= b@.take(i as int).push(b@[i as int]));
            assert(dest@ =~= old(dest)@ + varint_enc(b@.len() as nat) + b@.take(i + 1));
        }
        i = i + 1;
    }
    proof {
        assert(b@.take(b@.len() as int) =~= b@);
        assert(dest@ =~= old(dest)@ + bytes_enc(b@));
    }
}

/// Reads a varint byte count and then exactly that many raw bytes. An error
/// comes precisely when no byte string's buffer encoding starts at `pos`:
/// `MalformedInput` on a bad count, `UnexpectedEof` on a truncated payload.
pub fn decode_byte_payload(src: &[u8], pos: usize) -> (r: Result<(Vec<u8>, usize), Error>)
    requires
        pos <= src@.len(),
    ensures
        match r {
            Ok(vp) => {
                &&& pos <= vp.1 <= src@.len()
                &&& bytes_enc(vp.0@) == src@.subrange(pos as int, vp.1 as int)
            },
            Err(e) => {
                &&& forall|bs: Seq<u8>|
                    !(#[trigger] prefix_of(bytes_enc(bs), src@.skip(pos as int)))
                &&& match varint_dec(src@.skip(pos as int)) {
                    None => e matches Error::MalformedInput,
                    Some(t) => {
                        if t.0 > u64::MAX {
                            e matches Error::MalformedInput
                        } else {
                            e matches Error::UnexpectedEof && src@.len() < pos + t.1 + t.0
                        }
                    },
                }
            },
        },
{
    let ghost rest = src@.skip(pos as int);
    let slen = src.len();
    proof {
        assert(vstd::slice::spec_slice_len(src) == src@.len());
    }
    proof {
        lemma_varint_canonical(rest);
    }
    match decode_varint(src, pos) {
        Err(e) => {
            let r: Result<(Vec<u8>, usize), Error> = Err(Error::MalformedInput);
            proof {
                assert forall|bs: Seq<u8>| !(#[trigger] prefix_of(bytes_enc(bs), rest)) by {
                    if prefix_of(bytes_enc(bs), rest) {
                        lemma_prefix_split(varint_enc(bs.len() as nat), bs, rest);
                        lemma_varint_prefix(bs.len() as nat, rest);
                    }
                }
            }
            r
        },
        Ok((n64, p0)) => {
            proof {
                assert forall|bs: Seq<u8>|
                    #[trigger] prefix_of(bytes_enc(bs), rest) implies {
                    &&& bs.len() == n64 as nat
                    &&& prefix_of(bs, src@.skip(p0 as int))
                } by {
                    lemma_prefix_split(varint_enc(bs.len() as nat), bs, rest);
                    lemma_varint_prefix(bs.len() as nat, rest);
                    lemma_skip_skip(src@, pos as int, p0 - pos as int);
                }
            }
            if n64 > usize::MAX as u64 || (slen - p0) < (n64 as usize) {
                let r: Result<(Vec<u8>, usize), Error> = Err(Error::UnexpectedEof);
                return r;
            }
            let nb = n64 as usize;
            let payload = vstd::slice::slice_to_vec(
                vstd::slice::slice_subrange(src, p0, p0 + nb),
            );
            let r: Result<(Vec<u8>, usize), Error> = Ok((payload, p0 + nb));
            proof {
                assert(bytes_enc(payload@) =~= src@.subrange(pos as int, p0 + nb));
            }
            r
        },
    }
}

/// Reads a sum type's wire tag: the varint variant index, for a type with
/// `n_variants` declared alternatives. The tag of a declared variant is
/// returned with the position just past it; an index with no matching
/// variant fails with `InvalidVariant`, and a malformed or truncated varint
/// with `MalformedInput`.
pub fn decode_variant_tag(src: &[u8], pos: usize, n_variants: u64) -> (r: Result<
    (u64, usize),
    Error,
>)
    requires
        pos <= src@.len(),
    ensures
        match r {
            Ok(tp) => {
                &&& tp.0 < n_variants
                &&& varint_dec(src@.skip(pos as int)) == Some((tp.0 as nat, tp.1 - pos as int))
                &&& pos < tp.1 <= src@.len()
            },
            Err(e) => {
                &&& e.is_decode_error()
                &&& match varint_dec(src@.skip(pos as int)) {
                    Some(t) => {
                        &&& t.0 >= n_variants as nat
                        &&& (t.0 <= u64::MAX ==> (e matches Error::InvalidVariant))
                        &&& (t.0 > u64::MAX ==> (e matches Error::MalformedInput))
                    },
                    None => e matches Error::MalformedInput,
                }
            },
        },
{
    match decode_varint(src, pos) {
        Ok((t, p)) => {
            if t < n_variants {
                Ok((t, p))
            } else {
                Err(Error::InvalidVariant)
            }
        },
        Err(e) => Err(e),
    }
}

/// At most one byte string's buffer encoding can start a given stream.
pub proof fn lemma_bytes_enc_prefix_unique(b1: Seq<u8>, b2: Seq<u8>, s: Seq<u8>)
    requires
        prefix_of(bytes_enc(b1), s),
        prefix_of(bytes_enc(b2), s),
    ensures
        b1 == b2,
{
    lemma_prefix_split(varint_enc(b1.len() as nat), b1, s);
    lemma_prefix_split(varint_enc(b2.len() as nat), b2, s);
    lemma_varint_prefix(b1.len() as nat, s);
    lemma_varint_prefix(b2.len() as nat, s);
    let k = varint_enc(b1.len() as nat).len() as int;
    assert(b1 =~= s.skip(k).subrange(0, b1.len() as int));
    assert(b2 =~= s.skip(k).subrange(0, b2.len() as int));
    assert(b1 =~= b2);
}

/// Appending an element appends its encoding.
pub proof fn lemma_enc_elems_push<T: Type>(s: Seq<T>, x: T)
    ensures
        enc_elems(s.push(x)) == enc_elems(s) + x.enc(),
    decreases s.len(),
{
    if s.len() == 0 {
        assert(s.push(x)[0] == x);
        assert(s.push(x).skip(1) =~= Seq::<T>::empty());
        assert(enc_elems(s.push(x)) == s.push(x)[0].enc() + enc_elems(s.push(x).skip(1)));
        assert(enc_elems(s.push(x).skip(1)) == Seq::<u8>::empty());
        assert(enc_elems(s.push(x)) =~= enc_elems(s) + x.enc());
    } else {
        assert(s.push(x).skip(1) =~= s.skip(1).push(x));
        lemma_enc_elems_push(s.skip(1), x);
        assert(s.push(x)[0] == s[0]);
        assert(enc_elems(s.push(x)) =~= enc_elems(s) + x.enc());
    }
}

/// An element sequence's encoding splits at any element: what comes before
/// it, its own encoding, and what comes after.
pub proof fn lemma_enc_elems_decompose<T: Type>(s: Seq<T>, i: int)
    requires
        0 <= i < s.len(),
    ensures
        enc_elems(s) == enc_elems(s.take(i)) + s[i].enc() + enc_elems(s.skip(i + 1)),
    decreases i,
{
    if i == 0 {
        assert(enc_elems(s.take(0)) =~= Seq::<u8>::empty());
        assert(enc_elems(s) =~= enc_elems(s.take(0)) + s[0].enc() + enc_elems(s.skip(1)));
    } else {
        lemma_enc_elems_decompose(s.skip(1), i - 1);
        assert(s.skip(1).take(i - 1) =~= s.take(i).skip(1));
        assert(s.skip(1)[i - 1] == s[i]);
        assert(s.skip(1).skip(i) =~= s.skip(i + 1));
        assert(s.take(i)[0] == s[0]);
        assert(enc_elems(s.take(i)) == s.take(i)[0].enc() + enc_elems(s.take(i).skip(1)));
        assert(enc_elems(s) =~= enc_elems(s.take(i)) + s[i].enc() + enc_elems(s.skip(i + 1)));
    }
}

impl<T: Type> Type for Vec<T> {
    open spec fn wf(&self) -> bool {
        elems_wf(self@)
    }

    open spec fn enc(&self) -> Seq<u8> {
        seq_enc(self@)
    }

    fn encode_bin(&self, dest: &mut Vec<u8>) -> (n: usize) {
        let before = dest.len();
        encode_varint(self.len() as u64, dest);
        let mut i: usize = 0;
        proof {
            assert(self@.take(0) =~= Seq::<T>::empty());
            assert(dest@ =~= old(dest)@ + (varint_enc(self@.len() as nat) + enc_elems(
                self@.take(0),
            )));
        }
        while i < self.len()
            invariant
                i <= self@.len(),
                elems_wf(self@),
                old(dest)@.len() + self.enc().len() <= usize::MAX,
                self.enc() == varint_enc(self@.len() as nat) + enc_elems(self@),
                dest@ == old(dest)@ + (varint_enc(self@.len() as nat) + enc_elems(
                    self@.take(i as int),
                )),
            decreases self@.len() - i,
        {
            proof {
                lemma_enc_elems_decompose(self@, i as int);
            }
            self[i].encode_bin(dest);
            proof {
                assert(self@.take(i + 1) =~= self@.take(i as int).push(self@[i as int]));
                lemma_enc_elems_push(self@.take(i as int), self@[i as int]);
                assert(dest@ =~= old(dest)@ + (varint_enc(self@.len() as nat) + enc_elems(
                    self@.take(i + 1),
                )));
            }
            i = i + 1;
        }
        proof {
            assert(self@.take(self@.len() as int) =~= self@);
        }
        dest.len() - before
    }

    /// Beyond the codec contract: decoding succeeds for any well-formed
    /// element sequence whose encoding starts the stream, not only for one
    /// already held in a `Vec`; borrowing wrappers rely on this.
    fn decode_bin(src: &[u8], pos: usize) -> (r: Result<(Self, usize), Error>)
        ensures
            forall|es: Seq<T>|
                elems_wf(es) && es.len() <= usize::MAX && #[trigger] prefix_of(
                    seq_enc(es),
                    src@.skip(pos as int),
                ) ==> match r {
                    Ok(vp) => vp.0.deep_view() == seq_deep(es) && vp.1 == pos + seq_enc(es).len(),
                    Err(_) => false,
                },
    {
        let ghost rest = src@.skip(pos as int);
        proof {
            lemma_varint_canonical(rest);
        }
        match decode_varint(src, pos) {
            Err(e) => {
                let r: Result<(Vec<T>, usize), Error> = Err(e);
                proof {
                    assert forall|es: Seq<T>|
                        !(elems_wf(es) && es.len() <= usize::MAX && #[trigger] prefix_of(
                            seq_enc(es),
                            rest,
                        )) by {
                        if elems_wf(es) && es.len() <= usize::MAX && prefix_of(seq_enc(es), rest) {
                            lemma_prefix_split(varint_enc(es.len() as nat), enc_elems(es), rest);
                            lemma_varint_prefix(es.len() as nat, rest);
                        }
                    }
                    lemma_no_vec_witness::<T>(r, rest);
                }
                r
            },
            Ok((n64, p0)) => {
                if n64 > usize::MAX as u64 {
                    let r: Result<(Vec<T>, usize), Error> = Err(Error::MalformedInput);
                    proof {
                        assert forall|es: Seq<T>|
                            !(elems_wf(es) && es.len() <= usize::MAX && #[trigger] prefix_of(
                                seq_enc(es),
                                rest,
                            )) by {
                            if elems_wf(es) && es.len() <= usize::MAX && prefix_of(
                                seq_enc(es),
                                rest,
                            ) {
                                lemma_prefix_split(
                                    varint_enc(es.len() as nat),
                                    enc_elems(es),
                                    rest,
                                );
                                lemma_varint_prefix(es.len() as nat, rest);
                            }
                        }
                        lemma_no_vec_witness::<T>(r, rest);
                    }
                    return r;
                }
                let n = n64 as usize;
                let mut out: Vec<T> = Vec::new();
                let mut cur = p0;
                let mut i: usize = 0;
                proof {
                    assert(enc_elems(out@) =~= src@.subrange(p0 as int, p0 as int));
                    assert forall|es: Seq<T>|
                        elems_wf(es) && es.len() <= usize::MAX && #[trigger] prefix_of(
                            seq_enc(es),
                            rest,
                        ) implies {
                        &&& es.len() == n
                        &&& prefix_of(enc_elems(es.skip(0)), src@.skip(p0 as int))
                        &&& p0 == p0 + enc_elems(es.take(0)).len()
                    } by {
                        lemma_prefix_split(varint_enc(es.len() as nat), enc_elems(es), rest);
                        lemma_varint_prefix(es.len() as nat, rest);
                        lemma_skip_skip(src@, pos as int, p0 - pos as int);
                        assert(es.skip(0) =~= es);
                        assert(enc_elems(es.take(0)) =~= Seq::<u8>::empty());
                    }
                }
                while i < n
                    invariant
                        i <= n,
                        pos <= p0 <= cur <= src@.len(),
                        out@.len() == i,
                        elems_wf(out@),
                        enc_elems(out@) == src@.subrange(p0 as int, cur as int),
                        varint_dec(src@.skip(pos as int)) == Some((n as nat, p0 - pos as int)),
                        varint_enc(n as nat) == src@.subrange(pos as int, p0 as int),
                        rest == src@.skip(pos as int),
                        forall|es: Seq<T>|
                            elems_wf(es) && es.len() <= usize::MAX && #[trigger] prefix_of(
                                seq_enc(es),
                                rest,
                            ) ==> {
                                &&& es.len() == n
                                &&& (forall|j: int|
                                    0 <= j < i ==> es[j].deep_view() == #[trigger] out@[j].deep_view())
                                &&& prefix_of(enc_elems(es.skip(i as int)), src@.skip(cur as int))
                                &&& cur == p0 + enc_elems(es.take(i as int)).len()
                            },
                    decreases n - i,
                {
                    match T::decode_bin(src, cur) {
                        Err(e) => {
                            let r: Result<(Vec<T>, usize), Error> = Err(e);
                            proof {
                                assert forall|es: Seq<T>|
                                    !(elems_wf(es) && es.len() <= usize::MAX && #[trigger] prefix_of(
                                        seq_enc(es),
                                        rest,
                                    )) by {
                                    if elems_wf(es) && es.len() <= usize::MAX && prefix_of(
                                        seq_enc(es),
                                        rest,
                                    ) {
                                        assert(es.skip(i as int)[0] == es[i as int]);
                                        assert(es.skip(i as int).skip(1) =~= es.skip(i + 1));
                                        assert(enc_elems(es.skip(i as int)) == es[i as int].enc()
                                            + enc_elems(es.skip(i + 1)));
                                        lemma_prefix_split(
                                            es[i as int].enc(),
                                            enc_elems(es.skip(i + 1)),
                                            src@.skip(cur as int),
                                        );
                                        assert(es[i as int].wf());
                                    }
                                }
                                lemma_no_vec_witness::<T>(r, rest);
                            }
                            return r;
                        },
                        Ok((v, p)) => {
                            proof {
                                assert forall|es: Seq<T>|
                                    elems_wf(es) && es.len() <= usize::MAX && #[trigger] prefix_of(
                                        seq_enc(es),
                                        rest,
                                    ) implies {
                                    &&& v.deep_view() == es[i as int].deep_view()
                                    &&& p == cur + es[i as int].enc().len()
                                    &&& prefix_of(enc_elems(es.skip(i + 1)), src@.skip(p as int))
                                    &&& p == p0 + enc_elems(es.take(i + 1)).len()
                                } by {
                                    assert(es.skip(i as int)[0] == es[i as int]);
                                    assert(es.skip(i as int).skip(1) =~= es.skip(i + 1));
                                    assert(enc_elems(es.skip(i as int)) == es[i as int].enc()
                                        + enc_elems(es.skip(i + 1)));
                                    lemma_prefix_split(
                                        es[i as int].enc(),
                                        enc_elems(es.skip(i + 1)),
                                        src@.skip(cur as int),
                                    );
                                    assert(es[i as int].wf());
                                    lemma_skip_skip(src@, cur as int, es[i as int].enc().len() as int);
                                    assert(es.take(i + 1) =~= es.take(i as int).push(es[i as int]));
                                    lemma_enc_elems_push(es.take(i as int), es[i as int]);
                                }
                                lemma_enc_elems_push(out@, v);
                            }
                            let ghost old_out = out@;
                            out.push(v);
                            proof {
                                assert(enc_elems(out@) =~= src@.subrange(p0 as int, p as int));
                                assert(forall|j: int|
                                    0 <= j < i ==> out@[j].deep_view() == #[trigger] old_out[j].deep_view());
                            }
                            cur = p;
                            i = i + 1;
                        },
                    }
                }
                let r: Result<(Vec<T>, usize), Error> = Ok((out, cur));
                proof {
                    assert(out.enc() =~= src@.subrange(pos as int, cur as int));
                    assert forall|es: Seq<T>|
                        elems_wf(es) && es.len() <= usize::MAX && #[trigger] prefix_of(
                            seq_enc(es),
                            rest,
                        ) implies (out.deep_view() == seq_deep(es) && cur == pos + seq_enc(
                        es,
                    ).len()) by {
                        assert(es.take(n as int) =~= es);
                        assert(out.deep_view() =~= seq_deep(es));
                    }
                    assert forall|w: Vec<T>|
                        w.wf() && #[trigger] prefix_of(w.enc(), rest) implies (out.deep_view()
                        == w.deep_view() && cur == pos + w.enc().len()) by {
                        assert(vstd::std_specs::vec::spec_vec_len(&w) == w@.len());
                        assert(w.deep_view() =~= seq_deep(w@));
                    }
                }
                r
            },
        }
    }
}

/// When no well-formed element sequence that fits in memory has its encoding
/// at the front of `rest`, no `Vec` has either: a vector's view is such a
/// sequence.
proof fn lemma_no_vec_witness<T: Type>(r: Result<(Vec<T>, usize), Error>, rest: Seq<u8>)
    requires
        forall|es: Seq<T>|
            !(elems_wf(es) && es.len() <= usize::MAX && #[trigger] prefix_of(seq_enc(es), rest)),
    ensures
        forall|w: Vec<T>| !(w.wf() && #[trigger] prefix_of(w.enc(), rest)),
{
    assert forall|w: Vec<T>| !(w.wf() && #[trigger] prefix_of(w.enc(), rest)) by {
        if w.wf() && prefix_of(w.enc(), rest) {
            assert(vstd::std_specs::vec::spec_vec_len(&w) == w@.len());
            assert(prefix_of(seq_enc(w@), rest));
        }
    }
}

impl<T: Type> Type for Option<T> {
    open spec fn wf(&self) -> bool {
        match self {
            Option::None => true,
            Option::Some(t) => t.wf(),
        }
    }

    open spec fn enc(&self) -> Seq<u8> {
        match self {
            Option::None => seq![0u8],
            Option::Some(t) => seq![255u8] + t.enc(),
        }
    }

    fn encode_bin(&self, dest: &mut Vec<u8>) -> (n: usize) {
        match self {
            Option::None => {
                dest.push(0u8);
                proof {
                    assert(final(dest)@ =~= old(dest)@ + self.enc());
                }
                1
            },
            Option::Some(t) => {
                dest.push(255u8);
                let n = t.encode_bin(dest);
                proof {
                    assert(final(dest)@ =~= old(dest)@ + self.enc());
                }
                n + 1
            },
        }
    }

    /// Beyond the codec contract: a missing discriminant byte is
    /// `UnexpectedEof` and an unknown one `InvalidEncoding`; an error on a
    /// present payload is the payload decoder's own.
    fn decode_bin(src: &[u8], pos: usize) -> (r: Result<(Self, usize), Error>)
        ensures
            match r {
                Ok(_) => true,
                Err(e) => {
                    &&& (src@.len() == pos ==> (e matches Error::UnexpectedEof))
                    &&& ((pos < src@.len() && src@[pos as int] != 0 && src@[pos as int] != 255)
                        ==> (e matches Error::InvalidEncoding))
                },
            },
    {
        let ghost rest = src@.skip(pos as int);
        if pos >= src.len() {
            let r: Result<(Option<T>, usize), Error> = Err(Error::UnexpectedEof);
            proof {
                assert forall|w: Option<T>| !(w.wf() && #[trigger] prefix_of(w.enc(), rest)) by {
                    assert(w.enc().len() >= 1);
                }
            }
            return r;
        }
        let tag = src[pos];
        if tag == 0 {
            let r: Result<(Option<T>, usize), Error> = Ok((Option::None, pos + 1));
            proof {
                assert(seq![0u8] =~= src@.subrange(pos as int, pos + 1));
                assert forall|w: Option<T>|
                    w.wf() && #[trigger] prefix_of(w.enc(), rest) implies w is None by {
                    assert(w.enc()[0] == rest[0]);
                }
            }
            r
        } else if tag == 255 {
            match T::decode_bin(src, pos + 1) {
                Ok((t, p)) => {
                    let r: Result<(Option<T>, usize), Error> = Ok((Option::Some(t), p));
                    proof {
                        assert(Option::Some(t).enc() =~= src@.subrange(pos as int, p as int));
                        assert forall|w: Option<T>|
                            w.wf() && #[trigger] prefix_of(w.enc(), rest) implies (Option::Some(
                            t,
                        ).deep_view() == w.deep_view() && p == pos + w.enc().len()) by {
                            assert(w.enc()[0] == rest[0]);
                            match w {
                                Option::None => {
                                    assert(false);
                                },
                                Option::Some(wt) => {
                                    lemma_prefix_split(seq![255u8], wt.enc(), rest);
                                    lemma_skip_skip(src@, pos as int, 1);
                                    assert(prefix_of(wt.enc(), src@.skip(pos + 1)));
                                },
                            }
                        }
                    }
                    r
                },
                Err(e) => {
                    let r: Result<(Option<T>, usize), Error> = Err(e);
                    proof {
                        assert forall|w: Option<T>|
                            !(w.wf() && #[trigger] prefix_of(w.enc(), rest)) by {
                            if w.wf() && prefix_of(w.enc(), rest) {
                                assert(w.enc()[0] == rest[0]);
                                match w {
                                    Option::None => {
                                        assert(false);
                                    },
                                    Option::Some(wt) => {
                                        lemma_prefix_split(seq![255u8], wt.enc(), rest);
                                        lemma_skip_skip(src@, pos as int, 1);
                                        assert(prefix_of(wt.enc(), src@.skip(pos + 1)));
                                        assert(false);
                                    },
                                }
                            }
                        }
                    }
                    r
                },
            }
        } else {
            let r: Result<(Option<T>, usize), Error> = Err(Error::InvalidEncoding);
            proof {
                assert forall|w: Option<T>| !(w.wf() && #[trigger] prefix_of(w.enc(), rest)) by {
                    if w.wf() && prefix_of(w.enc(), rest) {
                        assert(w.enc()[0] == rest[0]);
                        assert(w.enc()[0] == 0 || w.enc()[0] == 255);
                    }
                }
            }
            r
        }
    }
}

impl<T: Type, U: Type> Type for (T, U) {
    open spec fn wf(&self) -> bool {
        self.0.wf() && self.1.wf()
    }

    open spec fn enc(&self) -> Seq<u8> {
        self.0.enc() + self.1.enc()
    }

    fn encode_bin(&self, dest: &mut Vec<u8>) -> (n: usize) {
        let n0 = self.0.encode_bin(dest);
        let n1 = self.1.encode_bin(dest);
        proof {
            assert(final(dest)@ =~= old(dest)@ + self.enc());
        }
        n0 + n1
    }

    fn decode_bin(src: &[u8], pos: usize) -> (r: Result<(Self, usize), Error>) {
        let ghost rest = src@.skip(pos as int);
        match T::decode_bin(src, pos) {
            Ok((a, p1)) => {
                match U::decode_bin(src, p1) {
                    Ok((b, p2)) => {
                        let r: Result<((T, U), usize), Error> = Ok(((a, b), p2));
                        proof {
                            assert((a, b).enc() =~= src@.subrange(pos as int, p2 as int));
                            assert forall|w: (T, U)|
                                w.wf() && #[trigger] prefix_of(w.enc(), rest) implies ((a,
                            b).deep_view() == w.deep_view() && p2 == pos + w.enc().len()) by {
                                lemma_prefix_split(w.0.enc(), w.1.enc(), rest);
                                lemma_skip_skip(src@, pos as int, w.0.enc().len() as int);
                            }
                        }
                        r
                    },
                    Err(e) => {
                        let r: Result<((T, U), usize), Error> = Err(e);
                        proof {
                            assert forall|w: (T, U)|
                                !(w.wf() && #[trigger] prefix_of(w.enc(), rest)) by {
                                if w.wf() && prefix_of(w.enc(), rest) {
                                    lemma_prefix_split(w.0.enc(), w.1.enc(), rest);
                                    lemma_skip_skip(src@, pos as int, w.0.enc().len() as int);
                                }
                            }
                        }
                        r
                    },
                }
            },
            Err(e) => {
                let r: Result<((T, U), usize), Error> = Err(e);
                proof {
                    assert forall|w: (T, U)| !(w.wf() && #[trigger] prefix_of(w.enc(), rest)) by {
                        if w.wf() && prefix_of(w.enc(), rest) {
                            lemma_prefix_split(w.0.enc(), w.1.enc(), rest);
                        }
                    }
                }
                r
            },
        }
    }
}

impl<T: Type, U: Type, V: Type> Type for (T, U, V) {
    open spec fn wf(&self) -> bool {
        self.0.wf() && self.1.wf() && self.2.wf()
    }

    open spec fn enc(&self) -> Seq<u8> {
        self.0.enc() + self.1.enc() + self.2.enc()
    }

    fn encode_bin(&self, dest: &mut Vec<u8>) -> (n: usize) {
        let n0 = self.0.encode_bin(dest);
        let n1 = self.1.encode_bin(dest);
        let n2 = self.2.encode_bin(dest);
        proof {
            assert(final(dest)@ =~= old(dest)@ + self.enc());
        }
        n0 + n1 + n2
    }

    fn decode_bin(src: &[u8], pos: usize) -> (r: Result<(Self, usize), Error>) {
        let ghost rest = src@.skip(pos as int);
        match <(T, U)>::decode_bin(src, pos) {
            Ok((ab, p1)) => {
                match V::decode_bin(src, p1) {
                    Ok((c, p2)) => {
                        let r: Result<((T, U, V), usize), Error> = Ok(((ab.0, ab.1, c), p2));
                        proof {
                            assert((ab.0, ab.1, c).enc() =~= (ab, c).enc());
                            assert((ab.0, ab.1, c).enc() =~= src@.subrange(pos as int, p2 as int));
                            assert forall|w: (T, U, V)|
                                w.wf() && #[trigger] prefix_of(w.enc(), rest) implies ((ab.0,
                            ab.1, c).deep_view() == w.deep_view() && p2 == pos + w.enc().len()) by {
                                let w2 = ((w.0, w.1), w.2);
                                assert(w.enc() =~= w2.0.enc() + w2.1.enc());
                                assert(prefix_of(w2.0.enc() + w2.1.enc(), rest));
                                lemma_prefix_split(w2.0.enc(), w2.1.enc(), rest);
                                lemma_skip_skip(src@, pos as int, w2.0.enc().len() as int);
                            }
                        }
                        r
                    },
                    Err(e) => {
                        let r: Result<((T, U, V), usize), Error> = Err(e);
                        proof {
                            assert forall|w: (T, U, V)|
                                !(w.wf() && #[trigger] prefix_of(w.enc(), rest)) by {
                                if w.wf() && prefix_of(w.enc(), rest) {
                                    let w2 = ((w.0, w.1), w.2);
                                    assert(w.enc() =~= w2.0.enc() + w2.1.enc());
                                    assert(prefix_of(w2.0.enc() + w2.1.enc(), rest));
                                    lemma_prefix_split(w2.0.enc(), w2.1.enc(), rest);
                                    lemma_skip_skip(src@, pos as int, w2.0.enc().len() as int);
                                }
                            }
                        }
                        r
                    },
                }
            },
            Err(e) => {
                let r: Result<((T, U, V), usize), Error> = Err(e);
                proof {
                    assert forall|w: (T, U, V)|
                        !(w.wf() && #[trigger] prefix_of(w.enc(), rest)) by {
                        if w.wf() && prefix_of(w.enc(), rest) {
                            let w2 = ((w.0, w.1), w.2);
                            assert(w.enc() =~= w2.0.enc() + w2.1.enc());
                            assert(prefix_of(w2.0.enc() + w2.1.enc(), rest));
                            lemma_prefix_split(w2.0.enc(), w2.1.enc(), rest);
                        }
                    }
                }
                r
            },
        }
    }
}

} // verus!

//! Borrow-or-own wrappers for the three payload shapes a caller hands to the
//! codec: strings, byte buffers, and homogeneous arrays. Each encodes
//! exactly like its owned counterpart; decoding always returns the owned
//! form.

use vstd::prelude::*;
use vstd::string::StrSliceExecFns;
use vstd::utf8::encode_utf8;

use crate::codec::{lemma_prefix_split, lemma_skip_skip, prefix_of, Type};
use crate::composite::{
    bytes_enc, decode_byte_payload, elems_wf, enc_elems, encode_byte_payload,
    lemma_bytes_enc_prefix_unique, lemma_enc_elems_decompose, lemma_enc_elems_push, seq_deep,
    seq_enc,
};
use crate::error::Error;
use crate::text::str_enc;
use crate::varint::{encode_varint, varint_enc};

verus! {

/// A string payload, either owned or borrowed.
pub enum Str<'a> {
    Owned(String),
    Ref(&'a str),
}

impl<'a> DeepView for Str<'a> {
    type V = Seq<char>;

    open spec fn deep_view(&self) -> Seq<char> {
        match self {
            Str::Owned(s) => s@,
            Str::Ref(s) => s@,
        }
    }
}

impl<'a> Str<'a> {
    /// True when the string has no characters.
    pub fn is_empty(&self) -> (r: bool)
        ensures
            r == (self.deep_view().len() == 0),
    {
        match self {
            Str::Owned(s) => s.as_str().is_empty(),
            Str::Ref(s) => s.is_empty(),
        }
    }

    /// The length in bytes of the UTF-8 form, as `str::len` reports it.
    pub fn len(&self) -> (r: usize)
        ensures
            r == encode_utf8(self.deep_view()).len(),
    {
        match self {
            Str::Owned(s) => s.as_str().as_bytes().len(),
            Str::Ref(s) => s.as_bytes().len(),
        }
    }
}

impl<'a> Type for Str<'a> {
    open spec fn wf(&self) -> bool {
        true
    }

    open spec fn enc(&self) -> Seq<u8> {
        str_enc(self.deep_view())
    }

    fn encode_bin(&self, dest: &mut Vec<u8>) -> (n: usize) {
        let before = dest.len();
        match self {
            Str::Owned(s) => encode_byte_payload(s.as_str().as_bytes(), dest),
            Str::Ref(s) => encode_byte_payload(s.as_bytes(), dest),
        }
        dest.len() - before
    }

    fn decode_bin(src: &[u8], pos: usize) -> (r: Result<(Self, usize), Error>)
        ensures
            r matches Err(e) ==> e.is_decode_error(),
    {
        match String::decode_bin(src, pos) {
            Ok((s, p)) => {
                let v = Str::Owned(s);
                Ok((v, p))
            },
            Err(e) => Err(e),
        }
    }
}

/// A byte-buffer payload, either owned or borrowed. Its framing is the
/// string encoding without the UTF-8 validity requirement.
pub enum Bytes<'a> {
    Owned(Vec<u8>),
    Ref(&'a [u8]),
}

impl<'a> DeepView for Bytes<'a> {
    type V = Seq<u8>;

    open spec fn deep_view(&self) -> Seq<u8> {
        match self {
            Bytes::Owned(b) => b@,
            Bytes::Ref(b) => b@,
        }
    }
}

impl<'a> Type for Bytes<'a> {
    open spec fn wf(&self) -> bool {
        true
    }

    open spec fn enc(&self) -> Seq<u8> {
        bytes_enc(self.deep_view())
    }

    fn encode_bin(&self, dest: &mut Vec<u8>) -> (n: usize) {
        let before = dest.len();
        match self {
            Bytes::Owned(b) => encode_byte_payload(b.as_slice(), dest),
            Bytes::Ref(b) => encode_byte_payload(b, dest),
        }
        dest.len() - before
    }

    fn decode_bin(src: &[u8], pos: usize) -> (r: Result<(Self, usize), Error>)
        ensures
            r matches Err(e) ==> e.is_decode_error(),
    {
        let ghost rest = src@.skip(pos as int);
        match decode_byte_payload(src, pos) {
            Ok((b, p)) => {
                let ghost bv = b@;
                let v = Bytes::Owned(b);
                proof {
                    crate::codec::lemma_consumed_is_prefix(src@, pos as int, p as int);
                    assert forall|w: Bytes<'a>|
                        w.wf() && #[trigger] prefix_of(w.enc(), rest) implies (v.deep_view()
                        == w.deep_view() && p == pos + w.enc().len()) by {
                        lemma_bytes_enc_prefix_unique(w.deep_view(), bv, rest);
                    }
                }
                Ok((v, p))
            },
            Err(e) => {
                proof {
                    assert forall|w: Bytes<'a>|
                        !(w.wf() && #[trigger] prefix_of(w.enc(), rest)) by {
                        if prefix_of(w.enc(), rest) {
                            assert(prefix_of(bytes_enc(w.deep_view()), rest));
                        }
                    }
                }
                Err(e)
            },
        }
    }
}

/// An array payload, either owned or borrowed. It encodes as the sequence
/// of its elements.
pub enum Array<'a, T> {
    Owned(Vec<T>),
    Ref(&'a [T]),
}

impl<'a, T: Type> Array<'a, T> {
    /// The elements, as one sequence whichever side owns them.
    pub open spec fn elems(&self) -> Seq<T> {
        match self {
            Array::Owned(v) => v@,
            Array::Ref(s) => s@,
        }
    }

    /// True when the array has no elements.
    pub fn is_empty(&self) -> (r: bool)
        ensures
            r == (self.elems().len() == 0),
    {
        match self {
            Array::Owned(v) => v.len() == 0,
            Array::Ref(s) => s.is_empty(),
        }
    }

    /// How many elements the array holds.
    pub fn len(&self) -> (r: usize)
        ensures
            r == self.elems().len(),
    {
        match self {
            Array::Owned(v) => v.len(),
            Array::Ref(s) => s.len(),
        }
    }
}

impl<'a, T: Type> DeepView for Array<'a, T> {
    type V = Seq<T::V>;

    open spec fn deep_view(&self) -> Seq<T::V> {
        seq_deep(self.elems())
    }
}

impl<'a, T: Type> Type for Array<'a, T> {
    open spec fn wf(&self) -> bool {
        elems_wf(self.elems())
    }

    open spec fn enc(&self) -> Seq<u8> {
        seq_enc(self.elems())
    }

    fn encode_bin(&self, dest: &mut Vec<u8>) -> (n: usize) {
        let before = dest.len();
        match self {
            Array::Owned(v) => {
                v.encode_bin(dest);
            },
            Array::Ref(s) => {
                encode_varint(s.len() as u64, dest);
                let mut i: usize = 0;
                proof {
                    assert(s@.take(0) =~= Seq::<T>::empty());
                    assert(dest@ =~= old(dest)@ + (varint_enc(s@.len() as nat) + enc_elems(
                        s@.take(0),
                    )));
                }
                while i < s.len()
                    invariant
                        i <= s@.len(),
                        elems_wf(s@),
                        old(dest)@.len() + seq_enc(s@).len() <= usize::MAX,
                        dest@ == old(dest)@ + (varint_enc(s@.len() as nat) + enc_elems(
                            s@.take(i as int),
                        )),
                    decreases s@.len() - i,
                {
                    proof {
                        lemma_enc_elems_decompose(s@, i as int);
                    }
                    s[i].encode_bin(dest);
                    proof {
                        assert(s@.take(i + 1) =~= s@.take(i as int).push(s@[i as int]));
                        lemma_enc_elems_push(s@.take(i as int), s@[i as int]);
                        assert(dest@ =~= old(dest)@ + (varint_enc(s@.len() as nat) + enc_elems(
                            s@.take(i + 1),
                        )));
                    }
                    i = i + 1;
                }
                proof {
                    assert(s@.take(s@.len() as int) =~= s@);
                }
            },
        }
        dest.len() - before
    }

    fn decode_bin(src: &[u8], pos: usize) -> (r: Result<(Self, usize), Error>) {
        let ghost rest = src@.skip(pos as int);
        match Vec::<T>::decode_bin(src, pos) {
            Ok((v, p)) => {
                let out = Array::Owned(v);
                proof {
                    assert forall|w: Array<'a, T>|
                        w.wf() && #[trigger] prefix_of(w.enc(), rest) implies (out.deep_view()
                        == w.deep_view() && p == pos + w.enc().len()) by {
                        lemma_array_elems_bounded(w);
                        assert(out.deep_view() =~= w.deep_view());
                    }
                }
                Ok((out, p))
            },
            Err(e) => {
                proof {
                    assert forall|w: Array<'a, T>|
                        !(w.wf() && #[trigger] prefix_of(w.enc(), rest)) by {
                        if w.wf() && prefix_of(w.enc(), rest) {
                            lemma_array_elems_bounded(w);
                        }
                    }
                }
                Err(e)
            },
        }
    }
}

/// Whichever side owns the elements, they sit in memory, so their number is
/// bounded by the address space.
proof fn lemma_array_elems_bounded<'a, T: Type>(a: Array<'a, T>)
    ensures
        a.elems().len() <= usize::MAX,
{
    match a {
        Array::Owned(v) => {
            assert(vstd::std_specs::vec::spec_vec_len(&v) == v@.len());
        },
        Array::Ref(s) => {
            assert(vstd::slice::spec_slice_len(s) == s@.len());
        },
    }
}

} // verus!

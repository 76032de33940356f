//! The structural codec interface.
//!
//! Every encodable value has one canonical byte encoding, given by the spec
//! function [`Type::enc`]. Decoding is the exact inverse: it succeeds on a
//! stream precisely when the stream starts with the encoding of some
//! well-formed value, consumes exactly those bytes, and returns that value.
//! Two types with the same shape produce indistinguishable bytes; both ends
//! of a connection must agree on the expected type out of band.

use vstd::prelude::*;

use crate::error::Error;

verus! {

/// `p` is an initial segment of `s`.
pub open spec fn prefix_of(p: Seq<u8>, s: Seq<u8>) -> bool {
    p.len() <= s.len() && p == s.subrange(0, p.len() as int)
}

/// A type with a canonical binary encoding.
pub trait Type: Sized + DeepView {
    /// The values the codec is defined on.
    spec fn wf(&self) -> bool;

    /// The canonical byte encoding of `self`.
    spec fn enc(&self) -> Seq<u8>;

    /// Appends the encoding of `self` to `dest` and returns how many bytes
    /// were written.
    fn encode_bin(&self, dest: &mut Vec<u8>) -> (n: usize)
        requires
            self.wf(),
            old(dest)@.len() + self.enc().len() <= usize::MAX,
        ensures
            final(dest)@ == old(dest)@ + self.enc(),
            n as int == self.enc().len(),
    ;

    /// Decodes the value whose encoding starts at `src[pos]`, returning it
    /// with the position just past its encoding.
    ///
    /// The two clauses say, together, that decoding is the exact inverse of
    /// encoding. First, a successful decode consumed exactly the bytes
    /// `src[pos..vp.1]` and they are the canonical encoding of the
    /// well-formed value returned. Second, whenever the stream continues
    /// with the encoding of some well-formed value `w`, decoding succeeds,
    /// stops exactly after `w`'s encoding, and returns a value
    /// indistinguishable from `w`; so an error is returned precisely when no
    /// well-formed value's encoding starts at `pos`.
    fn decode_bin(src: &[u8], pos: usize) -> (r: Result<(Self, usize), Error>)
        requires
            pos <= src@.len(),
        ensures
            r matches Ok(vp) ==> {
                &&& pos <= vp.1 <= src@.len()
                &&& vp.0.wf()
                &&& vp.0.enc() == src@.subrange(pos as int, vp.1 as int)
            },
            forall|w: Self|
                w.wf() && #[trigger] prefix_of(w.enc(), src@.skip(pos as int)) ==> match r {
                    Ok(vp) => vp.0.deep_view() == w.deep_view() && vp.1 == pos + w.enc().len(),
                    Err(_) => false,
                },
    ;
}

/// A prefix that is a concatenation splits into a prefix and a prefix of the
/// rest of the stream.
pub proof fn lemma_prefix_split(a: Seq<u8>, b: Seq<u8>, s: Seq<u8>)
    requires
        prefix_of(a + b, s),
    ensures
        prefix_of(a, s),
        prefix_of(b, s.skip(a.len() as int)),
{
    let c = a + b;
    assert(a =~= s.subrange(0, a.len() as int));
    assert forall|i: int| 0 <= i < b.len() implies b[i] == s.skip(a.len() as int)[i] by {
        assert(b[i] == c[a.len() + i]);
        assert(c[a.len() + i] == s.subrange(0, c.len() as int)[a.len() + i]);
    }
    assert(b =~= s.skip(a.len() as int).subrange(0, b.len() as int));
}

/// The bytes a sound decoder consumed are a prefix of the remaining stream.
pub proof fn lemma_consumed_is_prefix(src: Seq<u8>, pos: int, p: int)
    requires
        0 <= pos <= p <= src.len(),
    ensures
        prefix_of(src.subrange(pos, p), src.skip(pos)),
{
    assert(src.subrange(pos, p) =~= src.skip(pos).subrange(0, p - pos));
}

/// Round trip: for every well-formed value, decoding its encoding gives
/// back a value indistinguishable from it, consuming the whole buffer.
pub fn round_trip<T: Type>(v: &T) -> (r: (T, usize))
    requires
        v.wf(),
        v.enc().len() <= usize::MAX,
    ensures
        r.0.deep_view() == v.deep_view(),
        r.0.wf(),
        r.1 == v.enc().len(),
{
    let mut buf: Vec<u8> = Vec::new();
    v.encode_bin(&mut buf);
    proof {
        assert(buf@.skip(0) =~= buf@);
        assert(buf@.subrange(0, buf@.len() as int) =~= buf@);
        assert(prefix_of(v.enc(), buf@.skip(0)));
    }
    match T::decode_bin(buf.as_slice(), 0) {
        Ok((w, p)) => (w, p),
        Err(_) => {
            proof {
                assert(false);
            }
            vstd::pervasive::unreached()
        },
    }
}

/// Idempotence: re-encoding a decoded value is byte-identical to the bytes
/// it was decoded from — the format admits no alternate valid encodings of
/// one logical value. The second clause obliges success: whenever any
/// well-formed value's encoding starts the stream, the bytes come back.
pub fn reencode<T: Type>(src: &[u8], pos: usize) -> (r: Option<Vec<u8>>)
    requires
        pos <= src@.len(),
    ensures
        match r {
            Some(b) => {
                &&& pos + b@.len() <= src@.len()
                &&& b@ == src@.subrange(pos as int, pos + b@.len())
            },
            None => true,
        },
        forall|w: T|
            w.wf() && #[trigger] prefix_of(w.enc(), src@.skip(pos as int)) ==> match r {
                Some(b) => b@ == w.enc(),
                None => false,
            },
{
    match T::decode_bin(src, pos) {
        Ok((v, p)) => {
            let mut out: Vec<u8> = Vec::new();
            v.encode_bin(&mut out);
            proof {
                assert(out@ =~= v.enc());
                assert forall|w: T|
                    w.wf() && #[trigger] prefix_of(w.enc(), src@.skip(pos as int)) implies out@
                    == w.enc() by {
                    assert(w.enc() =~= src@.subrange(pos as int, pos + w.enc().len()));
                }
            }
            Some(out)
        },
        Err(_) => None,
    }
}

/// Skipping twice is one longer skip.
pub proof fn lemma_skip_skip(s: Seq<u8>, a: int, b: int)
    requires
        0 <= a,
        0 <= b,
        a + b <= s.len(),
    ensures
        s.skip(a).skip(b) == s.skip(a + b),
{
    assert(s.skip(a).skip(b) =~= s.skip(a + b));
}

} // verus!

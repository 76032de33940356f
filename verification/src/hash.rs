//! Fixed-width hash digests. The width is fixed by the algorithm, so a hash
//! travels as its raw bytes with no length prefix; construction fails when
//! the input does not match the algorithm's width.

use vstd::prelude::*;

use crate::codec::{prefix_of, Type};
use crate::error::Error;

verus! {

/// A digest of exactly `W` bytes.
pub struct Hash<const W: usize> {
    pub bytes: Vec<u8>,
}

impl<const W: usize> DeepView for Hash<W> {
    type V = Seq<u8>;

    open spec fn deep_view(&self) -> Seq<u8> {
        self.bytes@
    }
}

impl<const W: usize> Type for Hash<W> {
    open spec fn wf(&self) -> bool {
        self.bytes@.len() == W
    }

    open spec fn enc(&self) -> Seq<u8> {
        self.bytes@
    }

    fn encode_bin(&self, dest: &mut Vec<u8>) -> (n: usize) {
        let m = self.bytes.len();
        let mut i: usize = 0;
        proof {
            assert(dest@ =~= old(dest)@ + self.bytes@.take(0));
        }
        #[verifier::loop_isolation(false)]
        while i < m
            invariant
                i <= m,
                dest@ == old(dest)@ + self.bytes@.take(i as int),
            decreases m - i,
        {
            dest.push(self.bytes[i]);
            proof {
                assert(dest@ =~= old(dest)@ + self.bytes@.take(i + 1));
            }
            i = i + 1;
        }
        proof {
            assert(self.bytes@.take(m as int) =~= self.bytes@);
        }
        m
    }

    fn decode_bin(src: &[u8], pos: usize) -> (r: Result<(Self, usize), Error>) {
        let ghost rest = src@.skip(pos as int);
        if src.len() - pos < W {
            let r: Result<(Hash<W>, usize), Error> = Err(Error::UnexpectedEof);
            proof {
                assert forall|w: Hash<W>| !(w.wf() && #[trigger] prefix_of(w.enc(), rest)) by {}
            }
            return r;
        }
        let bytes = vstd::slice::slice_to_vec(vstd::slice::slice_subrange(src, pos, pos + W));
        let v = Hash::<W> { bytes };
        proof {
            assert(v.enc() =~= src@.subrange(pos as int, pos + W as int));
            assert forall|w: Hash<W>|
                w.wf() && #[trigger] prefix_of(w.enc(), rest) implies (v.deep_view()
                == w.deep_view() && pos + W == pos + w.enc().len()) by {
                assert(w.enc() =~= src@.subrange(pos as int, pos + W as int));
            }
        }
        Ok((v, pos + W))
    }
}

impl<const W: usize> Hash<W> {
    /// Wraps a digest; fails unless the buffer is exactly the algorithm's
    /// width.
    pub fn new(bytes: Vec<u8>) -> (r: Result<Hash<W>, Error>)
        ensures
            match r {
                Ok(h) => bytes@.len() == W && h.bytes@ == bytes@,
                Err(e) => bytes@.len() != W && e matches Error::InvalidEncoding,
            },
    {
        if bytes.len() == W {
            Ok(Hash { bytes })
        } else {
            Err(Error::InvalidEncoding)
        }
    }

    /// The digest bytes.
    pub fn as_slice(&self) -> (r: &[u8])
        ensures
            r@ == self.bytes@,
    {
        self.bytes.as_slice()
    }
}

} // verus!

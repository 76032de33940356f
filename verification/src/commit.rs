//! Commits: one node in the store's history graph. A commit names a tree by
//! hash, lists the hashes of its parents (none for a root commit, several
//! for a merge), and carries its metadata. The three parts are concatenated
//! on the wire in that order.

use vstd::prelude::*;

use crate::codec::{prefix_of, Type};
use crate::composite::elems_wf;
use crate::error::Error;
use crate::info::Info;

verus! {

/// One node in the history graph, generic over the hash type.
pub struct Commit<H> {
    pub node: H,
    pub parents: Vec<H>,
    pub info: Info,
}

impl<H: Type> DeepView for Commit<H> {
    type V = (H::V, Seq<H::V>, (i64, Seq<char>, Seq<char>));

    open spec fn deep_view(&self) -> (H::V, Seq<H::V>, (i64, Seq<char>, Seq<char>)) {
        (self.node.deep_view(), self.parents.deep_view(), self.info.deep_view())
    }
}

impl<H: Type> Type for Commit<H> {
    open spec fn wf(&self) -> bool {
        self.node.wf() && elems_wf(self.parents@)
    }

    open spec fn enc(&self) -> Seq<u8> {
        self.node.enc() + self.parents.enc() + self.info.enc()
    }

    fn encode_bin(&self, dest: &mut Vec<u8>) -> (n: usize) {
        let n0 = self.node.encode_bin(dest);
        let n1 = self.parents.encode_bin(dest);
        let n2 = self.info.encode_bin(dest);
        proof {
            assert(final(dest)@ =~= old(dest)@ + self.enc());
        }
        n0 + n1 + n2
    }

    fn decode_bin(src: &[u8], pos: usize) -> (r: Result<(Self, usize), Error>) {
        let ghost rest = src@.skip(pos as int);
        match <(H, Vec<H>, Info)>::decode_bin(src, pos) {
            Ok(((node, parents, info), p)) => {
                let v = Commit { node, parents, info };
                proof {
                    assert forall|w: Commit<H>|
                        w.wf() && #[trigger] prefix_of(w.enc(), rest) implies (v.deep_view()
                        == w.deep_view() && p == pos + w.enc().len()) by {
                        let wt = (w.node, w.parents, w.info);
                        assert(wt.wf());
                        assert(prefix_of(wt.enc(), rest));
                    }
                }
                Ok((v, p))
            },
            Err(e) => {
                proof {
                    assert forall|w: Commit<H>|
                        !(w.wf() && #[trigger] prefix_of(w.enc(), rest)) by {
                        if w.wf() && prefix_of(w.enc(), rest) {
                            let wt = (w.node, w.parents, w.info);
                            assert(wt.wf());
                            assert(prefix_of(wt.enc(), rest));
                        }
                    }
                }
                Err(e)
            },
        }
    }
}

impl<H: Type> Commit<H> {
    /// Assembles a commit from its parts.
    pub fn new(node: H, parents: Vec<H>, info: Info) -> (r: Commit<H>)
        ensures
            r.node == node,
            r.parents == parents,
            r.info.deep_view() == info.deep_view(),
    {
        Commit { node, parents, info }
    }

    /// The hash of the tree this commit points at.
    pub fn node(&self) -> (r: &H)
        ensures
            r == self.node,
    {
        &self.node
    }

    /// The hashes of the parent commits.
    pub fn parents(&self) -> (r: &Vec<H>)
        ensures
            r == self.parents,
    {
        &self.parents
    }

    /// The commit metadata.
    pub fn info(&self) -> (r: &Info)
        ensures
            r.deep_view() == self.info.deep_view(),
    {
        &self.info
    }
}

} // verus!

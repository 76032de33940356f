//! Paths (keys) into the store: an ordered sequence of non-empty string
//! segments. A path of length zero denotes the store root. On the wire a
//! path is the sequence encoding of its segments.

use vstd::prelude::*;
use vstd::seq_lib::*;
use vstd::string::StringExecFns;

use crate::codec::{prefix_of, Type};
use crate::composite::elems_wf;
use crate::error::Error;

verus! {

/// A key into the store: non-empty string segments, root when empty.
pub struct Path {
    pub segments: Vec<String>,
}

impl DeepView for Path {
    type V = Seq<Seq<char>>;

    open spec fn deep_view(&self) -> Seq<Seq<char>> {
        self.segments.deep_view()
    }
}

/// No segment of a path may be the empty string.
pub open spec fn segments_nonempty(s: Seq<Seq<char>>) -> bool {
    forall|i: int| 0 <= i < s.len() ==> #[trigger] s[i].len() != 0
}

impl Type for Path {
    open spec fn wf(&self) -> bool {
        segments_nonempty(self.deep_view())
    }

    open spec fn enc(&self) -> Seq<u8> {
        self.segments.enc()
    }

    fn encode_bin(&self, dest: &mut Vec<u8>) -> (n: usize) {
        proof {
            assert(elems_wf(self.segments@));
        }
        self.segments.encode_bin(dest)
    }

    /// Beyond the codec contract: when a valid segment-vector encoding is
    /// present but a segment is empty, the error is `InvalidEncoding`.
    #[verifier::loop_isolation(false)]
    fn decode_bin(src: &[u8], pos: usize) -> (r: Result<(Self, usize), Error>)
        ensures
            forall|v: Vec<String>|
                v.wf() && #[trigger] prefix_of(v.enc(), src@.skip(pos as int)) ==> match r {
                    Ok(_) => true,
                    Err(e) => e matches Error::InvalidEncoding,
                },
    {
        let ghost rest = src@.skip(pos as int);
        match Vec::<String>::decode_bin(src, pos) {
            Ok((segments, p)) => {
                let mut i: usize = 0;
                let n = segments.len();
                while i < n
                    invariant
                        i <= n,
                        n == segments@.len(),
                        forall|j: int| 0 <= j < i ==> #[trigger] segments@[j]@.len() != 0,
                    decreases n - i,
                {
                    if segments[i].as_str().is_empty() {
                        let r: Result<(Path, usize), Error> = Err(Error::InvalidEncoding);
                        proof {
                            assert forall|w: Path|
                                !(w.wf() && #[trigger] prefix_of(w.enc(), rest)) by {
                                if w.wf() && prefix_of(w.enc(), rest) {
                                    assert(w.segments.wf());
                                    assert(prefix_of(w.segments.enc(), rest));
                                    assert(segments.deep_view() == w.segments.deep_view());
                                    assert(w.deep_view()[i as int].len() != 0);
                                }
                            }
                        }
                        return r;
                    }
                    i = i + 1;
                }
                let v = Path { segments };
                proof {
                    assert forall|w: Path|
                        w.wf() && #[trigger] prefix_of(w.enc(), rest) implies (v.deep_view()
                        == w.deep_view() && p == pos + w.enc().len()) by {
                        assert(w.segments.wf());
                        assert(prefix_of(w.segments.enc(), rest));
                        assert(v.deep_view() =~= w.deep_view());
                    }
                }
                Ok((v, p))
            },
            Err(e) => {
                proof {
                    assert forall|w: Path| !(w.wf() && #[trigger] prefix_of(w.enc(), rest)) by {
                        if w.wf() && prefix_of(w.enc(), rest) {
                            assert(w.segments.wf() && prefix_of(w.segments.enc(), rest));
                        }
                    }
                    assert forall|v: Vec<String>|
                        !(v.wf() && #[trigger] prefix_of(v.enc(), rest)) by {}
                }
                Err(e)
            },
        }
    }
}

impl Path {
    /// Builds a path from segments, dropping the empty ones.
    #[verifier::loop_isolation(false)]
    pub fn new(segments: Vec<String>) -> (r: Path)
        ensures
            r.deep_view() == segments.deep_view().filter(|s: Seq<char>| s.len() != 0),
            r.wf(),
    {
        let mut out: Vec<String> = Vec::new();
        let mut i: usize = 0;
        let n = segments.len();
        proof {
            assert(segments.deep_view().take(0) =~= Seq::<Seq<char>>::empty());
            reveal_with_fuel(Seq::filter, 2);
        }
        while i < n
            invariant
                i <= n,
                n == segments@.len(),
                out.deep_view() == segments.deep_view().take(i as int).filter(
                    |s: Seq<char>| s.len() != 0,
                ),
                segments_nonempty(out.deep_view()),
            decreases n - i,
        {
            let ghost pre = segments.deep_view().take(i as int);
            let ghost po = out.deep_view();
            let s = segments[i].clone();
            let ghost sv = s@;
            if !s.as_str().is_empty() {
                out.push(s);
            }
            proof {
                reveal(Seq::filter);
                assert(segments.deep_view().take(i + 1) =~= pre.push(sv));
                assert(pre.push(sv).drop_last() =~= pre);
                assert(pre.push(sv).last() == sv);
                if sv.len() != 0 {
                    assert(out.deep_view() =~= po.push(sv));
                }
            }
            i = i + 1;
        }
        proof {
            assert(segments.deep_view().take(n as int) =~= segments.deep_view());
        }
        Path { segments: out }
    }

    /// Whether every segment is non-empty, as the codec requires; callers
    /// outside the proof boundary test this before encoding a path they did
    /// not obtain from this library.
    pub fn is_valid(&self) -> (r: bool)
        ensures
            r == self.wf(),
    {
        let mut i: usize = 0;
        let n = self.segments.len();
        #[verifier::loop_isolation(false)]
        while i < n
            invariant
                i <= n,
                n == self.segments@.len(),
                forall|j: int| 0 <= j < i ==> #[trigger] self.segments@[j]@.len() != 0,
            decreases n - i,
        {
            if self.segments[i].as_str().is_empty() {
                proof {
                    assert(self.deep_view()[i as int].len() == 0);
                }
                return false;
            }
            i = i + 1;
        }
        proof {
            assert forall|j: int| 0 <= j < self.deep_view().len() implies #[trigger] self.deep_view()[j].len() != 0 by {
                assert(self.segments@[j]@.len() != 0);
            }
        }
        true
    }

    /// The root path.
    pub fn empty() -> (r: Path)
        ensures
            r.deep_view().len() == 0,
            r.wf(),
    {
        Path { segments: Vec::new() }
    }

    /// How many segments the path has; zero names the store root.
    pub fn len(&self) -> (r: usize)
        ensures
            r == self.deep_view().len(),
    {
        self.segments.len()
    }

    /// True for the store root.
    pub fn is_empty(&self) -> (r: bool)
        ensures
            r == (self.deep_view().len() == 0),
    {
        self.segments.len() == 0
    }

    /// The path with the last segment removed; `None` at the root.
    #[verifier::loop_isolation(false)]
    pub fn parent(&self) -> (r: Option<Path>)
        requires
            self.wf(),
        ensures
            match r {
                Some(p) => self.deep_view().len() != 0 && p.deep_view()
                    == self.deep_view().drop_last() && p.wf(),
                None => self.deep_view().len() == 0,
            },
    {
        let n = self.segments.len();
        if n == 0 {
            return None;
        }
        let mut out: Vec<String> = Vec::new();
        let mut i: usize = 0;
        while i < n - 1
            invariant
                self.wf(),
                i <= n - 1,
                n == self.segments@.len(),
                out.deep_view() == self.deep_view().take(i as int),
            decreases n - i,
        {
            let ghost po = out.deep_view();
            out.push(self.segments[i].clone());
            proof {
                assert(out.deep_view() =~= self.deep_view().take(i + 1));
            }
            i = i + 1;
        }
        let p = Path { segments: out };
        proof {
            assert(p.deep_view() =~= self.deep_view().drop_last());
        }
        Some(p)
    }

    /// The path extended by one segment; an empty segment is dropped, as on
    /// construction.
    pub fn append(&self, segment: String) -> (r: Path)
        requires
            self.wf(),
        ensures
            segment@.len() != 0 ==> r.deep_view() == self.deep_view().push(segment@),
            segment@.len() == 0 ==> r.deep_view() == self.deep_view(),
            r.wf(),
    {
        let mut out = clone_segments(&self.segments);
        if !segment.as_str().is_empty() {
            out.push(segment);
        }
        let r = Path { segments: out };
        proof {
            if segment@.len() != 0 {
                assert(r.deep_view() =~= self.deep_view().push(segment@));
            } else {
                assert(r.deep_view() =~= self.deep_view());
            }
        }
        r
    }

    /// The two paths joined, this one's segments first.
    #[verifier::loop_isolation(false)]
    pub fn append_path(&self, other: &Path) -> (r: Path)
        requires
            self.wf(),
            other.wf(),
        ensures
            r.deep_view() == self.deep_view() + other.deep_view(),
            r.wf(),
    {
        let mut out = clone_segments(&self.segments);
        let mut i: usize = 0;
        let n = other.segments.len();
        while i < n
            invariant
                self.wf(),
                other.wf(),
                i <= n,
                n == other.segments@.len(),
                out.deep_view() == self.deep_view() + other.deep_view().take(i as int),
            decreases n - i,
        {
            let ghost po = out.deep_view();
            out.push(other.segments[i].clone());
            proof {
                assert(out.deep_view() =~= po.push(other.deep_view()[i as int]));
                assert(po.push(other.deep_view()[i as int]) =~= self.deep_view()
                    + other.deep_view().take(i + 1));
            }
            i = i + 1;
        }
        let r = Path { segments: out };
        proof {
            assert(r.deep_view() =~= self.deep_view() + other.deep_view());
        }
        r
    }
}

/// A copy of a segment vector with the same characters in each segment.
#[verifier::loop_isolation(false)]
pub fn clone_segments(v: &Vec<String>) -> (r: Vec<String>)
    ensures
        r.deep_view() == v.deep_view(),
{
    let mut out: Vec<String> = Vec::new();
    let mut i: usize = 0;
    let n = v.len();
    while i < n
        invariant
            i <= n,
            n == v@.len(),
            out.deep_view() == v.deep_view().take(i as int),
        decreases n - i,
    {
        out.push(v[i].clone());
        proof {
            assert(out.deep_view() =~= v.deep_view().take(i + 1));
        }
        i = i + 1;
    }
    proof {
        assert(out.deep_view() =~= v.deep_view());
    }
    out
}

} // verus!

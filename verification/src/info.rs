//! Commit metadata: a date in seconds since the epoch, an author and a
//! message. On the wire the three fields are concatenated in that order,
//! with no tag.

use vstd::prelude::*;

use crate::codec::{prefix_of, Type};
use crate::error::Error;

verus! {

/// Metadata attached to each write: when, who, why.
pub struct Info {
    pub date: i64,
    pub author: String,
    pub message: String,
}

impl DeepView for Info {
    type V = (i64, Seq<char>, Seq<char>);

    open spec fn deep_view(&self) -> (i64, Seq<char>, Seq<char>) {
        (self.date, self.author@, self.message@)
    }
}

impl Type for Info {
    open spec fn wf(&self) -> bool {
        true
    }

    open spec fn enc(&self) -> Seq<u8> {
        self.date.enc() + self.author.enc() + self.message.enc()
    }

    fn encode_bin(&self, dest: &mut Vec<u8>) -> (n: usize) {
        let n0 = self.date.encode_bin(dest);
        let n1 = self.author.encode_bin(dest);
        let n2 = self.message.encode_bin(dest);
        proof {
            assert(final(dest)@ =~= old(dest)@ + self.enc());
        }
        n0 + n1 + n2
    }

    fn decode_bin(src: &[u8], pos: usize) -> (r: Result<(Self, usize), Error>) {
        let ghost rest = src@.skip(pos as int);
        match <(i64, String, String)>::decode_bin(src, pos) {
            Ok(((date, author, message), p)) => {
                let v = Info { date, author, message };
                proof {
                    assert forall|w: Info|
                        w.wf() && #[trigger] prefix_of(w.enc(), rest) implies (v.deep_view()
                        == w.deep_view() && p == pos + w.enc().len()) by {
                        let wt = (w.date, w.author, w.message);
                        assert(wt.wf());
                        assert(prefix_of(wt.enc(), rest));
                    }
                }
                Ok((v, p))
            },
            Err(e) => {
                proof {
                    assert forall|w: Info| !(w.wf() && #[trigger] prefix_of(w.enc(), rest)) by {
                        if w.wf() && prefix_of(w.enc(), rest) {
                            let wt = (w.date, w.author, w.message);
                            assert(wt.wf());
                            assert(prefix_of(wt.enc(), rest));
                        }
                    }
                }
                Err(e)
            },
        }
    }
}

impl Info {
    /// Fresh metadata for one write operation.
    pub fn new(date: i64, author: String, message: String) -> (r: Info)
        ensures
            r.date == date,
            r.author@ == author@,
            r.message@ == message@,
    {
        Info { date, author, message }
    }

    /// The commit date, in seconds since the epoch.
    pub fn date(&self) -> (r: i64)
        ensures
            r == self.date,
    {
        self.date
    }

    /// The author line.
    pub fn author(&self) -> (r: &String)
        ensures
            r@ == self.author@,
    {
        &self.author
    }

    /// The message line.
    pub fn message(&self) -> (r: &String)
        ensures
            r@ == self.message@,
    {
        &self.message
    }
}

} // verus!

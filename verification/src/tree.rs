//! Concrete trees: the fully materialized sub-trees a client can send
//! inline.
//!
//! A concrete tree is recursively either an ordered-by-key mapping from
//! string segments to sub-trees, or a leaf holding contents. The order is
//! strict byte-wise lexicographic order of the segments' UTF-8 forms, so a
//! segment binds at most once. On the wire a tree is a varint variant tag
//! (0 for a node, 1 for a leaf) followed by the variant's payload; a node's
//! payload is a varint entry count and then each key and sub-tree
//! back-to-back.

use vstd::prelude::*;
use vstd::string::StrSliceExecFns;
use vstd::utf8::encode_utf8;

use crate::codec::{lemma_prefix_split, lemma_skip_skip, prefix_of, Type};
use crate::error::Error;
use crate::text::str_enc;
use crate::varint::{
    decode_varint, encode_varint, lemma_varint_canonical, lemma_varint_prefix, varint_dec,
    varint_enc,
};

verus! {

/// Strict byte-wise lexicographic order.
pub open spec fn lex_lt(a: Seq<u8>, b: Seq<u8>) -> bool
    decreases a.len(),
{
    b.len() != 0 && (a.len() == 0 || a[0] < b[0] || (a[0] == b[0] && lex_lt(
        a.skip(1),
        b.skip(1),
    )))
}

/// Whether `a` orders strictly before `b` byte-wise.
pub fn bytes_lt(a: &[u8], b: &[u8]) -> (r: bool)
    ensures
        r == lex_lt(a@, b@),
{
    let mut i: usize = 0;
    let na = a.len();
    let nb = b.len();
    proof {
        assert(a@.skip(0) =~= a@);
        assert(b@.skip(0) =~= b@);
    }
    #[verifier::loop_isolation(false)]
    while i < na && i < nb && a[i] == b[i]
        invariant
            i <= na,
            i <= nb,
            lex_lt(a@, b@) == lex_lt(a@.skip(i as int), b@.skip(i as int)),
        decreases na - i,
    {
        proof {
            let sa = a@.skip(i as int);
            let sb = b@.skip(i as int);
            assert(sa[0] == sb[0]);
            assert(sa.skip(1) =~= a@.skip(i + 1));
            assert(sb.skip(1) =~= b@.skip(i + 1));
        }
        i = i + 1;
    }
    proof {
        let sa = a@.skip(i as int);
        let sb = b@.skip(i as int);
        if i < na && i < nb {
            assert(sa[0] == a@[i as int] && sb[0] == b@[i as int]);
        }
        if i >= na {
            assert(sa.len() == 0);
        }
        if i >= nb {
            assert(sb.len() == 0);
        }
    }
    if i < na && i < nb {
        a[i] < b[i]
    } else {
        i < nb
    }
}

/// A fully materialized sub-tree: an ordered mapping from segments to
/// sub-trees, or a leaf holding contents.
pub enum ConcreteTree<T> {
    Tree(Vec<(String, ConcreteTree<T>)>),
    Contents(T),
}

/// The shape of a concrete tree, abstracted from how its vectors and
/// strings are held in memory.
#[verifier::ext_equal]
pub enum TreeShape<CV> {
    Node(Seq<(Seq<char>, TreeShape<CV>)>),
    Leaf(CV),
}

/// The canonical encoding of a concrete tree: a varint variant tag, then
/// either the entry sequence or the leaf contents.
pub open spec fn tree_enc<T: Type>(t: ConcreteTree<T>) -> Seq<u8>
    decreases t,
{
    match t {
        ConcreteTree::Tree(entries) => varint_enc(0) + varint_enc(entries@.len() as nat)
            + entries_enc(entries@),
        ConcreteTree::Contents(c) => varint_enc(1) + c.enc(),
    }
}

/// The back-to-back encodings of a node's entries.
pub open spec fn entries_enc<T: Type>(s: Seq<(String, ConcreteTree<T>)>) -> Seq<u8>
    decreases s,
{
    if s.len() == 0 {
        Seq::empty()
    } else {
        str_enc(s[0].0@) + tree_enc(s[0].1) + entries_enc(s.skip(1))
    }
}

/// A node's payload: the entry count, then the entries back-to-back.
#[verifier::opaque]
pub open spec fn node_payload_enc<T: Type>(s: Seq<(String, ConcreteTree<T>)>) -> Seq<u8> {
    varint_enc(s.len() as nat) + entries_enc(s)
}

/// Adjacent entries are in strictly increasing key order.
pub open spec fn keys_sorted<T: Type>(s: Seq<(String, ConcreteTree<T>)>) -> bool {
    forall|i: int|
        0 <= i && i + 1 < s.len() ==> lex_lt(
            encode_utf8(#[trigger] s[i].0@),
            encode_utf8(s[i + 1].0@),
        )
}

/// Well-formedness: every node's entries are sorted, and every leaf's
/// contents are well-formed.
pub open spec fn tree_wf<T: Type>(t: ConcreteTree<T>) -> bool
    decreases t,
{
    match t {
        ConcreteTree::Tree(entries) => keys_sorted(entries@) && entries_wf(entries@),
        ConcreteTree::Contents(c) => c.wf(),
    }
}

/// Every entry's sub-tree is well-formed.
pub open spec fn entries_wf<T: Type>(s: Seq<(String, ConcreteTree<T>)>) -> bool
    decreases s,
{
    if s.len() == 0 {
        true
    } else {
        tree_wf(s[0].1) && entries_wf(s.skip(1))
    }
}

/// The shape of a concrete tree.
pub open spec fn tree_shape<T: Type>(t: ConcreteTree<T>) -> TreeShape<T::V>
    decreases t,
{
    match t {
        ConcreteTree::Tree(entries) => TreeShape::Node(entries_shape(entries@)),
        ConcreteTree::Contents(c) => TreeShape::Leaf(c.deep_view()),
    }
}

/// The shapes of a node's entries.
pub open spec fn entries_shape<T: Type>(s: Seq<(String, ConcreteTree<T>)>) -> Seq<
    (Seq<char>, TreeShape<T::V>),
>
    decreases s,
{
    if s.len() == 0 {
        Seq::empty()
    } else {
        seq![(s[0].0@, tree_shape(s[0].1))] + entries_shape(s.skip(1))
    }
}

impl<T: Type> DeepView for ConcreteTree<T> {
    type V = TreeShape<T::V>;

    open spec fn deep_view(&self) -> TreeShape<T::V> {
        tree_shape(*self)
    }
}

/// Appending an entry appends its key's and sub-tree's encodings.
proof fn lemma_entries_enc_push<T: Type>(s: Seq<(String, ConcreteTree<T>)>, e: (
    String,
    ConcreteTree<T>,
))
    ensures
        entries_enc(s.push(e)) == entries_enc(s) + (str_enc(e.0@) + tree_enc(e.1)),
    decreases s.len(),
{
    if s.len() == 0 {
        assert(s.push(e)[0] == e);
        assert(s.push(e).skip(1) =~= Seq::<(String, ConcreteTree<T>)>::empty());
        assert(entries_enc(s.push(e)) == str_enc(s.push(e)[0].0@) + tree_enc(s.push(e)[0].1)
            + entries_enc(s.push(e).skip(1)));
        assert(entries_enc(s.push(e).skip(1)) == Seq::<u8>::empty());
        assert(entries_enc(s.push(e)) =~= entries_enc(s) + (str_enc(e.0@) + tree_enc(e.1)));
    } else {
        assert(s.push(e).skip(1) =~= s.skip(1).push(e));
        lemma_entries_enc_push(s.skip(1), e);
        assert(s.push(e)[0] == s[0]);
        assert(entries_enc(s.push(e)) =~= entries_enc(s) + (str_enc(e.0@) + tree_enc(e.1)));
    }
}

/// Appending an entry appends its shape.
proof fn lemma_entries_shape_push<T: Type>(s: Seq<(String, ConcreteTree<T>)>, e: (
    String,
    ConcreteTree<T>,
))
    ensures
        entries_shape(s.push(e)) == entries_shape(s).push((e.0@, tree_shape(e.1))),
    decreases s.len(),
{
    if s.len() == 0 {
        assert(s.push(e)[0] == e);
        assert(s.push(e).skip(1) =~= Seq::<(String, ConcreteTree<T>)>::empty());
        assert(entries_shape(s.push(e)) == seq![(s.push(e)[0].0@, tree_shape(s.push(e)[0].1))]
            + entries_shape(s.push(e).skip(1)));
        assert(entries_shape(s.push(e).skip(1)) == Seq::<(Seq<char>, TreeShape<T::V>)>::empty());
        assert(entries_shape(s.push(e)) =~= entries_shape(s).push((e.0@, tree_shape(e.1))));
    } else {
        assert(s.push(e).skip(1) =~= s.skip(1).push(e));
        lemma_entries_shape_push(s.skip(1), e);
        assert(s.push(e)[0] == s[0]);
        assert(entries_shape(s.push(e)) =~= entries_shape(s).push((e.0@, tree_shape(e.1))));
    }
}

/// An entry list's encoding splits at any entry.
proof fn lemma_entries_enc_decompose<T: Type>(s: Seq<(String, ConcreteTree<T>)>, i: int)
    requires
        0 <= i < s.len(),
    ensures
        entries_enc(s) == entries_enc(s.take(i)) + (str_enc(s[i].0@) + tree_enc(s[i].1))
            + entries_enc(s.skip(i + 1)),
    decreases i,
{
    if i == 0 {
        assert(entries_enc(s.take(0)) =~= Seq::<u8>::empty());
        assert(entries_enc(s) =~= entries_enc(s.take(0)) + (str_enc(s[0].0@) + tree_enc(s[0].1))
            + entries_enc(s.skip(1)));
    } else {
        lemma_entries_enc_decompose(s.skip(1), i - 1);
        assert(s.skip(1).take(i - 1) =~= s.take(i).skip(1));
        assert(s.skip(1)[i - 1] == s[i]);
        assert(s.skip(1).skip(i) =~= s.skip(i + 1));
        assert(s.take(i)[0] == s[0]);
        assert(entries_enc(s.take(i)) == str_enc(s.take(i)[0].0@) + tree_enc(s.take(i)[0].1)
            + entries_enc(s.take(i).skip(1)));
        assert(entries_enc(s) =~= entries_enc(s.take(i)) + (str_enc(s[i].0@) + tree_enc(s[i].1))
            + entries_enc(s.skip(i + 1)));
    }
}

/// Every shape in an entry list matches the entry it came from.
proof fn lemma_entries_shape_index<T: Type>(s: Seq<(String, ConcreteTree<T>)>, i: int)
    requires
        0 <= i < s.len(),
    ensures
        entries_shape(s).len() == s.len(),
        entries_shape(s)[i] == (s[i].0@, tree_shape(s[i].1)),
    decreases i,
{
    lemma_entries_shape_len(s);
    if i == 0 {
    } else {
        lemma_entries_shape_index(s.skip(1), i - 1);
        assert(s.skip(1)[i - 1] == s[i]);
    }
}

proof fn lemma_entries_shape_len<T: Type>(s: Seq<(String, ConcreteTree<T>)>)
    ensures
        entries_shape(s).len() == s.len(),
    decreases s.len(),
{
    if s.len() != 0 {
        lemma_entries_shape_len(s.skip(1));
    }
}

/// A well-formed tree's wire tag is the varint at the front of its
/// encoding: 0 for a node, 1 for a leaf, and past it the variant's payload
/// encoding continues the stream.
proof fn lemma_tree_witness_head<T: Type>(w: ConcreteTree<T>, src: Seq<u8>, pos: int)
    requires
        0 <= pos <= src.len(),
        prefix_of(tree_enc(w), src.skip(pos)),
    ensures
        match w {
            ConcreteTree::Tree(entries) => {
                &&& varint_dec(src.skip(pos)) == Some((0nat, 1int))
                &&& pos + 1 <= src.len()
                &&& prefix_of(node_payload_enc(entries@), src.skip(pos + 1))
                &&& tree_enc(w).len() == 1 + node_payload_enc(entries@).len()
            },
            ConcreteTree::Contents(c) => {
                &&& varint_dec(src.skip(pos)) == Some((1nat, 1int))
                &&& pos + 1 <= src.len()
                &&& prefix_of(c.enc(), src.skip(pos + 1))
                &&& tree_enc(w).len() == 1 + c.enc().len()
            },
        },
{
    assert(varint_enc(0) =~= seq![0u8]);
    assert(varint_enc(1) =~= seq![1u8]);
    lemma_skip_skip(src, pos, 1);
    match w {
        ConcreteTree::Tree(entries) => {
            reveal(node_payload_enc);
            let body = node_payload_enc(entries@);
            assert(tree_enc(w) =~= varint_enc(0) + body);
            lemma_prefix_split(varint_enc(0), body, src.skip(pos));
            lemma_varint_prefix(0, src.skip(pos));
        },
        ConcreteTree::Contents(c) => {
            lemma_prefix_split(varint_enc(1), c.enc(), src.skip(pos));
            lemma_varint_prefix(1, src.skip(pos));
        },
    }
}

/// Appends the encoding of a concrete tree to `dest`.
#[verifier::rlimit(100)]
pub fn encode_tree<T: Type>(t: &ConcreteTree<T>, dest: &mut Vec<u8>)
    requires
        tree_wf(*t),
        old(dest)@.len() + tree_enc(*t).len() <= usize::MAX,
    ensures
        final(dest)@ == old(dest)@ + tree_enc(*t),
    decreases *t,
{
    match t {
        ConcreteTree::Tree(entries) => {
            dest.push(0u8);
            encode_varint(entries.len() as u64, dest);
            proof {
                assert(varint_enc(0) =~= seq![0u8]);
                assert(entries@.take(0) =~= Seq::<(String, ConcreteTree<T>)>::empty());
                assert(dest@ =~= old(dest)@ + varint_enc(0) + varint_enc(entries@.len() as nat)
                    + entries_enc(entries@.take(0)));
            }
            let n = entries.len();
            let mut i: usize = 0;
            #[verifier::loop_isolation(false)]
            while i < n
                invariant
                    i <= n,
                    dest@ == old(dest)@ + varint_enc(0) + varint_enc(entries@.len() as nat)
                        + entries_enc(entries@.take(i as int)),
                decreases n - i,
            {
                proof {
                    lemma_entries_enc_decompose(entries@, i as int);
                }
                let mut kb = entries[i].0.as_str().as_bytes_vec();
                encode_varint(kb.len() as u64, dest);
                dest.append(&mut kb);
                proof {
                    lemma_entries_wf(entries@, i as int);
                }
                encode_tree(&entries[i].1, dest);
                proof {
                    assert(entries@.take(i + 1) =~= entries@.take(i as int).push(
                        entries@[i as int],
                    ));
                    lemma_entries_enc_push(entries@.take(i as int), entries@[i as int]);
                    assert(dest@ =~= old(dest)@ + varint_enc(0) + varint_enc(
                        entries@.len() as nat,
                    ) + entries_enc(entries@.take(i + 1)));
                }
                i = i + 1;
            }
            proof {
                assert(entries@.take(n as int) =~= entries@);
                reveal(node_payload_enc);
                assert(node_payload_enc(entries@) =~= varint_enc(entries@.len() as nat)
                    + entries_enc(entries@));
                assert(dest@ =~= old(dest)@ + tree_enc(*t));
            }
        },
        ConcreteTree::Contents(c) => {
            dest.push(1u8);
            proof {
                assert(varint_enc(1) =~= seq![1u8]);
                assert(tree_enc(*t) =~= varint_enc(1) + c.enc());
                assert(dest@ =~= old(dest)@ + varint_enc(1));
            }
            c.encode_bin(dest);
            proof {
                assert(dest@ =~= old(dest)@ + tree_enc(*t));
            }
        },
    }
}

/// One entry at the front of an entry-list encoding splits into the key's
/// encoding, the sub-tree's encoding, and the remaining entries' encodings.
proof fn lemma_entry_step<T: Type>(ws: Seq<(String, ConcreteTree<T>)>, src: Seq<u8>, i: int, cur: int)
    requires
        0 <= i < ws.len(),
        0 <= cur <= src.len(),
        prefix_of(entries_enc(ws.skip(i)), src.skip(cur)),
    ensures
        prefix_of(str_enc(ws[i].0@), src.skip(cur)),
        prefix_of(tree_enc(ws[i].1), src.skip(cur + str_enc(ws[i].0@).len())),
        prefix_of(
            entries_enc(ws.skip(i + 1)),
            src.skip(cur + str_enc(ws[i].0@).len() + tree_enc(ws[i].1).len()),
        ),
        entries_enc(ws.skip(i)).len() == str_enc(ws[i].0@).len() + tree_enc(ws[i].1).len()
            + entries_enc(ws.skip(i + 1)).len(),
{
    assert(ws.skip(i)[0] == ws[i]);
    assert(ws.skip(i).skip(1) =~= ws.skip(i + 1));
    assert(entries_enc(ws.skip(i)) == str_enc(ws[i].0@) + tree_enc(ws[i].1) + entries_enc(
        ws.skip(i + 1),
    ));
    let ke = str_enc(ws[i].0@);
    let te = tree_enc(ws[i].1);
    let re = entries_enc(ws.skip(i + 1));
    assert(prefix_of((ke + te) + re, src.skip(cur)));
    lemma_prefix_split(ke + te, re, src.skip(cur));
    lemma_prefix_split(ke, te, src.skip(cur));
    lemma_skip_skip(src, cur, ke.len() as int);
    lemma_skip_skip(src, cur, (ke + te).len() as int);
}

/// Decodes `n` entries of a node, each a key and a sub-tree, refusing keys
/// out of order. It succeeds exactly when the encoding of a well-formed,
/// sorted entry list of length `n` starts at `pos`.
#[verifier::rlimit(100)]
fn decode_entries<T: Type>(src: &[u8], pos: usize, n: u64) -> (r: Result<
    (Vec<(String, ConcreteTree<T>)>, usize),
    Error,
>)
    requires
        pos <= src@.len(),
    ensures
        r matches Ok(vp) ==> {
            &&& pos <= vp.1 <= src@.len()
            &&& vp.0@.len() == n
            &&& entries_wf(vp.0@)
            &&& keys_sorted(vp.0@)
            &&& entries_enc(vp.0@) == src@.subrange(pos as int, vp.1 as int)
        },
        forall|ws: Seq<(String, ConcreteTree<T>)>|
            ws.len() == n && entries_wf(ws) && keys_sorted(ws) && #[trigger] prefix_of(
                entries_enc(ws),
                src@.skip(pos as int),
            ) ==> match r {
                Ok(vp) => entries_shape(vp.0@) == entries_shape(ws) && vp.1 == pos + entries_enc(
                    ws,
                ).len(),
                Err(_) => false,
            },
    decreases src@.len() - pos, 0int,
{
    let ghost rest = src@.skip(pos as int);
    let mut out: Vec<(String, ConcreteTree<T>)> = Vec::new();
    let mut cur = pos;
    let mut i: u64 = 0;
    proof {
        assert(entries_enc(out@) =~= src@.subrange(pos as int, pos as int));
        assert forall|ws: Seq<(String, ConcreteTree<T>)>|
            ws.len() == n && entries_wf(ws) && keys_sorted(ws) && #[trigger] prefix_of(
                entries_enc(ws),
                rest,
            ) implies {
            &&& entries_shape(ws.take(0)) == entries_shape(out@)
            &&& prefix_of(entries_enc(ws.skip(0)), src@.skip(pos as int))
            &&& pos == pos + entries_enc(ws.take(0)).len()
        } by {
            assert(ws.skip(0) =~= ws);
            assert(entries_enc(ws.take(0)) =~= Seq::<u8>::empty());
            assert(entries_shape(ws.take(0)) =~= entries_shape(out@));
        }
    }
    #[verifier::loop_isolation(false)]
    while i < n
        invariant
            i <= n,
            pos <= cur <= src@.len(),
            out@.len() == i,
            entries_wf(out@),
            keys_sorted(out@),
            entries_enc(out@) == src@.subrange(pos as int, cur as int),
            forall|ws: Seq<(String, ConcreteTree<T>)>|
                ws.len() == n && entries_wf(ws) && keys_sorted(ws) && #[trigger] prefix_of(
                    entries_enc(ws),
                    rest,
                ) ==> {
                    &&& entries_shape(ws.take(i as int)) == entries_shape(out@)
                    &&& prefix_of(entries_enc(ws.skip(i as int)), src@.skip(cur as int))
                    &&& cur == pos + entries_enc(ws.take(i as int)).len()
                },
        decreases n - i,
    {
        proof {
            assert forall|ws: Seq<(String, ConcreteTree<T>)>|
                ws.len() == n && entries_wf(ws) && keys_sorted(ws) && #[trigger] prefix_of(
                    entries_enc(ws),
                    rest,
                ) implies prefix_of(str_enc(ws[i as int].0@), src@.skip(cur as int)) by {
                lemma_entry_step(ws, src@, i as int, cur as int);
            }
        }
        let key = match String::decode_bin(src, cur) {
            Ok(kp) => kp,
            Err(e) => {
                proof {
                    assert forall|ws: Seq<(String, ConcreteTree<T>)>|
                        !(ws.len() == n && entries_wf(ws) && keys_sorted(ws)
                            && #[trigger] prefix_of(entries_enc(ws), rest)) by {
                        if ws.len() == n && entries_wf(ws) && keys_sorted(ws) && prefix_of(
                            entries_enc(ws),
                            rest,
                        ) {
                            assert(prefix_of(str_enc(ws[i as int].0@), src@.skip(cur as int)));
                        }
                    }
                }
                return Err(e);
            },
        };
        let (k, pk) = key;
        proof {
            assert forall|ws: Seq<(String, ConcreteTree<T>)>|
                ws.len() == n && entries_wf(ws) && keys_sorted(ws) && #[trigger] prefix_of(
                    entries_enc(ws),
                    rest,
                ) implies {
                &&& k@ == ws[i as int].0@
                &&& pk == cur + str_enc(ws[i as int].0@).len()
                &&& tree_wf(ws[i as int].1)
                &&& prefix_of(tree_enc(ws[i as int].1), src@.skip(pk as int))
            } by {
                lemma_entry_step(ws, src@, i as int, cur as int);
                lemma_entries_wf(ws, i as int);
            }
        }
        let child = match decode_tree::<T>(src, pk) {
            Ok(cp) => cp,
            Err(e) => {
                proof {
                    assert forall|ws: Seq<(String, ConcreteTree<T>)>|
                        !(ws.len() == n && entries_wf(ws) && keys_sorted(ws)
                            && #[trigger] prefix_of(entries_enc(ws), rest)) by {
                        if ws.len() == n && entries_wf(ws) && keys_sorted(ws) && prefix_of(
                            entries_enc(ws),
                            rest,
                        ) {
                            assert(tree_wf(ws[i as int].1));
                            assert(prefix_of(tree_enc(ws[i as int].1), src@.skip(pk as int)));
                        }
                    }
                }
                return Err(e);
            },
        };
        let (t, pt) = child;
        if i > 0 && !bytes_lt(out[(i - 1) as usize].0.as_str().as_bytes(), k.as_str().as_bytes()) {
            proof {
                assert forall|ws: Seq<(String, ConcreteTree<T>)>|
                    !(ws.len() == n && entries_wf(ws) && keys_sorted(ws) && #[trigger] prefix_of(
                        entries_enc(ws),
                        rest,
                    )) by {
                    if ws.len() == n && entries_wf(ws) && keys_sorted(ws) && prefix_of(
                        entries_enc(ws),
                        rest,
                    ) {
                        lemma_entries_shape_index(ws.take(i as int), i - 1);
                        lemma_entries_shape_index(out@, i - 1);
                        assert(ws.take(i as int)[i - 1] == ws[i - 1]);
                        assert(lex_lt(encode_utf8(ws[i - 1].0@), encode_utf8(ws[i as int].0@)));
                    }
                }
            }
            return Err(Error::InvalidEncoding);
        }
        let ghost old_out = out@;
        out.push((k, t));
        proof {
            lemma_entries_enc_push(old_out, out@[i as int]);
            lemma_entries_wf_push(old_out, out@[i as int]);
            assert(entries_enc(out@) =~= src@.subrange(pos as int, pt as int));
            assert(keys_sorted(out@)) by {
                assert forall|j: int|
                    0 <= j && j + 1 < out@.len() implies lex_lt(
                    encode_utf8(#[trigger] out@[j].0@),
                    encode_utf8(out@[j + 1].0@),
                ) by {
                    if j + 1 < i {
                        assert(out@[j] == old_out[j]);
                        assert(out@[j + 1] == old_out[j + 1]);
                    } else {
                        assert(out@[j] == old_out[i - 1]);
                        assert(out@[j + 1].0@ == k@);
                    }
                }
            }
            assert forall|ws: Seq<(String, ConcreteTree<T>)>|
                ws.len() == n && entries_wf(ws) && keys_sorted(ws) && #[trigger] prefix_of(
                    entries_enc(ws),
                    rest,
                ) implies {
                &&& entries_shape(ws.take(i + 1)) == entries_shape(out@)
                &&& prefix_of(entries_enc(ws.skip(i + 1)), src@.skip(pt as int))
                &&& pt == pos + entries_enc(ws.take(i + 1)).len()
            } by {
                lemma_entry_step(ws, src@, i as int, cur as int);
                assert(ws.take(i + 1) =~= ws.take(i as int).push(ws[i as int]));
                lemma_entries_enc_push(ws.take(i as int), ws[i as int]);
                lemma_entries_shape_push(ws.take(i as int), ws[i as int]);
                lemma_entries_shape_push(old_out, out@[i as int]);
                assert(entries_shape(ws.take(i + 1)) =~= entries_shape(out@));
            }
        }
        cur = pt;
        i = i + 1;
    }
    proof {
        assert forall|ws: Seq<(String, ConcreteTree<T>)>|
            ws.len() == n && entries_wf(ws) && keys_sorted(ws) && #[trigger] prefix_of(
                entries_enc(ws),
                rest,
            ) implies (entries_shape(out@) == entries_shape(ws) && cur == pos + entries_enc(
            ws,
        ).len()) by {
            assert(ws.take(n as int) =~= ws);
        }
    }
    Ok((out, cur))
}

/// Every entry takes at least one byte on the wire.
proof fn lemma_entries_enc_len_ge<T: Type>(s: Seq<(String, ConcreteTree<T>)>)
    ensures
        entries_enc(s).len() >= s.len(),
    decreases s.len(),
{
    if s.len() != 0 {
        lemma_entries_enc_len_ge(s.skip(1));
        crate::varint::lemma_varint_enc_len(encode_utf8(s[0].0@).len());
    }
}

/// At the front of a node payload stands the entry count; past it, the
/// entries' encodings continue the stream. The count is bounded by the
/// stream, since every entry takes at least one byte.
proof fn lemma_node_payload_head<T: Type>(ws: Seq<(String, ConcreteTree<T>)>, src: Seq<u8>, pos: int)
    requires
        0 <= pos <= src.len(),
        src.len() <= usize::MAX,
        prefix_of(node_payload_enc(ws), src.skip(pos)),
    ensures
        varint_dec(src.skip(pos)) == Some(
            (ws.len() as nat, varint_enc(ws.len() as nat).len() as int),
        ),
        ws.len() <= u64::MAX,
        prefix_of(entries_enc(ws), src.skip(pos + varint_enc(ws.len() as nat).len())),
        node_payload_enc(ws).len() == varint_enc(ws.len() as nat).len() + entries_enc(ws).len(),
{
    reveal(node_payload_enc);
    let rest = src.skip(pos);
    lemma_prefix_split(varint_enc(ws.len() as nat), entries_enc(ws), rest);
    lemma_varint_prefix(ws.len() as nat, rest);
    lemma_entries_enc_len_ge(ws);
    lemma_skip_skip(src, pos, varint_enc(ws.len() as nat).len() as int);
    assert(entries_enc(ws).len() <= rest.len());
    assert(ws.len() <= src.len());
}

/// Decodes a node's payload: the varint entry count, then that many entries.
/// It succeeds exactly when the payload encoding of some well-formed, sorted
/// entry list starts at `pos`.
#[verifier::rlimit(100)]
#[verifier::spinoff_prover]
fn decode_node<T: Type>(src: &[u8], pos: usize) -> (r: Result<
    (Vec<(String, ConcreteTree<T>)>, usize),
    Error,
>)
    requires
        pos <= src@.len(),
    ensures
        r matches Ok(vp) ==> {
            &&& pos <= vp.1 <= src@.len()
            &&& entries_wf(vp.0@)
            &&& keys_sorted(vp.0@)
            &&& node_payload_enc(vp.0@) == src@.subrange(pos as int, vp.1 as int)
        },
        forall|ws: Seq<(String, ConcreteTree<T>)>|
            entries_wf(ws) && keys_sorted(ws) && #[trigger] prefix_of(
                node_payload_enc(ws),
                src@.skip(pos as int),
            ) ==> match r {
                Ok(vp) => entries_shape(vp.0@) == entries_shape(ws) && vp.1 == pos
                    + node_payload_enc(ws).len(),
                Err(_) => false,
            },
    decreases src@.len() - pos, 1int,
{
    let ghost rest = src@.skip(pos as int);
    proof {
        assert(vstd::slice::spec_slice_len(src) == src@.len());
        assert forall|ws: Seq<(String, ConcreteTree<T>)>|
            #[trigger] prefix_of(node_payload_enc(ws), rest) implies {
            &&& varint_dec(rest) == Some(
                (ws.len() as nat, varint_enc(ws.len() as nat).len() as int),
            )
            &&& ws.len() <= u64::MAX
            &&& prefix_of(
                entries_enc(ws),
                src@.skip(pos + varint_enc(ws.len() as nat).len()),
            )
            &&& node_payload_enc(ws).len() == varint_enc(ws.len() as nat).len() + entries_enc(
                ws,
            ).len()
        } by {
            lemma_node_payload_head(ws, src@, pos as int);
        }
    }
    match decode_varint(src, pos) {
        Err(e) => {
            let r: Result<(Vec<(String, ConcreteTree<T>)>, usize), Error> = Err(e);
            r
        },
        Ok((n64, p1)) => {
            match decode_entries::<T>(src, p1, n64) {
                Err(e) => {
                    let r: Result<(Vec<(String, ConcreteTree<T>)>, usize), Error> = Err(e);
                    r
                },
                Ok((entries, p)) => {
                    proof {
                        reveal(node_payload_enc);
                        lemma_varint_canonical(rest);
                        assert(node_payload_enc(entries@) =~= src@.subrange(
                            pos as int,
                            p as int,
                        ));
                    }
                    Ok((entries, p))
                },
            }
        },
    }
}

/// Decodes the concrete tree whose encoding starts at `src[pos]`. As with
/// every decoder here, it succeeds exactly when the encoding of a
/// well-formed tree starts there, consumes exactly that encoding, and
/// returns a tree of the same shape.
#[verifier::rlimit(100)]
#[verifier::spinoff_prover]
pub fn decode_tree<T: Type>(src: &[u8], pos: usize) -> (r: Result<(ConcreteTree<T>, usize), Error>)
    requires
        pos <= src@.len(),
    ensures
        r matches Ok(vp) ==> {
            &&& pos <= vp.1 <= src@.len()
            &&& tree_wf(vp.0)
            &&& tree_enc(vp.0) == src@.subrange(pos as int, vp.1 as int)
        },
        forall|w: ConcreteTree<T>|
            tree_wf(w) && #[trigger] prefix_of(tree_enc(w), src@.skip(pos as int)) ==> match r {
                Ok(vp) => tree_shape(vp.0) == tree_shape(w) && vp.1 == pos + tree_enc(w).len(),
                Err(_) => false,
            },
        match r {
            Ok(_) => true,
            Err(e) => match varint_dec(src@.skip(pos as int)) {
                None => e matches Error::MalformedInput,
                Some(t) => {
                    &&& (t.0 > u64::MAX ==> (e matches Error::MalformedInput))
                    &&& ((2 <= t.0 && t.0 <= u64::MAX) ==> (e matches Error::InvalidVariant))
                },
            },
        },
    decreases src@.len() - pos, 1int,
{
    let ghost rest = src@.skip(pos as int);
    proof {
        lemma_varint_canonical(rest);
        assert(varint_enc(0) =~= seq![0u8]);
        assert(varint_enc(1) =~= seq![1u8]);
    }
    match crate::composite::decode_variant_tag(src, pos, 2) {
        Err(e) => {
            let r: Result<(ConcreteTree<T>, usize), Error> = Err(e);
            proof {
                assert forall|w: ConcreteTree<T>|
                    !(tree_wf(w) && #[trigger] prefix_of(tree_enc(w), rest)) by {
                    if tree_wf(w) && prefix_of(tree_enc(w), rest) {
                        lemma_tree_witness_head(w, src@, pos as int);
                    }
                }
            }
            r
        },
        Ok((tag, p0)) => {
            proof {
                lemma_skip_skip(src@, pos as int, 1);
            }
            if tag == 1 {
                match T::decode_bin(src, p0) {
                    Err(e) => {
                        let r: Result<(ConcreteTree<T>, usize), Error> = Err(e);
                        proof {
                            assert forall|w: ConcreteTree<T>|
                                !(tree_wf(w) && #[trigger] prefix_of(tree_enc(w), rest)) by {
                                if tree_wf(w) && prefix_of(tree_enc(w), rest) {
                                    lemma_tree_witness_head(w, src@, pos as int);
                                }
                            }
                        }
                        r
                    },
                    Ok((c, p)) => {
                        let v = ConcreteTree::Contents(c);
                        proof {
                            assert(tree_enc(v) =~= src@.subrange(pos as int, p as int));
                            assert forall|w: ConcreteTree<T>|
                                tree_wf(w) && #[trigger] prefix_of(tree_enc(w), rest) implies (
                            tree_shape(v) == tree_shape(w) && p == pos + tree_enc(w).len()) by {
                                lemma_tree_witness_head(w, src@, pos as int);
                            }
                        }
                        Ok((v, p))
                    },
                }
            } else {
                proof {
                    assert forall|w: ConcreteTree<T>|
                        tree_wf(w) && #[trigger] prefix_of(tree_enc(w), rest) implies {
                        &&& w matches ConcreteTree::Tree(_)
                        &&& entries_wf(w->Tree_0@)
                        &&& keys_sorted(w->Tree_0@)
                        &&& prefix_of(node_payload_enc(w->Tree_0@), src@.skip(p0 as int))
                        &&& tree_enc(w).len() == 1 + node_payload_enc(w->Tree_0@).len()
                    } by {
                        lemma_tree_witness_head(w, src@, pos as int);
                    }
                }
                match decode_node::<T>(src, p0) {
                    Err(e) => {
                        let r: Result<(ConcreteTree<T>, usize), Error> = Err(e);
                        proof {
                            assert forall|w: ConcreteTree<T>|
                                !(tree_wf(w) && #[trigger] prefix_of(tree_enc(w), rest)) by {
                                if tree_wf(w) && prefix_of(tree_enc(w), rest) {
                                    assert(prefix_of(
                                        node_payload_enc(w->Tree_0@),
                                        src@.skip(p0 as int),
                                    ));
                                }
                            }
                        }
                        r
                    },
                    Ok((entries, p)) => {
                        let v = ConcreteTree::Tree(entries);
                        proof {
                            reveal(node_payload_enc);
                            assert(p0 == pos + 1 && src@[pos as int] == 0);
                            assert(tree_enc(v) =~= varint_enc(0) + node_payload_enc(entries@));
                            assert(varint_enc(0) + node_payload_enc(entries@) =~= src@.subrange(
                                pos as int,
                                p as int,
                            ));
                            assert forall|w: ConcreteTree<T>|
                                tree_wf(w) && #[trigger] prefix_of(tree_enc(w), rest) implies (
                            tree_shape(v) == tree_shape(w) && p == pos + tree_enc(w).len()) by {
                                assert(prefix_of(
                                    node_payload_enc(w->Tree_0@),
                                    src@.skip(p0 as int),
                                ));
                                assert(tree_shape(v)->Node_0 =~= tree_shape(w)->Node_0);
                                assert(tree_shape(v) =~= tree_shape(w));
                            }
                        }
                        Ok((v, p))
                    },
                }
            }
        },
    }
}

/// Entry `i` of a well-formed entry list holds a well-formed sub-tree.
proof fn lemma_entries_wf<T: Type>(s: Seq<(String, ConcreteTree<T>)>, i: int)
    requires
        0 <= i < s.len(),
        entries_wf(s),
    ensures
        tree_wf(s[i].1),
    decreases i,
{
    if i > 0 {
        lemma_entries_wf(s.skip(1), i - 1);
        assert(s.skip(1)[i - 1] == s[i]);
    }
}

/// Pushing a well-formed sub-tree keeps the entry list well-formed.
proof fn lemma_entries_wf_push<T: Type>(s: Seq<(String, ConcreteTree<T>)>, e: (
    String,
    ConcreteTree<T>,
))
    requires
        entries_wf(s),
        tree_wf(e.1),
    ensures
        entries_wf(s.push(e)),
    decreases s.len(),
{
    if s.len() == 0 {
        assert(s.push(e)[0] == e);
        assert(s.push(e).skip(1) =~= Seq::<(String, ConcreteTree<T>)>::empty());
        assert(entries_wf(s.push(e).skip(1)));
        assert(entries_wf(s.push(e)) == (tree_wf(s.push(e)[0].1) && entries_wf(
            s.push(e).skip(1),
        )));
    } else {
        assert(s.push(e).skip(1) =~= s.skip(1).push(e));
        lemma_entries_wf_push(s.skip(1), e);
        assert(s.push(e)[0] == s[0]);
        assert(tree_wf(s[0].1));
        assert(entries_wf(s.push(e)) == (tree_wf(s.push(e)[0].1) && entries_wf(
            s.push(e).skip(1),
        )));
    }
}

impl<T: Type> Type for ConcreteTree<T> {
    open spec fn wf(&self) -> bool {
        tree_wf(*self)
    }

    open spec fn enc(&self) -> Seq<u8> {
        tree_enc(*self)
    }

    fn encode_bin(&self, dest: &mut Vec<u8>) -> (n: usize) {
        let before = dest.len();
        encode_tree(self, dest);
        dest.len() - before
    }

    /// Beyond the codec contract: a tag that names no variant fails with
    /// `InvalidVariant`, a malformed tag varint with `MalformedInput`; a
    /// payload error is the payload decoder's own.
    fn decode_bin(src: &[u8], pos: usize) -> (r: Result<(Self, usize), Error>)
        ensures
            match r {
                Ok(_) => true,
                Err(e) => match varint_dec(src@.skip(pos as int)) {
                    None => e matches Error::MalformedInput,
                    Some(t) => {
                        &&& (t.0 > u64::MAX ==> (e matches Error::MalformedInput))
                        &&& ((2 <= t.0 && t.0 <= u64::MAX) ==> (e matches Error::InvalidVariant))
                    },
                },
            },
    {
        decode_tree::<T>(src, pos)
    }
}


/// A tree as the protocol passes it: a reference to a tree already stored
/// remotely, an opaque session-local handle the server handed out, or a
/// fully materialized sub-tree sent inline.
pub enum Tree<T, H> {
    ByHash(H),
    ById(usize),
    Concrete(ConcreteTree<T>),
}

/// The abstraction of a `Tree` value.
#[verifier::ext_equal]
pub enum TreeRepr<CV, HV> {
    ByHash(HV),
    ById(usize),
    Concrete(TreeShape<CV>),
}

impl<T: Type, H: Type> DeepView for Tree<T, H> {
    type V = TreeRepr<T::V, H::V>;

    open spec fn deep_view(&self) -> TreeRepr<T::V, H::V> {
        match self {
            Tree::ByHash(h) => TreeRepr::ByHash(h.deep_view()),
            Tree::ById(x) => TreeRepr::ById(*x),
            Tree::Concrete(t) => TreeRepr::Concrete(tree_shape(*t)),
        }
    }
}

impl<T: Type, H: Type> Type for Tree<T, H> {
    open spec fn wf(&self) -> bool {
        match self {
            Tree::ByHash(h) => h.wf(),
            Tree::ById(_) => true,
            Tree::Concrete(t) => tree_wf(*t),
        }
    }

    open spec fn enc(&self) -> Seq<u8> {
        match self {
            Tree::ByHash(h) => varint_enc(0) + h.enc(),
            Tree::ById(x) => varint_enc(1) + varint_enc(*x as nat),
            Tree::Concrete(t) => varint_enc(2) + tree_enc(*t),
        }
    }

    fn encode_bin(&self, dest: &mut Vec<u8>) -> (n: usize) {
        let before = dest.len();
        proof {
            assert(varint_enc(0) =~= seq![0u8]);
            assert(varint_enc(1) =~= seq![1u8]);
            assert(varint_enc(2) =~= seq![2u8]);
        }
        match self {
            Tree::ByHash(h) => {
                dest.push(0u8);
                proof {
                    assert(dest@ =~= old(dest)@ + varint_enc(0));
                    assert(self.enc() =~= varint_enc(0) + h.enc());
                }
                h.encode_bin(dest);
                proof {
                    assert(dest@ =~= old(dest)@ + self.enc());
                }
            },
            Tree::ById(x) => {
                dest.push(1u8);
                encode_varint(*x as u64, dest);
                proof {
                    assert(dest@ =~= old(dest)@ + self.enc());
                }
            },
            Tree::Concrete(t) => {
                dest.push(2u8);
                proof {
                    assert(dest@ =~= old(dest)@ + varint_enc(2));
                    assert(self.enc() =~= varint_enc(2) + tree_enc(*t));
                }
                encode_tree(t, dest);
                proof {
                    assert(dest@ =~= old(dest)@ + self.enc());
                }
            },
        }
        dest.len() - before
    }

    /// Beyond the codec contract: a tag that names no variant fails with
    /// `InvalidVariant`, a malformed tag varint with `MalformedInput`; a
    /// payload error is the payload decoder's own.
    fn decode_bin(src: &[u8], pos: usize) -> (r: Result<(Self, usize), Error>)
        ensures
            match r {
                Ok(_) => true,
                Err(e) => match varint_dec(src@.skip(pos as int)) {
                    None => e matches Error::MalformedInput,
                    Some(t) => {
                        &&& (t.0 > u64::MAX ==> (e matches Error::MalformedInput))
                        &&& ((3 <= t.0 && t.0 <= u64::MAX) ==> (e matches Error::InvalidVariant))
                    },
                },
            },
    {
        let ghost rest = src@.skip(pos as int);
        proof {
            lemma_varint_canonical(rest);
            assert(varint_enc(0) =~= seq![0u8]);
            assert(varint_enc(1) =~= seq![1u8]);
            assert(varint_enc(2) =~= seq![2u8]);
        }
        match crate::composite::decode_variant_tag(src, pos, 3) {
            Err(e) => {
                let r: Result<(Tree<T, H>, usize), Error> = Err(e);
                proof {
                    assert forall|w: Tree<T, H>|
                        !(w.wf() && #[trigger] prefix_of(w.enc(), rest)) by {
                        if w.wf() && prefix_of(w.enc(), rest) {
                            lemma_tree_union_head(w, src@, pos as int);
                        }
                    }
                }
                r
            },
            Ok((tag, p0)) => {
                proof {
                    lemma_skip_skip(src@, pos as int, 1);
                }
                if tag == 0 {
                    match H::decode_bin(src, p0) {
                        Err(e) => {
                            let r: Result<(Tree<T, H>, usize), Error> = Err(e);
                            proof {
                                assert forall|w: Tree<T, H>|
                                    !(w.wf() && #[trigger] prefix_of(w.enc(), rest)) by {
                                    if w.wf() && prefix_of(w.enc(), rest) {
                                        lemma_tree_union_head(w, src@, pos as int);
                                    }
                                }
                            }
                            r
                        },
                        Ok((h, p)) => {
                            let v = Tree::<T, H>::ByHash(h);
                            proof {
                                assert(v.enc() =~= src@.subrange(pos as int, p as int));
                                assert forall|w: Tree<T, H>|
                                    w.wf() && #[trigger] prefix_of(w.enc(), rest) implies (
                                v.deep_view() == w.deep_view() && p == pos + w.enc().len()) by {
                                    lemma_tree_union_head(w, src@, pos as int);
                                }
                            }
                            Ok((v, p))
                        },
                    }
                } else if tag == 1 {
                    match usize::decode_bin(src, p0) {
                        Err(e) => {
                            let r: Result<(Tree<T, H>, usize), Error> = Err(e);
                            proof {
                                assert forall|w: Tree<T, H>|
                                    !(w.wf() && #[trigger] prefix_of(w.enc(), rest)) by {
                                    if w.wf() && prefix_of(w.enc(), rest) {
                                        lemma_tree_union_head(w, src@, pos as int);
                                        assert(prefix_of(
                                            (w->ById_0).enc(),
                                            src@.skip(p0 as int),
                                        ));
                                    }
                                }
                            }
                            r
                        },
                        Ok((x, p)) => {
                            let v = Tree::<T, H>::ById(x);
                            proof {
                                assert(v.enc() =~= src@.subrange(pos as int, p as int));
                                assert forall|w: Tree<T, H>|
                                    w.wf() && #[trigger] prefix_of(w.enc(), rest) implies (
                                v.deep_view() == w.deep_view() && p == pos + w.enc().len()) by {
                                    lemma_tree_union_head(w, src@, pos as int);
                                    assert(prefix_of((w->ById_0).enc(), src@.skip(p0 as int)));
                                }
                            }
                            Ok((v, p))
                        },
                    }
                } else {
                    match decode_tree::<T>(src, p0) {
                        Err(e) => {
                            let r: Result<(Tree<T, H>, usize), Error> = Err(e);
                            proof {
                                assert forall|w: Tree<T, H>|
                                    !(w.wf() && #[trigger] prefix_of(w.enc(), rest)) by {
                                    if w.wf() && prefix_of(w.enc(), rest) {
                                        lemma_tree_union_head(w, src@, pos as int);
                                    }
                                }
                            }
                            r
                        },
                        Ok((t, p)) => {
                            let v = Tree::<T, H>::Concrete(t);
                            proof {
                                assert(v.enc() =~= src@.subrange(pos as int, p as int));
                                assert forall|w: Tree<T, H>|
                                    w.wf() && #[trigger] prefix_of(w.enc(), rest) implies (
                                v.deep_view() == w.deep_view() && p == pos + w.enc().len()) by {
                                    lemma_tree_union_head(w, src@, pos as int);
                                }
                            }
                            Ok((v, p))
                        },
                    }
                }
            },
        }
    }
}

impl<T: Type, H: Type> Tree<T, H> {
    /// An empty inline tree.
    pub fn empty() -> (r: Tree<T, H>)
        ensures
            r.wf(),
            r matches Tree::Concrete(t) && t matches ConcreteTree::Tree(e) && e@.len() == 0,
    {
        Tree::Concrete(ConcreteTree::Tree(Vec::new()))
    }
}

/// A well-formed tree union's wire tag is the varint at the front of its
/// encoding, and past it the variant's payload encoding continues the
/// stream.
proof fn lemma_tree_union_head<T: Type, H: Type>(w: Tree<T, H>, src: Seq<u8>, pos: int)
    requires
        0 <= pos <= src.len(),
        prefix_of(w.enc(), src.skip(pos)),
    ensures
        match w {
            Tree::ByHash(h) => {
                &&& varint_dec(src.skip(pos)) == Some((0nat, 1int))
                &&& pos + 1 <= src.len()
                &&& prefix_of(h.enc(), src.skip(pos + 1))
                &&& w.enc().len() == 1 + h.enc().len()
            },
            Tree::ById(x) => {
                &&& varint_dec(src.skip(pos)) == Some((1nat, 1int))
                &&& pos + 1 <= src.len()
                &&& prefix_of(varint_enc(x as nat), src.skip(pos + 1))
                &&& w.enc().len() == 1 + varint_enc(x as nat).len()
            },
            Tree::Concrete(t) => {
                &&& varint_dec(src.skip(pos)) == Some((2nat, 1int))
                &&& pos + 1 <= src.len()
                &&& prefix_of(tree_enc(t), src.skip(pos + 1))
                &&& w.enc().len() == 1 + tree_enc(t).len()
            },
        },
{
    assert(varint_enc(0) =~= seq![0u8]);
    assert(varint_enc(1) =~= seq![1u8]);
    assert(varint_enc(2) =~= seq![2u8]);
    lemma_skip_skip(src, pos, 1);
    match w {
        Tree::ByHash(h) => {
            lemma_prefix_split(varint_enc(0), h.enc(), src.skip(pos));
            lemma_varint_prefix(0, src.skip(pos));
        },
        Tree::ById(x) => {
            lemma_prefix_split(varint_enc(1), varint_enc(x as nat), src.skip(pos));
            lemma_varint_prefix(1, src.skip(pos));
        },
        Tree::Concrete(t) => {
            lemma_prefix_split(varint_enc(2), tree_enc(t), src.skip(pos));
            lemma_varint_prefix(2, src.skip(pos));
        },
    }
}

} // verus!

//! The protocol client's byte-level core: requests and responses.
//!
//! A request is the ASCII command name, a newline, and one frame carrying
//! the codec encoding of the argument tuple. A response is one status byte
//! (0 for success, anything else for error) followed by one frame: the
//! result's encoding on success, the encoded error text otherwise. Each call
//! is a single round trip with exactly one outstanding request; the
//! transport I/O around these bytes lives outside the library.

use vstd::prelude::*;

use crate::codec::{prefix_of, Type};
use crate::error::Error;
use crate::frame::{decode_frame, encode_frame, frame_enc};
use crate::info::Info;
use crate::path::Path;
use crate::text::str_enc;
use crate::tree::Tree;

verus! {

/// The command vocabulary.
pub enum Command {
    Ping,
    StoreSet,
    StoreFind,
    StoreRemove,
    TreeAdd,
    TreeRemove,
    TreeFind,
    TreeFindTree,
    CommitV,
}

/// The ASCII name of each command, as the request line spells it.
pub open spec fn command_name(c: Command) -> Seq<u8> {
    match c {
        // "ping"
        Command::Ping => seq![112u8, 105u8, 110u8, 103u8],
        // "store.set"
        Command::StoreSet => seq![115u8, 116u8, 111u8, 114u8, 101u8, 46u8, 115u8, 101u8, 116u8],
        // "store.find"
        Command::StoreFind => seq![
            115u8,
            116u8,
            111u8,
            114u8,
            101u8,
            46u8,
            102u8,
            105u8,
            110u8,
            100u8,
        ],
        // "store.remove"
        Command::StoreRemove => seq![
            115u8,
            116u8,
            111u8,
            114u8,
            101u8,
            46u8,
            114u8,
            101u8,
            109u8,
            111u8,
            118u8,
            101u8,
        ],
        // "tree.add"
        Command::TreeAdd => seq![116u8, 114u8, 101u8, 101u8, 46u8, 97u8, 100u8, 100u8],
        // "tree.remove"
        Command::TreeRemove => seq![
            116u8,
            114u8,
            101u8,
            101u8,
            46u8,
            114u8,
            101u8,
            109u8,
            111u8,
            118u8,
            101u8,
        ],
        // "tree.find"
        Command::TreeFind => seq![116u8, 114u8, 101u8, 101u8, 46u8, 102u8, 105u8, 110u8, 100u8],
        // "tree.find_tree"
        Command::TreeFindTree => seq![
            116u8,
            114u8,
            101u8,
            101u8,
            46u8,
            102u8,
            105u8,
            110u8,
            100u8,
            95u8,
            116u8,
            114u8,
            101u8,
            101u8,
        ],
        // "commit.v"
        Command::CommitV => seq![99u8, 111u8, 109u8, 109u8, 105u8, 116u8, 46u8, 118u8],
    }
}

impl Command {
    /// The command name as bytes.
    pub fn name_bytes(&self) -> (r: Vec<u8>)
        ensures
            r@ == command_name(*self),
    {
        let mut out: Vec<u8> = Vec::new();
        let name: &[u8] = match self {
            Command::Ping => &[112u8, 105u8, 110u8, 103u8],
            Command::StoreSet => &[
                115u8,
                116u8,
                111u8,
                114u8,
                101u8,
                46u8,
                115u8,
                101u8,
                116u8,
            ],
            Command::StoreFind => &[
                115u8,
                116u8,
                111u8,
                114u8,
                101u8,
                46u8,
                102u8,
                105u8,
                110u8,
                100u8,
            ],
            Command::StoreRemove => &[
                115u8,
                116u8,
                111u8,
                114u8,
                101u8,
                46u8,
                114u8,
                101u8,
                109u8,
                111u8,
                118u8,
                101u8,
            ],
            Command::TreeAdd => &[116u8, 114u8, 101u8, 101u8, 46u8, 97u8, 100u8, 100u8],
            Command::TreeRemove => &[
                116u8,
                114u8,
                101u8,
                101u8,
                46u8,
                114u8,
                101u8,
                109u8,
                111u8,
                118u8,
                101u8,
            ],
            Command::TreeFind => &[
                116u8,
                114u8,
                101u8,
                101u8,
                46u8,
                102u8,
                105u8,
                110u8,
                100u8,
            ],
            Command::TreeFindTree => &[
                116u8,
                114u8,
                101u8,
                101u8,
                46u8,
                102u8,
                105u8,
                110u8,
                100u8,
                95u8,
                116u8,
                114u8,
                101u8,
                101u8,
            ],
            Command::CommitV => &[99u8, 111u8, 109u8, 109u8, 105u8, 116u8, 46u8, 118u8],
        };
        let mut i: usize = 0;
        proof {
            assert(name@ =~= command_name(*self));
        }
        #[verifier::loop_isolation(false)]
        while i < name.len()
            invariant
                i <= name@.len(),
                out@ == name@.take(i as int),
            decreases name@.len() - i,
        {
            out.push(name[i]);
            proof {
                assert(out@ =~= name@.take(i + 1));
            }
            i = i + 1;
        }
        proof {
            assert(out@ =~= name@);
        }
        out
    }
}

/// One request on the wire: the command name, a newline, and one frame
/// around the encoded argument.
pub open spec fn request_enc(c: Command, payload: Seq<u8>) -> Seq<u8> {
    command_name(c) + seq![10u8] + frame_enc(payload)
}

/// Builds the bytes of one request around an already-encoded argument.
pub fn build_request(c: &Command, payload: &Vec<u8>) -> (r: Vec<u8>)
    ensures
        r@ == request_enc(*c, payload@),
{
    let mut out = c.name_bytes();
    out.push(10u8);
    encode_frame(payload, &mut out);
    proof {
        assert(out@ =~= request_enc(*c, payload@));
    }
    out
}

/// Parses one response: the status byte, then one frame. Status 0 yields
/// the frame payload, the result's encoding; any other status yields
/// `RemoteError` carrying the peer's message, decoded from the frame. The
/// second and third clauses oblige each outcome: a zero status followed by a
/// whole frame must succeed with exactly that frame's payload, and a nonzero
/// status whose frame starts with an encoded string must report that very
/// text. The connection stays usable after a `RemoteError`; every other
/// error aborts the call.
pub fn parse_response(src: &[u8], pos: usize) -> (r: Result<(Vec<u8>, usize), Error>)
    requires
        pos <= src@.len(),
    ensures
        match r {
            Ok(vp) => {
                &&& pos < src@.len() && src@[pos as int] == 0
                &&& pos + 1 <= vp.1 <= src@.len()
                &&& frame_enc(vp.0@) == src@.subrange(pos + 1, vp.1 as int)
                &&& vp.1 == pos + 9 + vp.0@.len()
            },
            Err(e) => e matches Error::RemoteError(m) ==> pos < src@.len() && src@[pos as int]
                != 0,
        },
        forall|b: Seq<u8>|
            pos < src@.len() && src@[pos as int] == 0 && #[trigger] prefix_of(
                frame_enc(b),
                src@.skip(pos + 1),
            ) ==> (r matches Ok(vp) && vp.0@ == b && vp.1 == pos + 9 + b.len()),
        forall|b: Seq<u8>, cs: Seq<char>|
            #![trigger prefix_of(frame_enc(b), src@.skip(pos + 1)), prefix_of(str_enc(cs), b)]
            pos < src@.len() && src@[pos as int] != 0 && prefix_of(
                frame_enc(b),
                src@.skip(pos + 1),
            ) && prefix_of(str_enc(cs), b) ==> (r matches Err(e) && e
                matches Error::RemoteError(m) && m@ == cs),
{
    if pos >= src.len() {
        return Err(Error::UnexpectedEof);
    }
    let status = src[pos];
    match decode_frame(src, pos + 1) {
        Err(e) => Err(e),
        Ok((payload, p)) => {
            let ghost pv = payload@;
            if status == 0 {
                Ok((payload, p))
            } else {
                proof {
                    assert(pv.skip(0) =~= pv);
                }
                match String::decode_bin(payload.as_slice(), 0) {
                    Ok((msg, _)) => {
                        let r: Result<(Vec<u8>, usize), Error> = Err(Error::RemoteError(msg));
                        r
                    },
                    Err(e) => Err(e),
                }
            }
        },
    }
}

/// Decodes a success frame as the result type a command expects. The frame
/// must hold exactly one encoded value: a frame that is exactly one
/// well-formed value's encoding must decode to it, and one with trailing
/// bytes after a value is a protocol-contract violation, surfaced as
/// `MalformedInput`.
pub fn decode_response<T: Type>(payload: &Vec<u8>) -> (r: Result<T, Error>)
    ensures
        match r {
            Ok(v) => v.wf() && v.enc() == payload@,
            Err(_) => true,
        },
        forall|w: T|
            w.wf() && payload@ == #[trigger] w.enc() ==> (r matches Ok(v) && v.deep_view()
                == w.deep_view()),
        forall|w: T|
            w.wf() && #[trigger] prefix_of(w.enc(), payload@) && w.enc().len() < payload@.len()
                ==> (r matches Err(e) && e matches Error::MalformedInput),
{
    proof {
        assert(payload@.skip(0) =~= payload@);
        assert forall|w: T| w.wf() && payload@ == #[trigger] w.enc() implies prefix_of(
            w.enc(),
            payload@.skip(0),
        ) by {
            assert(w.enc() =~= payload@.subrange(0, w.enc().len() as int));
        }
    }
    match T::decode_bin(payload.as_slice(), 0) {
        Ok((v, p)) => {
            if p == payload.len() {
                proof {
                    assert(payload@.subrange(0, payload@.len() as int) =~= payload@);
                }
                Ok(v)
            } else {
                Err(Error::MalformedInput)
            }
        },
        Err(e) => Err(e),
    }
}

/// The `ping` request: the liveness check carries no argument, so its frame
/// is empty.
pub fn ping_request() -> (r: Vec<u8>)
    ensures
        r@ == request_enc(Command::Ping, Seq::<u8>::empty()),
{
    let payload: Vec<u8> = Vec::new();
    build_request(&Command::Ping, &payload)
}

/// The `store.set` request: the key, the metadata and the value, in that
/// wire order.
pub fn store_set_request<T: Type>(key: &Path, info: &Info, value: &T) -> (r: Vec<u8>)
    requires
        key.wf(),
        value.wf(),
        key.enc().len() + info.enc().len() + value.enc().len() <= usize::MAX,
    ensures
        r@ == request_enc(Command::StoreSet, key.enc() + info.enc() + value.enc()),
{
    let mut payload: Vec<u8> = Vec::new();
    key.encode_bin(&mut payload);
    info.encode_bin(&mut payload);
    value.encode_bin(&mut payload);
    proof {
        assert(payload@ =~= key.enc() + info.enc() + value.enc());
    }
    build_request(&Command::StoreSet, &payload)
}

/// The `store.find` request: the key alone.
pub fn store_find_request(key: &Path) -> (r: Vec<u8>)
    requires
        key.wf(),
        key.enc().len() <= usize::MAX,
    ensures
        r@ == request_enc(Command::StoreFind, key.enc()),
{
    let mut payload: Vec<u8> = Vec::new();
    key.encode_bin(&mut payload);
    build_request(&Command::StoreFind, &payload)
}

/// The `store.remove` request: the key and the metadata.
pub fn store_remove_request(key: &Path, info: &Info) -> (r: Vec<u8>)
    requires
        key.wf(),
        key.enc().len() + info.enc().len() <= usize::MAX,
    ensures
        r@ == request_enc(Command::StoreRemove, key.enc() + info.enc()),
{
    let mut payload: Vec<u8> = Vec::new();
    key.encode_bin(&mut payload);
    info.encode_bin(&mut payload);
    proof {
        assert(payload@ =~= key.enc() + info.enc());
    }
    build_request(&Command::StoreRemove, &payload)
}

/// The `tree.add` request: the tree, the key and the value.
pub fn tree_add_request<T: Type, H: Type>(tree: &Tree<T, H>, key: &Path, value: &T) -> (r: Vec<
    u8,
>)
    requires
        tree.wf(),
        key.wf(),
        value.wf(),
        tree.enc().len() + key.enc().len() + value.enc().len() <= usize::MAX,
    ensures
        r@ == request_enc(Command::TreeAdd, tree.enc() + key.enc() + value.enc()),
{
    let mut payload: Vec<u8> = Vec::new();
    tree.encode_bin(&mut payload);
    key.encode_bin(&mut payload);
    value.encode_bin(&mut payload);
    proof {
        assert(payload@ =~= tree.enc() + key.enc() + value.enc());
    }
    build_request(&Command::TreeAdd, &payload)
}

/// The `tree.remove` request: the tree and the key.
pub fn tree_remove_request<T: Type, H: Type>(tree: &Tree<T, H>, key: &Path) -> (r: Vec<u8>)
    requires
        tree.wf(),
        key.wf(),
        tree.enc().len() + key.enc().len() <= usize::MAX,
    ensures
        r@ == request_enc(Command::TreeRemove, tree.enc() + key.enc()),
{
    let mut payload: Vec<u8> = Vec::new();
    tree.encode_bin(&mut payload);
    key.encode_bin(&mut payload);
    proof {
        assert(payload@ =~= tree.enc() + key.enc());
    }
    build_request(&Command::TreeRemove, &payload)
}

/// The `tree.find` request: the tree and the key.
pub fn tree_find_request<T: Type, H: Type>(tree: &Tree<T, H>, key: &Path) -> (r: Vec<u8>)
    requires
        tree.wf(),
        key.wf(),
        tree.enc().len() + key.enc().len() <= usize::MAX,
    ensures
        r@ == request_enc(Command::TreeFind, tree.enc() + key.enc()),
{
    let mut payload: Vec<u8> = Vec::new();
    tree.encode_bin(&mut payload);
    key.encode_bin(&mut payload);
    proof {
        assert(payload@ =~= tree.enc() + key.enc());
    }
    build_request(&Command::TreeFind, &payload)
}

/// The `tree.find_tree` request: the tree and the key.
pub fn tree_find_tree_request<T: Type, H: Type>(tree: &Tree<T, H>, key: &Path) -> (r: Vec<u8>)
    requires
        tree.wf(),
        key.wf(),
        tree.enc().len() + key.enc().len() <= usize::MAX,
    ensures
        r@ == request_enc(Command::TreeFindTree, tree.enc() + key.enc()),
{
    let mut payload: Vec<u8> = Vec::new();
    tree.encode_bin(&mut payload);
    key.encode_bin(&mut payload);
    proof {
        assert(payload@ =~= tree.enc() + key.enc());
    }
    build_request(&Command::TreeFindTree, &payload)
}

/// The `commit.v` request: the metadata, the parent hashes and the node
/// hash, in that wire order.
pub fn commit_v_request<H: Type>(info: &Info, parents: &Vec<H>, node: &H) -> (r: Vec<u8>)
    requires
        crate::composite::elems_wf(parents@),
        node.wf(),
        info.enc().len() + parents.enc().len() + node.enc().len() <= usize::MAX,
    ensures
        r@ == request_enc(Command::CommitV, info.enc() + parents.enc() + node.enc()),
{
    let mut payload: Vec<u8> = Vec::new();
    info.encode_bin(&mut payload);
    parents.encode_bin(&mut payload);
    node.encode_bin(&mut payload);
    proof {
        assert(payload@ =~= info.enc() + parents.enc() + node.enc());
    }
    build_request(&Command::CommitV, &payload)
}

} // verus!

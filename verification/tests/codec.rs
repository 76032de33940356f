use irmin::client::{
    build_request, commit_v_request, decode_response, parse_response, ping_request,
    store_find_request, store_remove_request, store_set_request, tree_find_request, Command,
};
use irmin::codec::Type;
use irmin::commit::Commit;
use irmin::composite::decode_variant_tag;
use irmin::error::Error;
use irmin::frame::{check_handshake, decode_frame, encode_frame, handshake_token};
use irmin::info::Info;
use irmin::path::Path;
use irmin::tree::{ConcreteTree, Tree};
use irmin::varint::{decode_varint, encode_varint};

fn enc<T: Type>(v: &T) -> Vec<u8> {
    let mut out = Vec::new();
    v.encode_bin(&mut out);
    out
}

fn dec<T: Type>(bytes: &[u8]) -> (T, usize) {
    T::decode_bin(bytes, 0).unwrap()
}

#[test]
fn test_int_string_pair() {
    let a = (123isize, "abc".to_string());
    let data: &[u8] = &[123, 3, 97, 98, 99];
    let output = enc(&a);
    assert_eq!(output.as_slice(), data);
    let (t, used): ((isize, String), usize) = dec(output.as_slice());
    assert_eq!(a, t);
    assert_eq!(used, output.len());
}

#[test]
fn test_int_long_string_pair() {
    let s: String = std::iter::repeat('A').take(4096).collect();
    let a = (500isize, s.clone());
    let mut data: Vec<u8> = vec![0xf4, 0x03, 0x80, 0x20];
    data.extend(std::iter::repeat(b'A').take(4096));
    let output = enc(&a);
    assert_eq!(output, data);
    let (t, _): ((isize, String), usize) = dec(output.as_slice());
    assert_eq!(a, t);
}

#[test]
fn test_struct1() {
    // A single-variant record encodes as its fields back-to-back, so the
    // record { a: isize, b: Vec<String> } shares its wire form with a pair.
    let b: Vec<String> = vec!["B".to_string(); 16];
    let a = (999isize, b);
    let mut data: Vec<u8> = vec![0xe7, 0x07, 16];
    for _ in 0..16 {
        data.push(1);
        data.push(b'B');
    }
    let output = enc(&a);
    assert_eq!(output, data);
    let (t, _): ((isize, Vec<String>), usize) = dec(output.as_slice());
    assert_eq!(a, t);
}

#[test]
fn test_enum1() {
    // A two-variant sum: variant 0 carries an f64, variant 1 an optional
    // string. The pair (A(4.5), B(None)) encodes as tag 0 + the float's
    // bit pattern, then tag 1 + the absent-option byte.
    let mut output = Vec::new();
    encode_varint(0, &mut output);
    4.5f64.to_bits().encode_bin(&mut output);
    encode_varint(1, &mut output);
    let none: Option<String> = None;
    none.encode_bin(&mut output);
    let mut data = vec![0u8];
    data.extend(4.5f64.to_bits().to_be_bytes());
    data.push(1);
    data.push(0);
    assert_eq!(output, data);
    let (tag0, p) = decode_variant_tag(&output, 0, 2).unwrap();
    assert_eq!(tag0, 0);
    let (bits, p) = u64::decode_bin(&output, p).unwrap();
    assert_eq!(f64::from_bits(bits), 4.5);
    let (tag1, p) = decode_variant_tag(&output, p, 2).unwrap();
    assert_eq!(tag1, 1);
    let (opt, p): (Option<String>, usize) = Option::decode_bin(&output, p).unwrap();
    assert_eq!(opt, None);
    assert_eq!(p, output.len());
}

#[test]
fn test_varint_boundaries() {
    for (v, len) in [(0u64, 1usize), (127, 1), (128, 2), (16383, 2), (16384, 3)] {
        let mut out = Vec::new();
        encode_varint(v, &mut out);
        assert_eq!(out.len(), len);
        let (back, used) = decode_varint(&out, 0).unwrap();
        assert_eq!(back, v);
        assert_eq!(used, len);
    }
    assert_eq!(enc(&0usize), vec![0x00]);
    assert_eq!(enc(&127usize), vec![0x7f]);
    assert_eq!(enc(&128usize), vec![0x80, 0x01]);
    assert_eq!(enc(&16383usize), vec![0xff, 0x7f]);
    assert_eq!(enc(&16384usize), vec![0x80, 0x80, 0x01]);
}

#[test]
fn test_varint_rejects_noncanonical() {
    // 0 spelled in two bytes is not the canonical encoding of anything.
    assert!(matches!(decode_varint(&[0x80, 0x00], 0), Err(Error::MalformedInput)));
    // ... and a stream ending mid-sequence is malformed.
    assert!(matches!(decode_varint(&[0x80], 0), Err(Error::MalformedInput)));
}

#[test]
fn test_string_decode_rejects_truncation_and_bad_utf8() {
    // Five bytes announced, three present.
    let truncated: &[u8] = &[5, b'a', b'b', b'c'];
    assert!(matches!(String::decode_bin(truncated, 0), Err(Error::UnexpectedEof)));
    // 0xff 0xfe is not UTF-8: the string decoder rejects it ...
    let bad: &[u8] = &[2, 0xff, 0xfe];
    assert!(matches!(String::decode_bin(bad, 0), Err(Error::InvalidEncoding)));
    // ... while the byte-buffer decoder accepts the same frame.
    let (buf, used): (Vec<u8>, usize) = dec(bad);
    assert_eq!(buf, vec![0xff, 0xfe]);
    assert_eq!(used, 3);
}

#[test]
fn test_option_encoding() {
    let some = Some("x".to_string());
    assert_eq!(enc(&some), vec![0xff, 1, b'x']);
    let none: Option<String> = None;
    assert_eq!(enc(&none), vec![0x00]);
    // Any present-tag other than 0xff is rejected.
    assert!(matches!(
        <Option<String>>::decode_bin(&[0x01, 1, b'x'], 0),
        Err(Error::InvalidEncoding)
    ));
}

#[test]
fn test_invalid_variant() {
    // Decoding variant index 2 of a 2-variant sum fails.
    assert!(matches!(decode_variant_tag(&[2u8], 0, 2), Err(Error::InvalidVariant)));
    // A tree union has three variants; index 3 names none.
    let r = <Tree<String, irmin::hash::Hash<64>>>::decode_bin(&[3u8], 0);
    assert!(matches!(r, Err(Error::InvalidVariant)));
}

#[test]
fn test_scalar_round_trips() {
    assert_eq!(enc(&0xABCDu16), vec![0xab, 0xcd]);
    assert_eq!(enc(&0x01020304u32), vec![1, 2, 3, 4]);
    assert_eq!(enc(&(-1i32)), vec![0xff, 0xff, 0xff, 0xff]);
    assert_eq!(enc(&(-2i64)), vec![0xff; 8].iter().take(7).cloned().chain([0xfe]).collect::<Vec<u8>>());
    assert_eq!(enc(&true), vec![1]);
    assert_eq!(enc(&false), vec![0]);
    for v in [0u64, 1, 255, 65536, u64::MAX] {
        let bytes = enc(&v);
        assert_eq!(bytes.len(), 8);
        let (back, _): (u64, usize) = dec(&bytes);
        assert_eq!(back, v);
    }
    let (b, _): (bool, usize) = dec(&[1u8]);
    assert!(b);
    assert!(matches!(bool::decode_bin(&[2u8], 0), Err(Error::InvalidEncoding)));
}

#[test]
fn test_path_round_trip_and_invariant() {
    let p = Path::new(vec!["a".to_string(), "".to_string(), "b".to_string()]);
    // Empty segments are dropped on construction.
    assert_eq!(p.len(), 2);
    let bytes = enc(&p);
    assert_eq!(bytes, vec![2, 1, b'a', 1, b'b']);
    let (back, _): (Path, usize) = dec(&bytes);
    assert_eq!(back.segments, vec!["a".to_string(), "b".to_string()]);
    // A path with an empty segment on the wire is rejected.
    assert!(matches!(Path::decode_bin(&[1u8, 0u8], 0), Err(Error::InvalidEncoding)));
    let root = Path::empty();
    assert!(root.is_empty());
    assert!(root.parent().is_none());
    let q = root.append("x".to_string()).append("y".to_string());
    assert_eq!(q.parent().unwrap().segments, vec!["x".to_string()]);
}

#[test]
fn test_info_commit_round_trip() {
    let info = Info::new(1700000000, "author".to_string(), "message".to_string());
    let (back, used): (Info, usize) = dec(&enc(&info));
    assert_eq!(back.date, 1700000000);
    assert_eq!(back.author, "author");
    assert_eq!(back.message, "message");
    assert_eq!(used, enc(&info).len());

    let node = irmin::hash::Hash::<20>::new(vec![7u8; 20]).unwrap();
    let parents = vec![irmin::hash::Hash::<20>::new(vec![1u8; 20]).unwrap()];
    let commit = Commit::new(node, parents, info);
    let bytes = enc(&commit);
    let (back, used): (Commit<irmin::hash::Hash<20>>, usize) = dec(&bytes);
    assert_eq!(used, bytes.len());
    assert_eq!(back.node.bytes, vec![7u8; 20]);
    assert_eq!(back.parents.len(), 1);
    assert_eq!(back.info.author, "author");
    // Construction fails when the width does not match the algorithm.
    assert!(irmin::hash::Hash::<20>::new(vec![7u8; 21]).is_err());
}

fn leaf(v: &str) -> ConcreteTree<String> {
    ConcreteTree::Contents(v.to_string())
}

#[test]
fn test_tree_round_trip_and_order() {
    let t: ConcreteTree<String> = ConcreteTree::Tree(vec![
        ("a".to_string(), leaf("1")),
        ("b".to_string(), ConcreteTree::Tree(vec![("c".to_string(), leaf("2"))])),
    ]);
    let bytes = enc(&t);
    let (back, used): (ConcreteTree<String>, usize) = dec(&bytes);
    assert_eq!(used, bytes.len());
    assert_eq!(enc(&back), bytes);
    // Entries out of key order are not a canonical tree.
    let unsorted: ConcreteTree<String> = ConcreteTree::Tree(vec![
        ("b".to_string(), leaf("1")),
        ("a".to_string(), leaf("2")),
    ]);
    let mut raw = Vec::new();
    raw.push(0u8);
    encode_varint(2, &mut raw);
    for (k, v) in [("b", "1"), ("a", "2")] {
        k.to_string().encode_bin(&mut raw);
        leaf(v).encode_bin(&mut raw);
    }
    let _ = unsorted;
    assert!(matches!(
        <ConcreteTree<String>>::decode_bin(&raw, 0),
        Err(Error::InvalidEncoding)
    ));

    let u: Tree<String, irmin::hash::Hash<64>> = Tree::ById(7);
    let bytes = enc(&u);
    assert_eq!(bytes, vec![1, 7]);
    let (back, _): (Tree<String, irmin::hash::Hash<64>>, usize) = dec(&bytes);
    assert!(matches!(back, Tree::ById(7)));
}

#[test]
fn test_reencode_is_identity() {
    // Idempotence: re-encoding any decoded value reproduces the consumed
    // bytes exactly.
    let values: Vec<Vec<u8>> = vec![
        enc(&(42usize, "hi".to_string())),
        enc(&Some(vec![1u8, 2, 3])),
        enc(&Path::new(vec!["k".to_string()])),
        enc(&Info::new(5, "a".to_string(), "m".to_string())),
    ];
    let out0 = irmin::codec::reencode::<(usize, String)>(&values[0], 0).unwrap();
    assert_eq!(out0, values[0]);
    let out1 = irmin::codec::reencode::<Option<Vec<u8>>>(&values[1], 0).unwrap();
    assert_eq!(out1, values[1]);
    let out2 = irmin::codec::reencode::<Path>(&values[2], 0).unwrap();
    assert_eq!(out2, values[2]);
    let out3 = irmin::codec::reencode::<Info>(&values[3], 0).unwrap();
    assert_eq!(out3, values[3]);
}

#[test]
fn test_handshake() {
    // The client sends its token; if the peer echoes any other line,
    // setup fails with HandshakeMismatch and no request is sent.
    let token = handshake_token(&b"string".to_vec());
    assert_eq!(*token.last().unwrap(), b'\n');
    assert!(check_handshake(&token, &token.clone()).is_ok());
    let mut wrong = token.clone();
    wrong[0] ^= 1;
    assert!(matches!(check_handshake(&token, &wrong), Err(Error::HandshakeMismatch)));
    // Different content types negotiate different tokens.
    let other = handshake_token(&b"json".to_vec());
    assert_ne!(token, other);
}

#[test]
fn test_frame_round_trip() {
    let mut framed = Vec::new();
    encode_frame(&vec![9u8, 8, 7], &mut framed);
    assert_eq!(framed, vec![0, 0, 0, 0, 0, 0, 0, 3, 9, 8, 7]);
    let (payload, used) = decode_frame(&framed, 0).unwrap();
    assert_eq!(payload, vec![9, 8, 7]);
    assert_eq!(used, framed.len());
    // A frame announcing more bytes than the stream holds is truncated.
    assert!(matches!(
        decode_frame(&[0, 0, 0, 0, 0, 0, 0, 9, 1], 0),
        Err(Error::UnexpectedEof)
    ));
}

/// Plays the server for one request: checks nothing, returns a canned
/// status-0 response around the encoded result.
fn ok_response(result_payload: Vec<u8>) -> Vec<u8> {
    let mut resp = vec![0u8];
    encode_frame(&result_payload, &mut resp);
    resp
}

#[test]
fn test_store_set_then_find() {
    // End to end: set a value under ["a", "b"], then find it again. The
    // server here is scripted: it decodes the requests through the same
    // codec and answers from a flat list.
    let mut server_store: Vec<(Vec<String>, String)> = Vec::new();

    let key = Path::new(vec!["a".to_string(), "b".to_string()]);
    let info = Info::new(1, "me".to_string(), "set".to_string());
    let arg = (key, info, "hello".to_string());
    let request = build_request(&Command::StoreSet, &enc(&arg));

    // Server side: find the newline, read the frame, decode the argument.
    let nl = request.iter().position(|b| *b == b'\n').unwrap();
    assert_eq!(&request[..nl], b"store.set");
    let (payload, used) = decode_frame(&request, nl + 1).unwrap();
    assert_eq!(used, request.len());
    let ((k, _i, v), used): ((Path, Info, String), usize) = dec(&payload);
    assert_eq!(used, payload.len());
    server_store.push((k.segments.clone(), v));

    // set returns success with an empty payload.
    let resp = ok_response(enc(&()));
    let (result, used) = parse_response(&resp, 0).unwrap();
    assert_eq!(used, resp.len());
    let unit: () = decode_response(&result).unwrap();
    let _ = unit;

    // find the same key.
    let key = Path::new(vec!["a".to_string(), "b".to_string()]);
    let request = build_request(&Command::StoreFind, &enc(&key));
    let nl = request.iter().position(|b| *b == b'\n').unwrap();
    assert_eq!(&request[..nl], b"store.find");
    let (payload, _) = decode_frame(&request, nl + 1).unwrap();
    let (k, _): (Path, usize) = dec(&payload);
    let found: Option<String> =
        server_store.iter().find(|(ks, _)| *ks == k.segments).map(|(_, v)| v.clone());
    let resp = ok_response(enc(&found));
    let (result, _) = parse_response(&resp, 0).unwrap();
    let answer: Option<String> = decode_response(&result).unwrap();
    assert_eq!(answer, Some("hello".to_string()));
}

#[test]
fn test_tree_add_then_find() {
    // End to end: add "1" at ["x"] and "2" at ["y"] to an empty tree, then
    // find ["x"] (present) and ["z"] (absent). The scripted server hands
    // out opaque ids for intermediate trees.
    let mut server_tree: Vec<(Vec<String>, String)> = Vec::new();
    let empty: Tree<String, irmin::hash::Hash<64>> = Tree::empty();

    for (id, (k, v)) in [("x", "1"), ("y", "2")].iter().enumerate() {
        let key = Path::new(vec![k.to_string()]);
        let tree_arg: &Tree<String, irmin::hash::Hash<64>> = if id == 0 { &empty } else { &Tree::ById(0) };
        let arg = (clone_tree(tree_arg), key, v.to_string());
        let request = build_request(&Command::TreeAdd, &enc(&arg));
        let nl = request.iter().position(|b| *b == b'\n').unwrap();
        assert_eq!(&request[..nl], b"tree.add");
        let (payload, _) = decode_frame(&request, nl + 1).unwrap();
        let ((_t, k, v), used): ((Tree<String, irmin::hash::Hash<64>>, Path, String), usize) = dec(&payload);
        assert_eq!(used, payload.len());
        server_tree.push((k.segments.clone(), v));
        let resp = ok_response(enc(&Tree::<String, irmin::hash::Hash<64>>::ById(0)));
        let (result, _) = parse_response(&resp, 0).unwrap();
        let t2: Tree<String, irmin::hash::Hash<64>> = decode_response(&result).unwrap();
        assert!(matches!(t2, Tree::ById(0)));
    }

    for (k, expected) in [("x", Some("1".to_string())), ("z", None)] {
        let key = Path::new(vec![k.to_string()]);
        let arg = (Tree::<String, irmin::hash::Hash<64>>::ById(0), key);
        let request = build_request(&Command::TreeFind, &enc(&arg));
        let nl = request.iter().position(|b| *b == b'\n').unwrap();
        assert_eq!(&request[..nl], b"tree.find");
        let (payload, _) = decode_frame(&request, nl + 1).unwrap();
        let ((_t, k), _): ((Tree<String, irmin::hash::Hash<64>>, Path), usize) = dec(&payload);
        let found: Option<String> =
            server_tree.iter().find(|(ks, _)| *ks == k.segments).map(|(_, v)| v.clone());
        let resp = ok_response(enc(&found));
        let (result, _) = parse_response(&resp, 0).unwrap();
        let answer: Option<String> = decode_response(&result).unwrap();
        assert_eq!(answer, expected);
    }
}

fn clone_tree(t: &Tree<String, irmin::hash::Hash<64>>) -> Tree<String, irmin::hash::Hash<64>> {
    let bytes = {
        let mut out = Vec::new();
        t.encode_bin(&mut out);
        out
    };
    let (back, _) = <Tree<String, irmin::hash::Hash<64>>>::decode_bin(&bytes, 0).unwrap();
    back
}

#[test]
fn test_remote_error_response() {
    // A nonzero status carries the peer's message and the connection stays
    // usable: the frame itself parsed correctly.
    let mut resp = vec![1u8];
    encode_frame(&enc(&"boom".to_string()), &mut resp);
    match parse_response(&resp, 0) {
        Err(Error::RemoteError(m)) => assert_eq!(m, "boom"),
        other => panic!("expected a remote error, got {:?}", other.map(|_| ())),
    }
}

#[test]
fn test_request_builders() {
    // ping: the command line plus an empty frame.
    let mut expected = b"ping\n".to_vec();
    encode_frame(&Vec::new(), &mut expected);
    assert_eq!(ping_request(), expected);

    // store.set: the payload is key, info, value, in that wire order.
    let key = Path::new(vec!["a".to_string(), "b".to_string()]);
    let info = Info::new(1, "me".to_string(), "set".to_string());
    let value = "hello".to_string();
    let mut payload = enc(&key);
    payload.extend(enc(&info));
    payload.extend(enc(&value));
    assert_eq!(store_set_request(&key, &info, &value), build_request(&Command::StoreSet, &payload));

    let mut payload = enc(&key);
    assert_eq!(store_find_request(&key), build_request(&Command::StoreFind, &payload));
    payload.extend(enc(&info));
    assert_eq!(store_remove_request(&key, &info), build_request(&Command::StoreRemove, &payload));

    // tree.find: tree then key.
    let tree: Tree<String, irmin::hash::Hash<64>> = Tree::ById(3);
    let mut payload = enc(&tree);
    payload.extend(enc(&key));
    assert_eq!(tree_find_request(&tree, &key), build_request(&Command::TreeFind, &payload));

    // commit.v: info, parents, node.
    let node = irmin::hash::Hash::<20>::new(vec![9u8; 20]).unwrap();
    let parents: Vec<irmin::hash::Hash<20>> = Vec::new();
    let mut payload = enc(&info);
    payload.extend(enc(&parents));
    payload.extend(enc(&node));
    assert_eq!(commit_v_request(&info, &parents, &node), build_request(&Command::CommitV, &payload));
}

#[test]
fn test_decode_response_rejects_trailing_bytes() {
    // A frame must hold exactly one value: trailing bytes are a
    // protocol-contract violation.
    let mut payload = enc(&"ok".to_string());
    payload.push(0u8);
    let r: Result<String, Error> = decode_response(&payload);
    assert!(matches!(r, Err(Error::MalformedInput)));
}

#[test]
fn test_frame_and_response_round_trip() {
    // A frame written by the frame writer decodes back to the payload sent,
    // and a status-0 response around it yields the decoded value.
    let value = Some(12345u64);
    let payload = enc(&value);
    let mut framed = Vec::new();
    encode_frame(&payload, &mut framed);
    let (back, used) = decode_frame(&framed, 0).unwrap();
    assert_eq!(back, payload);
    assert_eq!(used, framed.len());

    let mut resp = vec![0u8];
    encode_frame(&payload, &mut resp);
    let (result, used) = parse_response(&resp, 0).unwrap();
    assert_eq!(used, resp.len());
    let answer: Option<u64> = decode_response(&result).unwrap();
    assert_eq!(answer, value);
}

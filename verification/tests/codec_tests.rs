use parity_scale_codec::{Compact, Encode};
use trie_codec::Layout;
use trie_codec::error::Error;
use trie_codec::node::{encode_node, decode_node, ChildRef, Node};
use trie_codec::proof_protocol::{
    generate_trie_proof, verify_trie_proof, collect_pairs, VerifyError,
};
use trie_codec::trie_build::build_trie_db;

#[test]
fn it_works() {
    assert_eq!(2 + 2, 4);
}

fn to_compact(n: u8) -> u8 {
    Compact(n).encode()[0]
}

#[test]
fn codec_trie_empty() {
    let input: Vec<(Vec<u8>, Vec<u8>)> = vec![];
    let trie = Layout::trie_root_unhashed(&input);
    println!("trie: {:#x?}", trie);
    assert_eq!(trie, vec![0x0]);
}

#[test]
fn codec_trie_single_tuple() {
    let input: Vec<(Vec<u8>, Vec<u8>)> = vec![(vec![0xaa], vec![0xbb])];
    let trie = Layout::trie_root_unhashed(&input);
    println!("trie: {:#x?}", trie);
    assert_eq!(
        trie,
        vec![
            0x42,          // leaf 0x40 (2^6) with (+) key of 2 nibbles (0x02)
            0xaa,          // key data
            to_compact(1), // length of value in bytes as Compact
            0xbb           // value data
        ]
    );
}

#[test]
fn codec_trie_two_tuples_disjoint_keys() {
    // the builder takes its input sorted by raw key bytes
    let mut input: Vec<(Vec<u8>, Vec<u8>)> =
        vec![(vec![0x48, 0x19], vec![0xfe]), (vec![0x13, 0x14], vec![0xff])];
    input.sort_by(|a, b| a.0.cmp(&b.0));
    let trie = Layout::trie_root_unhashed(&input);
    println!("trie: {:#x?}", trie);
    let mut ex = Vec::<u8>::new();
    ex.push(0x80); // branch, no value (0b_10..) no nibble
    ex.push(0x12); // slots 1 & 4 are taken from 0-7
    ex.push(0x00); // no slots from 8-15
    ex.push(to_compact(0x05)); // first slot: LEAF, 5 bytes long.
    ex.push(0x43); // leaf 0x40 with 3 nibbles
    ex.push(0x03); // first nibble
    ex.push(0x14); // second & third nibble
    ex.push(to_compact(0x01)); // 1 byte data
    ex.push(0xff); // value data
    ex.push(to_compact(0x05)); // second slot: LEAF, 5 bytes long.
    ex.push(0x43); // leaf with 3 nibbles
    ex.push(0x08); // first nibble
    ex.push(0x19); // second & third nibble
    ex.push(to_compact(0x01)); // 1 byte data
    ex.push(0xfe); // value data

    assert_eq!(trie, ex);
}

#[test]
fn iterator_works() {
    let pairs: Vec<(Vec<u8>, Vec<u8>)> = vec![
        (
            vec![0x01, 0x03, 0x00, 0x00, 0x00, 0x00, 0x00, 0x00, 0x00, 0x04, 0x64],
            vec![0x04, 0x00, 0x00, 0x00, 0x00],
        ),
        (
            vec![0x01, 0x03, 0x00, 0x00, 0x00, 0x00, 0x00, 0x00, 0x00, 0x04, 0x69],
            vec![0x04, 0x01, 0x00, 0x00, 0x00],
        ),
    ];

    let (db, root) = build_trie_db(&pairs);
    let iter_pairs = collect_pairs(&db, &root).unwrap();

    assert_eq!(pairs, iter_pairs);
}

#[test]
fn proof_non_inclusion_works() {
    let pairs: Vec<(Vec<u8>, Vec<u8>)> =
        vec![(vec![0x01, 0x02], vec![0x01]), (vec![0x02, 0x03], vec![0x04, 0x05])];

    let (db, root) = build_trie_db(&pairs);

    let non_included_key: Vec<u8> = vec![0x09, 0x09];
    let proof = generate_trie_proof(&db, &root, &vec![non_included_key.clone()]).unwrap();

    // Verifying that the K was not included into the trie should work.
    assert!(verify_trie_proof(&root, &proof, &vec![(non_included_key.clone(), None)]).is_ok());

    // Verifying that the K was included into the trie should fail.
    assert!(verify_trie_proof(
        &root,
        &proof,
        &vec![(non_included_key, Some(vec![0x10, 0x10]))],
    )
    .is_err());
}

#[test]
fn proof_inclusion_works() {
    let pairs: Vec<(Vec<u8>, Vec<u8>)> =
        vec![(vec![0x01, 0x02], vec![0x01]), (vec![0x02, 0x03], vec![0x04, 0x05])];

    let (db, root) = build_trie_db(&pairs);

    let proof = generate_trie_proof(&db, &root, &vec![pairs[0].0.clone()]).unwrap();

    // Check that a K, V included into the proof are verified.
    assert!(verify_trie_proof(
        &root,
        &proof,
        &vec![(pairs[0].0.clone(), Some(pairs[0].1.clone()))],
    )
    .is_ok());

    // Absence of the V is not verified with the proof that has K, V included.
    assert!(verify_trie_proof(&root, &proof, &vec![(pairs[0].0.clone(), None)]).is_err());

    // K not included into the trie is not verified.
    assert!(verify_trie_proof(
        &root,
        &proof,
        &vec![(vec![0x42, 0x42], Some(pairs[0].1.clone()))],
    )
    .is_err());

    // K included into the trie but not included into the proof is not verified.
    assert!(verify_trie_proof(
        &root,
        &proof,
        &vec![(pairs[1].0.clone(), Some(pairs[1].1.clone()))],
    )
    .is_err());
}

#[test]
fn compact_encoding_matches_scale() {
    let cases: Vec<u32> = vec![0, 1, 63, 64, 255, 16383, 16384, 65535, 0x3fff_ffff, 0x4000_0000, 0xffff_ffff];
    for n in cases {
        assert_eq!(Layout::encode_index(n), Compact(n).encode());
    }
}

#[test]
fn node_round_trip_leaf() {
    let n = Node::Leaf { partial: vec![0x0a, 0x0a], value: vec![0xbb] };
    let enc = encode_node(&n);
    assert_eq!(enc, vec![0x42, 0xaa, 0x04, 0xbb]);
    let back = decode_node(&enc).unwrap();
    match back {
        Node::Leaf { partial, value } => {
            assert_eq!(partial, vec![0x0a, 0x0a]);
            assert_eq!(value, vec![0xbb]);
        },
        _ => panic!("wrong variant"),
    }
}

#[test]
fn node_round_trip_branch() {
    let mut children: Vec<Option<ChildRef>> = Vec::new();
    for _i in 0..16 {
        children.push(None);
    }
    children[1] = Some(ChildRef::Inline(vec![0x43, 0x03, 0x14, 0x04, 0xff]));
    children[4] = Some(ChildRef::Digest(vec![0x11; 32]));
    let n = Node::Branch { partial: vec![0x07], children, value: Some(vec![0x01, 0x02]) };
    let enc = encode_node(&n);
    let back = decode_node(&enc).unwrap();
    match back {
        Node::Branch { partial, children, value } => {
            assert_eq!(partial, vec![0x07]);
            assert_eq!(value, Some(vec![0x01, 0x02]));
            assert!(matches!(&children[1], Some(ChildRef::Inline(b)) if b.len() == 5));
            assert!(matches!(&children[4], Some(ChildRef::Digest(h)) if h.len() == 32));
            assert!(children[0].is_none());
        },
        _ => panic!("wrong variant"),
    }
}

#[test]
fn node_round_trip_empty() {
    let enc = encode_node(&Node::Empty);
    assert_eq!(enc, vec![0x00]);
    assert!(matches!(decode_node(&enc).unwrap(), Node::Empty));
}

#[test]
fn decode_rejects_truncated() {
    // leaf header asking for two nibbles, but no bytes follow
    assert_eq!(decode_node(&vec![0x42]).unwrap_err(), Error::BadFormat);
    // empty buffer
    assert_eq!(decode_node(&vec![]).unwrap_err(), Error::BadFormat);
    // empty node with trailing byte
    assert_eq!(decode_node(&vec![0x00, 0x00]).unwrap_err(), Error::BadFormat);
}

#[test]
fn decode_rejects_bad_length_prefix() {
    // leaf with one nibble, then a two-byte compact holding a value
    // below 64: not the minimal form
    let r = decode_node(&vec![0x41, 0x05, 0x05, 0x00]);
    assert!(matches!(r.unwrap_err(), Error::Decode(_)));
}

#[test]
fn empty_trie_root_is_hash_of_zero_byte() {
    let input: Vec<(Vec<u8>, Vec<u8>)> = vec![];
    let root = Layout::trie_root(&input);
    let zero = trie_codec::hashing::blake2_256(&vec![0x00]);
    assert_eq!(root, zero);
    assert_eq!(root.len(), 32);
}

#[test]
fn convert_hash_copies() {
    let src: Vec<u8> = vec![1, 2, 3, 4];
    assert_eq!(trie_codec::hashing::convert_hash(&src), src);
}

#[test]
fn verify_detects_tampering() {
    let pairs: Vec<(Vec<u8>, Vec<u8>)> =
        vec![(vec![0x01, 0x02], vec![0x01]), (vec![0x02, 0x03], vec![0x04, 0x05])];
    let (db, root) = build_trie_db(&pairs);
    let proof = generate_trie_proof(&db, &root, &vec![pairs[0].0.clone()]).unwrap();
    let items = vec![(pairs[0].0.clone(), Some(pairs[0].1.clone()))];

    // wrong root
    let mut bad_root = root.clone();
    bad_root[0] ^= 1;
    assert_eq!(
        verify_trie_proof(&bad_root, &proof, &items).unwrap_err(),
        VerifyError::RootMismatch
    );

    // an extra node that no walk uses
    let mut padded = proof.clone();
    padded.push(vec![0x00]);
    assert_eq!(
        verify_trie_proof(&root, &padded, &items).unwrap_err(),
        VerifyError::ExtraneousNode
    );

    // no nodes at all
    let empty: Vec<Vec<u8>> = vec![];
    assert_eq!(
        verify_trie_proof(&root, &empty, &items).unwrap_err(),
        VerifyError::IncompleteProof
    );

    // wrong value asserted
    let wrong = vec![(pairs[0].0.clone(), Some(vec![0xff]))];
    assert!(verify_trie_proof(&root, &proof, &wrong).is_err());
}

#[test]
fn blake2_wrapper_hashes() {
    let a = trie_codec::hashing::blake2_256(&vec![]);
    let b = trie_codec::hashing::blake2_256(&vec![0x00]);
    assert_eq!(a.len(), 32);
    assert_eq!(b.len(), 32);
    assert_ne!(a, b);
    assert_ne!(a, Vec::<u8>::new());
    // the canonical empty-trie root digest, byte for byte
    assert_eq!(
        b,
        vec![
            0x03, 0x17, 0x0a, 0x2e, 0x75, 0x97, 0xb7, 0xb7, 0xe3, 0xd8, 0x4c, 0x05, 0x39, 0x1d,
            0x13, 0x9a, 0x62, 0xb1, 0x57, 0xe7, 0x87, 0x86, 0xd8, 0xc0, 0x82, 0xf2, 0x9d, 0xcf,
            0x4c, 0x11, 0x13, 0x14
        ]
    );
}

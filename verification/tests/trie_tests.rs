//! The library against the external mutable trie engine: the closed-form
//! root from the streaming builder must equal the root the engine reaches
//! by inserting pairs one at a time, through an adapter that plugs this
//! codec and hash into the engine.

use hash_db::Hasher;
use trie_db::node::{NodeHandlePlan, NodePlan, NibbleSlicePlan, Value, ValuePlan};
use trie_db::{ChildReference, NodeCodec, TrieLayout, TrieMut};
use trie_standardmap::{Alphabet, StandardMap, ValueMode};

use trie_codec::node::{encode_node, ChildRef, Node};
use trie_codec::proof_protocol::collect_pairs;
use trie_codec::trie_build::build_trie_db;
use trie_codec::Layout;

/// The hash capability, routed through the library's digest function.
pub struct Blake2Hasher;

impl Hasher for Blake2Hasher {
    type Out = [u8; 32];
    type StdHasher = hash256_std_hasher::Hash256StdHasher;

    const LENGTH: usize = 32;

    fn hash(x: &[u8]) -> [u8; 32] {
        let v: Vec<u8> = x.to_vec();
        let d = trie_codec::hashing::blake2_256(&v);
        let mut out = [0u8; 32];
        out.copy_from_slice(&d);
        out
    }
}

#[derive(Debug)]
pub struct GlueError;

impl std::fmt::Display for GlueError {
    fn fmt(&self, f: &mut std::fmt::Formatter) -> std::fmt::Result {
        f.write_str("node codec error")
    }
}

impl std::error::Error for GlueError {}

fn glue_compact(data: &[u8], pos: usize) -> Result<(usize, usize), GlueError> {
    let v: Vec<u8> = data.to_vec();
    match trie_codec::compact::compact_decode(&v, pos) {
        Ok((n, end)) => Ok((n as usize, end)),
        Err(_) => Err(GlueError),
    }
}

fn unpack_partial(packed: &[u8], count: usize) -> Vec<u8> {
    let pad: usize = count % 2;
    let mut out: Vec<u8> = Vec::new();
    for j in 0..count {
        let b: u8 = packed[(j + pad) / 2];
        if (j + pad) % 2 == 0 {
            out.push(b >> 4);
        } else {
            out.push(b & 15);
        }
    }
    out
}

fn value_bytes(value: Value) -> Vec<u8> {
    match value {
        Value::Inline(v) => v.to_vec(),
        Value::Node(_) => unreachable!("values are always inline in this layout"),
    }
}

/// The engine-facing face of the library's node codec.
pub struct GlueCodec;

impl NodeCodec for GlueCodec {
    type Error = GlueError;
    type HashOut = [u8; 32];

    fn hashed_null_node() -> [u8; 32] {
        Blake2Hasher::hash(&[0u8])
    }

    fn decode_plan(data: &[u8]) -> Result<NodePlan, GlueError> {
        if data.is_empty() {
            return Err(GlueError);
        }
        if data[0] == 0 {
            if data.len() == 1 {
                return Ok(NodePlan::Empty);
            }
            return Err(GlueError);
        }
        let tag: u8 = data[0] >> 6;
        if tag == 0 {
            return Err(GlueError);
        }
        let low: usize = (data[0] & 0x3f) as usize;
        let (count, mut pos): (usize, usize) = if low < 63 {
            (low, 1)
        } else {
            let (c, p) = glue_compact(data, 1)?;
            if c == 0 {
                return Err(GlueError);
            }
            (c + 62, p)
        };
        let nbytes: usize = (count + 1) / 2;
        if pos + nbytes > data.len() {
            return Err(GlueError);
        }
        if count % 2 == 1 && data[pos] >> 4 != 0 {
            return Err(GlueError);
        }
        let partial = NibbleSlicePlan::new(pos..pos + nbytes, count % 2);
        pos += nbytes;
        if tag == 1 {
            let (l, p) = glue_compact(data, pos)?;
            let end: usize = p + l;
            if end != data.len() {
                return Err(GlueError);
            }
            return Ok(NodePlan::Leaf { partial, value: ValuePlan::Inline(p..end) });
        }
        if pos + 2 > data.len() {
            return Err(GlueError);
        }
        let bitmap: u16 = data[pos] as u16 | ((data[pos + 1] as u16) << 8);
        pos += 2;
        let mut children: [Option<NodeHandlePlan>; 16] = Default::default();
        for x in 0..16 {
            if bitmap & (1u16 << x) != 0 {
                let (l, p) = glue_compact(data, pos)?;
                let end: usize = p + l;
                if end > data.len() {
                    return Err(GlueError);
                }
                children[x] = Some(if l == 32 {
                    NodeHandlePlan::Hash(p..end)
                } else {
                    NodeHandlePlan::Inline(p..end)
                });
                pos = end;
            }
        }
        let value: Option<ValuePlan> = if tag == 3 {
            let (l, p) = glue_compact(data, pos)?;
            let end: usize = p + l;
            if end > data.len() {
                return Err(GlueError);
            }
            pos = end;
            Some(ValuePlan::Inline(p..end))
        } else {
            None
        };
        if pos != data.len() {
            return Err(GlueError);
        }
        Ok(NodePlan::NibbledBranch { partial, value, children })
    }

    fn is_empty_node(data: &[u8]) -> bool {
        data == [0u8]
    }

    fn empty_node() -> &'static [u8] {
        &[0u8]
    }

    fn leaf_node(partial: impl Iterator<Item = u8>, number_nibble: usize, value: Value) -> Vec<u8> {
        let packed: Vec<u8> = partial.collect();
        let n = Node::Leaf {
            partial: unpack_partial(&packed, number_nibble),
            value: value_bytes(value),
        };
        encode_node(&n)
    }

    fn extension_node(
        _partial: impl Iterator<Item = u8>,
        _number_nibble: usize,
        _child_ref: ChildReference<[u8; 32]>,
    ) -> Vec<u8> {
        unreachable!("this layout has no extension nodes")
    }

    fn branch_node(
        _children: impl Iterator<Item = impl std::borrow::Borrow<Option<ChildReference<[u8; 32]>>>>,
        _value: Option<Value>,
    ) -> Vec<u8> {
        unreachable!("this layout carries partial keys on branches")
    }

    fn branch_node_nibbled(
        partial: impl Iterator<Item = u8>,
        number_nibble: usize,
        children: impl Iterator<Item = impl std::borrow::Borrow<Option<ChildReference<[u8; 32]>>>>,
        value: Option<Value>,
    ) -> Vec<u8> {
        let packed: Vec<u8> = partial.collect();
        let mut out_children: Vec<Option<ChildRef>> = Vec::new();
        for c in children {
            match c.borrow() {
                None => out_children.push(None),
                Some(ChildReference::Hash(h)) => {
                    out_children.push(Some(ChildRef::Digest(h.to_vec())))
                },
                Some(ChildReference::Inline(h, len)) => {
                    out_children.push(Some(ChildRef::Inline(h.as_ref()[..*len].to_vec())))
                },
            }
        }
        while out_children.len() < 16 {
            out_children.push(None);
        }
        let n = Node::Branch {
            partial: unpack_partial(&packed, number_nibble),
            children: out_children,
            value: value.map(value_bytes),
        };
        encode_node(&n)
    }
}

/// The library's layout, as the engine sees it.
pub struct GlueLayout;

impl TrieLayout for GlueLayout {
    const USE_EXTENSION: bool = false;
    const ALLOW_EMPTY: bool = false;
    const MAX_INLINE_VALUE: Option<u32> = None;

    type Hash = Blake2Hasher;
    type Codec = GlueCodec;
}

type MemoryDB = memory_db::MemoryDB<Blake2Hasher, memory_db::HashKey<Blake2Hasher>, Vec<u8>>;

fn check_equivalent(input: &Vec<(&[u8], &[u8])>) {
    let pairs: Vec<(Vec<u8>, Vec<u8>)> =
        input.iter().map(|(k, v)| (k.to_vec(), v.to_vec())).collect();
    let closed_form = Layout::trie_root(&pairs);
    let d = Layout::trie_root_unhashed(&pairs);
    println!("Data: {:#x?}, {:#x?}", d, Blake2Hasher::hash(&d[..]));
    let persistent = {
        let mut memdb = MemoryDB::default();
        let mut root = <Blake2Hasher as Hasher>::Out::default();
        let mut t = trie_db::TrieDBMutBuilder::<GlueLayout>::new(&mut memdb, &mut root).build();
        for (x, y) in input.iter().rev() {
            t.insert(x, y).unwrap();
        }
        *t.root()
    };
    assert_eq!(closed_form, persistent.to_vec());
}

fn check_iteration(input: &Vec<(&[u8], &[u8])>) {
    let pairs: Vec<(Vec<u8>, Vec<u8>)> =
        input.iter().map(|(k, v)| (k.to_vec(), v.to_vec())).collect();
    let (db, root) = build_trie_db(&pairs);
    assert_eq!(pairs, collect_pairs(&db, &root).unwrap());
}

#[test]
fn default_trie_root() {
    let mut db = MemoryDB::default();
    let mut root = <Blake2Hasher as Hasher>::Out::default();
    let mut empty = trie_db::TrieDBMutBuilder::<GlueLayout>::new(&mut db, &mut root).build();
    empty.commit();
    let root1 = empty.root().as_ref().to_vec();
    let input: Vec<(Vec<u8>, Vec<u8>)> = vec![];
    let root2: Vec<u8> = Layout::trie_root(&input);

    assert_eq!(root1, root2);
}

#[test]
fn empty_is_equivalent() {
    let input: Vec<(&[u8], &[u8])> = vec![];
    check_equivalent(&input);
    check_iteration(&input);
}

#[test]
fn leaf_is_equivalent() {
    let input: Vec<(&[u8], &[u8])> = vec![(&[0xaa][..], &[0xbb][..])];
    check_equivalent(&input);
}

#[test]
fn branch_is_equivalent() {
    let input: Vec<(&[u8], &[u8])> =
        vec![(&[0xaa][..], &[0x10][..]), (&[0xba][..], &[0x11][..])];
    check_equivalent(&input);
}

#[test]
fn extension_and_branch_is_equivalent() {
    let input: Vec<(&[u8], &[u8])> =
        vec![(&[0xaa][..], &[0x10][..]), (&[0xab][..], &[0x11][..])];
    check_equivalent(&input);
}

#[test]
fn standard_is_equivalent() {
    let st = StandardMap {
        alphabet: Alphabet::All,
        min_key: 32,
        journal_key: 0,
        value_mode: ValueMode::Random,
        count: 1000,
    };
    let mut d = st.make();
    d.sort_unstable_by(|(ref a, _), (ref b, _)| a.cmp(b));
    d.dedup_by(|a, b| a.0 == b.0);
    let dr: Vec<(&[u8], &[u8])> = d.iter().map(|v| (&v.0[..], &v.1[..])).collect();
    check_equivalent(&dr);
}

#[test]
fn extension_and_branch_with_value_is_equivalent() {
    let input: Vec<(&[u8], &[u8])> = vec![
        (&[0xaa][..], &[0xa0][..]),
        (&[0xaa, 0xaa][..], &[0xaa][..]),
        (&[0xaa, 0xbb][..], &[0xab][..]),
    ];
    check_equivalent(&input);
}

#[test]
fn bigger_extension_and_branch_with_value_is_equivalent() {
    let input: Vec<(&[u8], &[u8])> = vec![
        (&[0xaa][..], &[0xa0][..]),
        (&[0xaa, 0xaa][..], &[0xaa][..]),
        (&[0xaa, 0xbb][..], &[0xab][..]),
        (&[0xbb][..], &[0xb0][..]),
        (&[0xbb, 0xbb][..], &[0xbb][..]),
        (&[0xbb, 0xcc][..], &[0xbc][..]),
    ];
    check_equivalent(&input);
}

#[test]
fn single_long_leaf_is_equivalent() {
    let input: Vec<(&[u8], &[u8])> = vec![
        (
            &[0xaa][..],
            &b"ABCABCABCABCABCABCABCABCABCABCABCABCABCABCABCABCABCABCABCABCABCABCABCABC"[..],
        ),
        (&[0xba][..], &[0x11][..]),
    ];
    check_equivalent(&input);
}

#[test]
fn two_long_leaves_is_equivalent() {
    let input: Vec<(&[u8], &[u8])> = vec![
        (
            &[0xaa][..],
            &b"ABCABCABCABCABCABCABCABCABCABCABCABCABCABCABCABCABCABCABCABCABCABCABCABC"[..],
        ),
        (
            &[0xba][..],
            &b"ABCABCABCABCABCABCABCABCABCABCABCABCABCABCABCABCABCABCABCABCABCABCABCABC"[..],
        ),
    ];
    check_equivalent(&input);
}

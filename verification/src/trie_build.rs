use vstd::prelude::*;
use crate::nibble::{nibbles_of, is_nibbles, cpl, lex_lt, to_nibbles};
use crate::node::{
    Node, ChildRef, SpecNode, SpecChild, child_view, spec_encode_node, encode_node, wf_node,
    wf_child, append_bytes, DIGEST_LEN, MAX_PARTIAL_NIBBLES,
};
use crate::hashing::{blake2_256, blake2_256_of};
use crate::store::NodeStore;

verus! {


/// How a finished child enters its parent: short encodings inline, any
/// other under its digest.
pub open spec fn child_of(enc: Seq<u8>) -> SpecChild {
    if enc.len() < DIGEST_LEN {
        SpecChild::Inline(enc)
    } else {
        SpecChild::Digest(blake2_256_of(enc))
    }
}

/// The end of the run of items from `i` on whose key continues past
/// `shared` with nibble `x`.
pub open spec fn grp_end(
    items: Seq<(Seq<u8>, Seq<u8>)>,
    hi: int,
    i: int,
    shared: int,
    x: u8,
) -> int
    decreases hi - i,
{
    if i < hi && 0 <= i && i < items.len() && items[i].0.len() > shared && items[i].0[shared] == x {
        grp_end(items, hi, i + 1, shared, x)
    } else {
        i
    }
}

pub proof fn lemma_grp_end_bounds(
    items: Seq<(Seq<u8>, Seq<u8>)>,
    hi: int,
    i: int,
    shared: int,
    x: u8,
)
    requires
        i <= hi,
    ensures
        i <= grp_end(items, hi, i, shared, x) <= hi,
    decreases hi - i,
{
    if i < hi && 0 <= i && i < items.len() && items[i].0.len() > shared && items[i].0[shared] == x {
        lemma_grp_end_bounds(items, hi, i + 1, shared, x);
    }
}

/// The canonical encoding of the subtrie over `items[lo..hi)`, all of whose
/// keys extend a common prefix of `depth` nibbles. No items encode as the
/// empty node; one item as a leaf carrying its remaining key; more as a
/// branch whose partial key is the further shared prefix, whose value is
/// the item ending exactly there if any, and whose children are the runs
/// grouped by their next nibble, each inlined or hashed by size.
pub open spec fn spec_trie_enc(items: Seq<(Seq<u8>, Seq<u8>)>, lo: int, hi: int, depth: int) -> Seq<
    u8,
>
    decreases hi - lo, 17int,
{
    if lo < 0 || hi > items.len() || hi <= lo {
        seq![0u8]
    } else if hi - lo == 1 {
        spec_encode_node(
            SpecNode::Leaf { partial: items[lo].0.skip(depth), value: items[lo].1 },
        )
    } else {
        let k0 = items[lo].0;
        let shared = depth + cpl(k0.skip(depth), items[hi - 1].0.skip(depth));
        let has_value = k0.len() == shared;
        let start = if has_value {
            lo + 1
        } else {
            lo
        };
        let children = spec_children_refs(items, start, hi, shared, 0, hi - lo);
        spec_encode_node(
            SpecNode::Branch {
                partial: k0.subrange(depth, shared),
                children,
                value: if has_value {
                    Option::Some(items[lo].1)
                } else {
                    Option::None
                },
            },
        )
    }
}

/// The child slots `x` to sixteen of a branch over `items[i..hi)` opened at
/// depth `shared`: each slot takes the run of keys continuing with its
/// nibble. A run as long as the whole branch's range would not shrink; such
/// a slot stays empty, which a sorted input never produces.
pub open spec fn spec_children_refs(
    items: Seq<(Seq<u8>, Seq<u8>)>,
    i: int,
    hi: int,
    shared: int,
    x: int,
    cap: int,
) -> Seq<Option<SpecChild>>
    decreases cap, 16 - x,
{
    if x >= 16 || cap <= 0 {
        Seq::<Option<SpecChild>>::empty()
    } else {
        let j = grp_end(items, hi, i, shared, x as u8);
        let slot = if i < j && j - i < cap {
            Option::Some(child_of(spec_trie_enc(items, i, j, shared + 1)))
        } else {
            Option::None
        };
        seq![slot] + spec_children_refs(items, if i < j && j - i < cap {
            j
        } else {
            i
        }, hi, shared, x + 1, cap)
    }
}



pub proof fn lemma_grp_end_members(
    items: Seq<(Seq<u8>, Seq<u8>)>,
    hi: int,
    i: int,
    shared: int,
    x: u8,
)
    requires
        0 <= i <= hi <= items.len(),
    ensures
        forall|t: int|
            i <= t < grp_end(items, hi, i, shared, x) ==> (#[trigger] items[t].0).len() > shared
                && items[t].0[shared] == x,
    decreases hi - i,
{
    if i < hi && items[i].0.len() > shared && items[i].0[shared] == x {
        lemma_grp_end_members(items, hi, i + 1, shared, x);
        lemma_grp_end_bounds(items, hi, i + 1, shared, x);
    }
}

/// The deep view of the builder's working list.
pub open spec fn items_view(items: &Vec<(Vec<u8>, Vec<u8>)>) -> Seq<(Seq<u8>, Seq<u8>)> {
    items@.map_values(|p: (Vec<u8>, Vec<u8>)| (p.0@, p.1@))
}

/// Keys are nibble paths within the header's reach and values within the
/// length prefix's reach.
pub open spec fn wf_items(items: Seq<(Seq<u8>, Seq<u8>)>) -> bool {
    forall|i: int|
        0 <= i < items.len() ==> is_nibbles((#[trigger] items[i]).0) && items[i].0.len()
            <= MAX_PARTIAL_NIBBLES && items[i].1.len() < 0x1_0000_0000
}

/// Every entry of the store files some byte string under its own digest.
pub open spec fn store_hashed_ok(s: Seq<(Seq<u8>, Seq<u8>)>) -> bool {
    forall|i: int| 0 <= i < s.len() ==> (#[trigger] s[i]).0 == blake2_256_of(s[i].1)
}

/// Builds the encoding of the subtrie over `items[lo..hi)`, filing every
/// hashed child under its digest in `db`.
#[verifier::rlimit(100)]
fn build_enc(
    items: &Vec<(Vec<u8>, Vec<u8>)>,
    lo: usize,
    hi: usize,
    depth: usize,
    db: &mut NodeStore,
) -> (r: Vec<u8>)
    requires
        lo < hi,
        hi <= items@.len(),
        wf_items(items_view(items)),
        forall|t: int| lo <= t < hi ==> (#[trigger] items_view(items)[t]).0.len() >= depth,
    ensures
        r@ == spec_trie_enc(items_view(items), lo as int, hi as int, depth as int),
        old(db)@.is_prefix_of(final(db)@),
        forall|i: int|
            old(db)@.len() <= i < final(db)@.len() ==> (#[trigger] final(db)@[i]).0
                == blake2_256_of(final(db)@[i].1),
    decreases hi - lo,
{
    let ghost iv = items_view(items);
    assert(forall|t: int|
        0 <= t < items@.len() ==> #[trigger] iv[t] == (items@[t].0@, items@[t].1@));
    if hi - lo == 1 {
        let partial = crate::nibble::vec_range(&items[lo].0, depth, items[lo].0.len());
        let mut value: Vec<u8> = Vec::new();
        append_bytes(&mut value, &items[lo].1);
        let n = Node::Leaf { partial, value };
        assert(partial@ =~= iv[lo as int].0.skip(depth as int));
        assert(wf_node(n@));
        let r = encode_node(&n);
        r
    } else {
        let cap: usize = hi - lo;
        assert(iv[lo as int].0.len() >= depth && iv[hi as int - 1].0.len() >= depth);
        let c = crate::nibble::common_prefix_from(&items[lo].0, &items[hi - 1].0, depth);
        let shared: usize = depth + c;
        assert(shared as int == depth + cpl(
            iv[lo as int].0.skip(depth as int),
            iv[hi as int - 1].0.skip(depth as int),
        ));
        let has_value: bool = items[lo].0.len() == shared;
        let start: usize = if has_value {
            lo + 1
        } else {
            lo
        };
        let partial = crate::nibble::vec_range(&items[lo].0, depth, shared);
        let ghost refs = spec_children_refs(iv, start as int, hi as int, shared as int, 0, cap as int);
        let mut children: Vec<Option<ChildRef>> = Vec::new();
        let mut i: usize = start;
        let mut x: u8 = 0;
        while x < 16
            invariant
                x <= 16,
                children@.len() == x,
                lo < hi,
                hi <= items@.len(),
                start <= i <= hi,
                cap == hi - lo,
                iv == items_view(items),
                wf_items(iv),
                forall|t: int|
                    0 <= t < items@.len() ==> #[trigger] iv[t] == (items@[t].0@, items@[t].1@),
                refs == spec_children_refs(iv, start as int, hi as int, shared as int, 0, cap as int),
                refs == children@.map_values(|cc: Option<ChildRef>| child_view(cc))
                    + spec_children_refs(iv, i as int, hi as int, shared as int, x as int, cap as int),
                forall|t: int|
                    0 <= t < children@.len() ==> (#[trigger] child_view(children@[t]) matches Option::Some(cc)
                        ==> wf_child(cc)),
                old(db)@.is_prefix_of(db@),
                forall|i: int|
                    old(db)@.len() <= i < db@.len() ==> (#[trigger] db@[i]).0 == blake2_256_of(
                        db@[i].1,
                    ),
            decreases 16 - x,
        {
            let mut j: usize = i;
            proof {
                lemma_grp_end_bounds(iv, hi as int, j as int, shared as int, x);
            }
            while j < hi && items[j].0.len() > shared && items[j].0[shared] == x
                invariant
                    i <= j <= hi,
                    hi <= items@.len(),
                    iv == items_view(items),
                    forall|t: int|
                        0 <= t < items@.len() ==> #[trigger] iv[t] == (items@[t].0@, items@[t].1@),
                    grp_end(iv, hi as int, i as int, shared as int, x) == grp_end(
                        iv,
                        hi as int,
                        j as int,
                        shared as int,
                        x,
                    ),
                decreases hi - j,
            {
                j = j + 1;
            }
            proof {
                assert(grp_end(iv, hi as int, j as int, shared as int, x) == j as int);
                assert(grp_end(iv, hi as int, i as int, shared as int, x) == j as int);
            }
            let ghost db_iter = db@;
            let slot: Option<ChildRef> = if i < j && j - i < cap {
                proof {
                    lemma_grp_end_members(iv, hi as int, i as int, shared as int, x);
                    assert(forall|t: int|
                        i <= t < j ==> (#[trigger] iv[t]).0.len() >= shared as int + 1);
                }
                let sub = build_enc(items, i, j, shared + 1, db);
                let cref: ChildRef = if sub.len() < DIGEST_LEN {
                    ChildRef::Inline(sub)
                } else {
                    let d = blake2_256(&sub);
                    let d2 = crate::hashing::convert_hash(&d);
                    let ghost dbb = db@;
                    db.insert(d, sub);
                    proof {
                        assert(dbb.is_prefix_of(db@));
                        assert(db@[db@.len() - 1].0 == blake2_256_of(db@[db@.len() - 1].1));
                    }
                    ChildRef::Digest(d2)
                };
                proof {
                    assert(db_iter.is_prefix_of(db@));
                    assert forall|ii: int|
                        old(db)@.len() <= ii < db@.len() implies (#[trigger] db@[ii]).0
                        == blake2_256_of(db@[ii].1) by {
                        if ii < db_iter.len() {
                            assert(db_iter[ii] == db@.subrange(0, db_iter.len() as int)[ii]);
                            assert(db@[ii] == db_iter[ii]);
                        }
                    }
                }
                assert(child_view(Option::Some(cref)) == Option::Some(
                    child_of(spec_trie_enc(iv, i as int, j as int, shared as int + 1)),
                ));
                i = j;
                Option::Some(cref)
            } else {
                Option::None
            };
            let ghost oldc = children@;
            children.push(slot);
            proof {
                assert(children@.map_values(|cc: Option<ChildRef>| child_view(cc)) =~= oldc
                    .map_values(|cc: Option<ChildRef>| child_view(cc)) + seq![child_view(slot)]);
                assert(oldc.map_values(|cc: Option<ChildRef>| child_view(cc)) + (seq![
                    child_view(slot),
                ] + spec_children_refs(iv, i as int, hi as int, shared as int, x as int + 1, cap as int))
                    =~= (oldc.map_values(|cc: Option<ChildRef>| child_view(cc)) + seq![
                    child_view(slot),
                ]) + spec_children_refs(iv, i as int, hi as int, shared as int, x as int + 1, cap as int));
            }
            x = x + 1;
        }
        proof {
            assert(spec_children_refs(iv, i as int, hi as int, shared as int, 16, cap as int)
                =~= Seq::<Option<SpecChild>>::empty());
            assert(refs =~= children@.map_values(|cc: Option<ChildRef>| child_view(cc)));
        }
        let value: Option<Vec<u8>> = if has_value {
            let mut v: Vec<u8> = Vec::new();
            append_bytes(&mut v, &items[lo].1);
            Option::Some(v)
        } else {
            Option::None
        };
        let n = Node::Branch { partial, children, value };
        assert(partial@ =~= iv[lo as int].0.subrange(depth as int, shared as int));
        assert(wf_node(n@));
        let r = encode_node(&n);
        proof {
            assert(n@ == SpecNode::Branch {
                partial: iv[lo as int].0.subrange(depth as int, shared as int),
                children: refs,
                value: if iv[lo as int].0.len() == shared as int {
                    Option::Some(iv[lo as int].1)
                } else {
                    Option::None
                },
            });
        }
        r
    }
}

/// The serialized trie over sorted byte-key pairs: keys become nibble
/// paths and the subtrie encoding over all of them is taken from the root.
pub open spec fn spec_trie_unhashed(pairs: Seq<(Seq<u8>, Seq<u8>)>) -> Seq<u8> {
    spec_trie_enc(
        pairs.map_values(|p: (Seq<u8>, Seq<u8>)| (nibbles_of(p.0), p.1)),
        0,
        pairs.len() as int,
        0,
    )
}

/// Keys short enough for the header, values short enough for the length
/// prefix and never empty: a stored value always has at least one byte.
pub open spec fn pairs_wf(pairs: Seq<(Seq<u8>, Seq<u8>)>) -> bool {
    forall|i: int|
        0 <= i < pairs.len() ==> (#[trigger] pairs[i]).0.len() <= 32767 && 1 <= pairs[i].1.len()
            < 0x1_0000_0000
}

/// Strictly increasing by raw key bytes.
pub open spec fn pairs_sorted(pairs: Seq<(Seq<u8>, Seq<u8>)>) -> bool {
    forall|i: int|
        0 <= i < pairs.len() - 1 ==> lex_lt((#[trigger] pairs[i]).0, pairs[i + 1].0)
}

/// The deep view of a list of byte-key pairs.
pub open spec fn pairs_view(pairs: &Vec<(Vec<u8>, Vec<u8>)>) -> Seq<(Seq<u8>, Seq<u8>)> {
    pairs@.map_values(|p: (Vec<u8>, Vec<u8>)| (p.0@, p.1@))
}

/// Serializes the whole trie over the sorted pairs, filing hashed nodes,
/// the root among them, in `db`, and returns the encoded root node.
pub fn build_trie(pairs: &Vec<(Vec<u8>, Vec<u8>)>, db: &mut NodeStore) -> (r: Vec<u8>)
    requires
        pairs_wf(pairs_view(pairs)),
        pairs_sorted(pairs_view(pairs)),
    ensures
        r@ == spec_trie_unhashed(pairs_view(pairs)),
        old(db)@.is_prefix_of(final(db)@),
        forall|i: int|
            old(db)@.len() <= i < final(db)@.len() ==> (#[trigger] final(db)@[i]).0
                == blake2_256_of(final(db)@[i].1),
{
    let ghost pv = pairs_view(pairs);
    let ghost iv = pv.map_values(|p: (Seq<u8>, Seq<u8>)| (nibbles_of(p.0), p.1));
    let mut items: Vec<(Vec<u8>, Vec<u8>)> = Vec::new();
    let mut t: usize = 0;
    while t < pairs.len()
        invariant
            t <= pairs.len(),
            pv == pairs_view(pairs),
            iv == pv.map_values(|p: (Seq<u8>, Seq<u8>)| (nibbles_of(p.0), p.1)),
            items_view(&items) == iv.take(t as int),
            pairs_wf(pv),
        decreases pairs.len() - t,
    {
        assert(pv[t as int] == (pairs@[t as int].0@, pairs@[t as int].1@));
        let k = to_nibbles(&pairs[t].0);
        let mut v: Vec<u8> = Vec::new();
        append_bytes(&mut v, &pairs[t].1);
        let ghost before = items_view(&items);
        items.push((k, v));
        proof {
            assert(items_view(&items) =~= before.push((k@, v@)));
            assert(items_view(&items) =~= iv.take(t as int + 1));
        }
        t = t + 1;
    }
    proof {
        assert(items_view(&items) =~= iv);
    }
    if items.len() == 0 {
        let mut r: Vec<u8> = Vec::new();
        r.push(0u8);
        assert(r@ =~= spec_trie_unhashed(pv));
        r
    } else {
        proof {
            assert(forall|i: int|
                0 <= i < iv.len() ==> #[trigger] iv[i] == (nibbles_of(pv[i].0), pv[i].1));
            assert forall|i: int| 0 <= i < iv.len() implies is_nibbles((#[trigger] iv[i]).0)
                && iv[i].0.len() <= MAX_PARTIAL_NIBBLES && iv[i].1.len() < 0x1_0000_0000 by {
                crate::nibble::lemma_nibbles_of_is_nibbles(pv[i].0);
                assert(pv[i].0.len() <= 32767);
            }
            assert(wf_items(iv));
        }
        let r = build_enc(&items, 0, items.len(), 0, db);
        r
    }
}


/// Two positions of a sorted pair list order their keys.
pub proof fn lemma_sorted_index(p: Seq<(Seq<u8>, Seq<u8>)>, i: int, j: int)
    requires
        pairs_sorted(p),
        0 <= i < j < p.len(),
    ensures
        lex_lt(p[i].0, p[j].0),
    decreases j - i,
{
    if j == i + 1 {
    } else {
        lemma_sorted_index(p, i, j - 1);
        crate::nibble::lemma_lex_trans(p[i].0, p[j - 1].0, p[j].0);
    }
}

/// The two lists hold the same pairs.
pub open spec fn same_pairs(p1: Seq<(Seq<u8>, Seq<u8>)>, p2: Seq<(Seq<u8>, Seq<u8>)>) -> bool {
    forall|x: (Seq<u8>, Seq<u8>)| p1.contains(x) <==> p2.contains(x)
}

proof fn lemma_sorted_first_equal(p1: Seq<(Seq<u8>, Seq<u8>)>, p2: Seq<(Seq<u8>, Seq<u8>)>)
    requires
        pairs_sorted(p1),
        pairs_sorted(p2),
        same_pairs(p1, p2),
        p1.len() > 0,
    ensures
        p2.len() > 0,
        p1[0] == p2[0],
{
    assert(p1.contains(p1[0]));
    assert(p2.contains(p1[0]));
    let j = choose|j: int| 0 <= j < p2.len() && p2[j] == p1[0];
    assert(p2.contains(p2[0]));
    assert(p1.contains(p2[0]));
    let i = choose|i: int| 0 <= i < p1.len() && p1[i] == p2[0];
    if i > 0 && j > 0 {
        lemma_sorted_index(p2, 0, j);
        lemma_sorted_index(p1, 0, i);
        crate::nibble::lemma_lex_asym(p2[0].0, p2[j].0);
    }
}

proof fn lemma_sorted_tail_contains(p1: Seq<(Seq<u8>, Seq<u8>)>, p2: Seq<(Seq<u8>, Seq<u8>)>)
    requires
        pairs_sorted(p1),
        pairs_sorted(p2),
        same_pairs(p1, p2),
        p1.len() > 0,
        p2.len() > 0,
        p1[0] == p2[0],
    ensures
        forall|x: (Seq<u8>, Seq<u8>)| p1.skip(1).contains(x) ==> p2.skip(1).contains(x),
{
    let t1 = p1.skip(1);
    let t2 = p2.skip(1);
    assert forall|x: (Seq<u8>, Seq<u8>)| t1.contains(x) implies t2.contains(x) by {
        let k = choose|k: int| 0 <= k < t1.len() && t1[k] == x;
        assert(t1[k] == p1[k + 1]);
        assert(p1.contains(x)) by {
            assert(p1[k + 1] == x);
        }
        assert(p2.contains(x));
        let m = choose|m: int| 0 <= m < p2.len() && p2[m] == x;
        lemma_sorted_index(p1, 0, k + 1);
        if m == 0 {
            crate::nibble::lemma_lex_irrefl(p1[0].0);
            assert(false);
        }
        assert(t2[m - 1] == x);
    }
}

/// Determinism: a strictly sorted pair list is pinned down by the set of
/// pairs it holds, so any two sorted listings of one key/value set are the
/// same list and serialize to the same trie, whatever order the pairs
/// arrived in upstream.
#[verifier::rlimit(100)]
#[verifier::spinoff_prover]
pub proof fn lemma_sorted_pairs_unique(p1: Seq<(Seq<u8>, Seq<u8>)>, p2: Seq<(Seq<u8>, Seq<u8>)>)
    requires
        pairs_sorted(p1),
        pairs_sorted(p2),
        same_pairs(p1, p2),
    ensures
        p1 == p2,
        spec_trie_unhashed(p1) == spec_trie_unhashed(p2),
    decreases p1.len(),
{
    if p1.len() == 0 {
        if p2.len() > 0 {
            assert(p2.contains(p2[0]));
            assert(p1.contains(p2[0]));
        }
        assert(p1 =~= p2);
    } else {
        lemma_sorted_first_equal(p1, p2);
        let t1 = p1.skip(1);
        let t2 = p2.skip(1);
        assert forall|k: int| 0 <= k < t1.len() - 1 implies lex_lt(
            (#[trigger] t1[k]).0,
            t1[k + 1].0,
        ) by {
            assert(t1[k] == p1[k + 1] && t1[k + 1] == p1[k + 2]);
        }
        assert forall|k: int| 0 <= k < t2.len() - 1 implies lex_lt(
            (#[trigger] t2[k]).0,
            t2[k + 1].0,
        ) by {
            assert(t2[k] == p2[k + 1] && t2[k + 1] == p2[k + 2]);
        }
        lemma_sorted_tail_contains(p1, p2);
        lemma_sorted_tail_contains(p2, p1);
        assert(same_pairs(t1, t2));
        lemma_sorted_pairs_unique(t1, t2);
        assert(p1.len() == p2.len());
        assert forall|i: int| 0 <= i < p1.len() implies p1[i] == p2[i] by {
            if i > 0 {
                assert(t1[i - 1] == p1[i]);
                assert(t2[i - 1] == p2[i]);
            }
        }
        assert(p1 =~= p2);
    }
}

/// Builds the trie over the sorted pairs into a fresh store, filing every
/// hashed node, the root node among them, and returns the store and the
/// root digest.
pub fn build_trie_db(pairs: &Vec<(Vec<u8>, Vec<u8>)>) -> (r: (NodeStore, Vec<u8>))
    requires
        pairs_wf(pairs_view(pairs)),
        pairs_sorted(pairs_view(pairs)),
    ensures
        r.1@ == blake2_256_of(spec_trie_unhashed(pairs_view(pairs))),
        r.1@.len() == 32,
        store_hashed_ok(r.0@),
        exists|i: int|
            0 <= i < r.0@.len() && #[trigger] r.0@[i] == (
                r.1@,
                spec_trie_unhashed(pairs_view(pairs)),
            ),
        r.0.contains_digest(r.1@),
{
    let mut db = NodeStore::new();
    let enc = build_trie(pairs, &mut db);
    let root = blake2_256(&enc);
    let root_key = crate::hashing::convert_hash(&root);
    let ghost before = db@;
    db.insert(root_key, enc);
    proof {
        assert(db@[db@.len() - 1] == (root@, spec_trie_unhashed(pairs_view(pairs))));
        assert forall|ii: int|
            0 <= ii < db@.len() implies (#[trigger] db@[ii]).0 == blake2_256_of(db@[ii].1) by {
            if ii < before.len() {
                assert(db@[ii] == before[ii]);
            }
        }
    }
    (db, root)
}

} // verus!

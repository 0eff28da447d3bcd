use vstd::prelude::*;
use crate::node::{
    Node, ChildRef, decode_node, encode_node, node_wf_check, nibbles_check, append_bytes,
    DIGEST_LEN,
};
use crate::error::Error;
use crate::hashing::blake2_256;
use crate::nibble::{to_nibbles, nibbles_to_bytes, is_nibbles, bytes_of_nibbles, nibbles_of};
use crate::node::{spec_decode_node, spec_encode_node, wf_node, child_view, SpecNode, SpecChild};
use crate::store::{NodeStore, bytes_eq};

verus! {

/// Failure of proof verification, each kind telling the caller what broke.
#[derive(Debug, PartialEq, Eq, Structural)]
pub enum VerifyError {
    /// A node in the proof is used by no walk.
    ExtraneousNode,
    /// A node the walk needs is not in the proof.
    IncompleteProof,
    /// The root implied by the proof differs from the given root.
    RootMismatch,
    /// A key resolves to something other than what was asserted.
    ValueMismatch,
    /// A node in the proof does not decode.
    DecodeError,
}

/// The deep view of an assertion list: byte keys and optional values.
pub open spec fn items_deep(items: Seq<(Vec<u8>, Option<Vec<u8>>)>) -> Seq<
    (Seq<u8>, Option<Seq<u8>>),
> {
    items.map_values(
        |p: (Vec<u8>, Option<Vec<u8>>)|
            (
                p.0@,
                match p.1 {
                    Option::None => Option::<Seq<u8>>::None,
                    Option::Some(v) => Option::Some(v@),
                },
            ),
    )
}

/// The first asserted value for `key`, scanning the items from `t` on;
/// an item asserting absence does not count.
pub open spec fn spec_asserted_from(
    items: Seq<(Seq<u8>, Option<Seq<u8>>)>,
    key: Seq<u8>,
    t: int,
) -> Option<Seq<u8>>
    decreases items.len() - t,
{
    if t < 0 || t >= items.len() {
        Option::None
    } else if items[t].0 == key && items[t].1 is Some {
        items[t].1
    } else {
        spec_asserted_from(items, key, t + 1)
    }
}

/// The value the items assert for the key whose nibble path is `full`:
/// nothing unless `full` is a whole-byte nibble path with a matching item.
pub open spec fn spec_asserted_for(
    items: Seq<(Seq<u8>, Option<Seq<u8>>)>,
    full: Seq<u8>,
) -> Option<Seq<u8>> {
    if full.len() % 2 != 0 || !is_nibbles(full) {
        Option::None
    } else {
        spec_asserted_from(items, bytes_of_nibbles(full), 0)
    }
}

/// What a walk for one key finds in a rebuilt trie.
pub enum SpecLookup {
    Found(Seq<u8>),
    Absent,
    MissingNode,
    Broken,
}

/// The walk from the node `bytes` for the suffix of `key` from `depth`
/// on, resolving stored children from the first matching store entry: the
/// value found, proven absence, a missing stored node, or a walk that
/// breaks on bytes no node decodes from.
pub open spec fn spec_lookup(
    store: Seq<(Seq<u8>, Seq<u8>)>,
    bytes: Seq<u8>,
    key: Seq<u8>,
    depth: int,
    fuel: nat,
) -> SpecLookup
    decreases fuel,
{
    if fuel == 0 {
        SpecLookup::Broken
    } else {
        match spec_decode_node(bytes) {
            Option::None => SpecLookup::Broken,
            Option::Some(n) => match n {
                SpecNode::Empty => SpecLookup::Absent,
                SpecNode::Leaf { partial, value } => if key.len() == depth + partial.len()
                    && key.subrange(depth, depth + partial.len() as int) == partial {
                    SpecLookup::Found(value)
                } else {
                    SpecLookup::Absent
                },
                SpecNode::Branch { partial, children, value } => if children.len() != 16 {
                    SpecLookup::Broken
                } else if partial.len() > 65535 || depth > usize::MAX - partial.len() - 1 {
                    SpecLookup::Broken
                } else if !(key.len() >= depth + partial.len() && key.subrange(
                    depth,
                    depth + partial.len() as int,
                ) == partial) {
                    SpecLookup::Absent
                } else if key.len() == depth + partial.len() {
                    match value {
                        Option::Some(v) => SpecLookup::Found(v),
                        Option::None => SpecLookup::Absent,
                    }
                } else {
                    let x = key[depth + partial.len()];
                    if x >= 16 {
                        SpecLookup::Broken
                    } else {
                        match children[x as int] {
                            Option::None => SpecLookup::Absent,
                            Option::Some(SpecChild::Inline(b)) => spec_lookup(
                                store,
                                b,
                                key,
                                depth + partial.len() + 1,
                                (fuel - 1) as nat,
                            ),
                            Option::Some(SpecChild::Digest(h)) => match NodeStore::spec_get(
                                store,
                                h,
                            ) {
                                Option::Some(cb) => spec_lookup(
                                    store,
                                    cb,
                                    key,
                                    depth + partial.len() + 1,
                                    (fuel - 1) as nat,
                                ),
                                Option::None => SpecLookup::MissingNode,
                            },
                        }
                    }
                },
            },
        }
    }
}

/// Whether `p` continues `key` at `depth`: the next nibbles of `key` are
/// exactly the elements of `p`.
fn key_continues_with(key: &Vec<u8>, depth: usize, p: &Vec<u8>) -> (r: bool)
    ensures
        r == (key@.len() >= depth + p@.len() && key@.subrange(
            depth as int,
            depth + p@.len() as int,
        ) == p@),
{
    if key.len() < depth || key.len() - depth < p.len() {
        return false;
    }
    let klen: usize = key.len();
    let plen: usize = p.len();
    let mut i: usize = 0;
    while i < plen
        invariant
            klen == key@.len(),
            plen == p@.len(),
            depth <= klen,
            plen <= klen - depth,
            i <= plen,
            forall|j: int| 0 <= j < i ==> key@[depth + j] == p@[j],
        decreases plen - i,
    {
        if key[depth + i] != p[i] {
            assert(key@.subrange(depth as int, depth + p@.len() as int)[i as int] != p@[i as int]);
            return false;
        }
        i = i + 1;
    }
    proof {
        assert(key@.subrange(depth as int, depth + p@.len() as int) =~= p@);
    }
    true
}

/// Whether `key` ends at `depth + p.len()` after continuing with `p`.
fn key_ends_with(key: &Vec<u8>, depth: usize, p: &Vec<u8>) -> (r: bool)
    ensures
        r == (key@.len() == depth + p@.len() && key@.subrange(
            depth as int,
            depth + p@.len() as int,
        ) == p@),
{
    if key.len() < depth || key.len() - depth != p.len() {
        return false;
    }
    key_continues_with(key, depth, p)
}

/// Makes an owned copy of a byte vector.
fn clone_bytes(v: &Vec<u8>) -> (r: Vec<u8>)
    ensures
        r@ == v@,
{
    let mut out: Vec<u8> = Vec::new();
    append_bytes(&mut out, v);
    out
}

/// Whether some key from `t` on ends exactly where the partial does.
pub open spec fn spec_requested_from(
    keys: Seq<Seq<u8>>,
    t: int,
    depth: int,
    partial: Seq<u8>,
) -> bool
    decreases keys.len() - t,
{
    if t < 0 || t >= keys.len() {
        false
    } else {
        (keys[t].len() == depth + partial.len() && keys[t].subrange(
            depth,
            depth + partial.len() as int,
        ) == partial) || spec_requested_from(keys, t + 1, depth, partial)
    }
}

/// The keys from `t` on that continue past the partial into slot `x`,
/// in order.
pub open spec fn spec_sub_keys_from(
    keys: Seq<Seq<u8>>,
    t: int,
    depth: int,
    partial: Seq<u8>,
    x: u8,
) -> Seq<Seq<u8>>
    decreases keys.len() - t,
{
    if t < 0 || t >= keys.len() {
        Seq::<Seq<u8>>::empty()
    } else {
        let head = if keys[t].len() >= depth + partial.len() && keys[t].subrange(
            depth,
            depth + partial.len() as int,
        ) == partial && keys[t].len() > depth + partial.len() && keys[t][depth
            + partial.len()] == x {
            seq![keys[t]]
        } else {
            Seq::<Seq<u8>>::empty()
        };
        head + spec_sub_keys_from(keys, t + 1, depth, partial, x)
    }
}

/// One slot's proof form: a slot no key descends into passes through; a
/// walked inline child is replaced by its proof form; a walked stored
/// child becomes an empty marker slot, and its proof form leads the
/// entries it contributes.
pub open spec fn spec_gen_slot(
    db: Seq<(Seq<u8>, Seq<u8>)>,
    child: Option<SpecChild>,
    sub_keys: Seq<Seq<u8>>,
    depth2: int,
    fuel: nat,
) -> Result<(Option<SpecChild>, Seq<Seq<u8>>), Error>
    decreases fuel, 0int,
{
    if fuel == 0 {
        Result::Err(Error::BadFormat)
    } else {
        match child {
            Option::None => Result::Ok((Option::<SpecChild>::None, Seq::<Seq<u8>>::empty())),
            Option::Some(SpecChild::Inline(b)) => if sub_keys.len() > 0 {
                match spec_generate_step(db, b, sub_keys, depth2, (fuel - 1) as nat) {
                    Result::Err(e) => Result::Err(e),
                    Result::Ok((modified, sub_entries)) => if modified.len() >= 32 {
                        Result::Err(Error::BadFormat)
                    } else {
                        Result::Ok((Option::Some(SpecChild::Inline(modified)), sub_entries))
                    },
                }
            } else {
                Result::Ok((Option::Some(SpecChild::Inline(b)), Seq::<Seq<u8>>::empty()))
            },
            Option::Some(SpecChild::Digest(h)) => if sub_keys.len() > 0 {
                match NodeStore::spec_get(db, h) {
                    Option::None => Result::Err(Error::BadFormat),
                    Option::Some(cb) => match spec_generate_step(
                        db,
                        cb,
                        sub_keys,
                        depth2,
                        (fuel - 1) as nat,
                    ) {
                        Result::Err(e) => Result::Err(e),
                        Result::Ok((modified, sub_entries)) => Result::Ok(
                            (
                                Option::Some(SpecChild::Inline(Seq::<u8>::empty())),
                                seq![modified] + sub_entries,
                            ),
                        ),
                    },
                }
            } else {
                Result::Ok((Option::Some(SpecChild::Digest(h)), Seq::<Seq<u8>>::empty()))
            },
        }
    }
}

/// Proof forms of the child slots from `x` up, with the entries each
/// walked stored child contributes, in ascending slot order.
pub open spec fn spec_gen_children(
    db: Seq<(Seq<u8>, Seq<u8>)>,
    children: Seq<Option<SpecChild>>,
    x: int,
    keys: Seq<Seq<u8>>,
    depth: int,
    partial: Seq<u8>,
    fuel: nat,
) -> Result<(Seq<Option<SpecChild>>, Seq<Seq<u8>>), Error>
    decreases fuel, 16 - x,
{
    if x >= 16 {
        Result::Ok((Seq::<Option<SpecChild>>::empty(), Seq::<Seq<u8>>::empty()))
    } else if fuel == 0 {
        Result::Err(Error::BadFormat)
    } else {
        let sub_keys = spec_sub_keys_from(keys, 0, depth, partial, x as u8);
        match spec_gen_slot(db, children[x], sub_keys, depth + partial.len() + 1, fuel) {
            Result::Err(e) => Result::Err(e),
            Result::Ok((slot, ent)) => match spec_gen_children(
                db,
                children,
                x + 1,
                keys,
                depth,
                partial,
                fuel,
            ) {
                Result::Err(e) => Result::Err(e),
                Result::Ok((rest, rest_ent)) => Result::Ok(
                    (seq![slot] + rest, ent + rest_ent),
                ),
            },
        }
    }
}

/// The proof form of the node `bytes` for the given keys, already
/// advanced to `depth`, with the proof forms of every stored descendant
/// the walks touch, parents first: a requested key's value is left out
/// and a walked stored child is marked by an empty inline slot.
pub open spec fn spec_generate_step(
    db: Seq<(Seq<u8>, Seq<u8>)>,
    bytes: Seq<u8>,
    keys: Seq<Seq<u8>>,
    depth: int,
    fuel: nat,
) -> Result<(Seq<u8>, Seq<Seq<u8>>), Error>
    decreases fuel, 17int,
{
    if fuel == 0 {
        Result::Err(Error::BadFormat)
    } else {
        match spec_decode_node(bytes) {
            Option::None => Result::Err(crate::node::spec_decode_node_err(bytes)),
            Option::Some(n) => match n {
                SpecNode::Empty => Result::Ok((seq![0u8], Seq::<Seq<u8>>::empty())),
                SpecNode::Leaf { partial, value } => {
                    let requested = spec_requested_from(keys, 0, depth, partial);
                    let out_value = if requested {
                        Seq::<u8>::empty()
                    } else {
                        value
                    };
                    let m = SpecNode::Leaf { partial, value: out_value };
                    if !wf_node(m) {
                        Result::Err(Error::BadFormat)
                    } else {
                        Result::Ok((spec_encode_node(m), Seq::<Seq<u8>>::empty()))
                    }
                },
                SpecNode::Branch { partial, children, value } => if children.len() != 16 {
                    Result::Err(Error::BadFormat)
                } else if partial.len() > 65535 || depth > usize::MAX - partial.len() - 1 {
                    Result::Err(Error::BadFormat)
                } else {
                    let requested = spec_requested_from(keys, 0, depth, partial);
                    let out_value = match value {
                        Option::Some(v) => if requested {
                            Option::Some(Seq::<u8>::empty())
                        } else {
                            Option::Some(v)
                        },
                        Option::None => Option::<Seq<u8>>::None,
                    };
                    match spec_gen_children(db, children, 0, keys, depth, partial, fuel) {
                        Result::Err(e) => Result::Err(e),
                        Result::Ok((cs, entries)) => {
                            let m = SpecNode::Branch { partial, children: cs, value: out_value };
                            if !wf_node(m) {
                                Result::Err(Error::BadFormat)
                            } else {
                                Result::Ok((spec_encode_node(m), entries))
                            }
                        },
                    }
                },
            },
        }
    }
}

/// The walk fuel a key set affords: two plus one per key nibble, refused
/// outright for outsized keys.
pub open spec fn spec_gen_fuel(nkeys: Seq<Seq<u8>>, t: int, fuel: nat) -> Result<nat, Error>
    decreases nkeys.len() - t,
{
    if t < 0 || t >= nkeys.len() {
        Result::Ok(fuel)
    } else if nkeys[t].len() > 0x100_0000 || fuel > 0x4000_0000 {
        Result::Err(Error::BadFormat)
    } else {
        spec_gen_fuel(nkeys, t + 1, (fuel + nkeys[t].len()) as nat)
    }
}

/// What proof generation produces, as a function of the store, the root
/// and the byte keys alone: the root node's proof form first, then the
/// walked stored descendants' forms in walk order.
pub open spec fn spec_generate(
    db: Seq<(Seq<u8>, Seq<u8>)>,
    root: Seq<u8>,
    keys: Seq<Seq<u8>>,
) -> Result<Seq<Seq<u8>>, Error> {
    match NodeStore::spec_get(db, root) {
        Option::None => Result::Err(Error::BadFormat),
        Option::Some(root_bytes) => {
            let nkeys = keys.map_values(|k: Seq<u8>| nibbles_of(k));
            match spec_gen_fuel(nkeys, 0, 2) {
                Result::Err(e) => Result::Err(e),
                Result::Ok(fuel) => match spec_generate_step(db, root_bytes, nkeys, 0, fuel) {
                    Result::Err(e) => Result::Err(e),
                    Result::Ok((form, entries)) => Result::Ok(seq![form] + entries),
                },
            }
        },
    }
}

/// Appends copies of all of `sub` to `entries`.
#[verifier::loop_isolation(false)]
fn append_entries(entries: &mut Vec<Vec<u8>>, sub: &Vec<Vec<u8>>)
    ensures
        proof_deep(final(entries)@) == proof_deep(old(entries)@) + proof_deep(sub@),
{
    let ghost before = proof_deep(entries@);
    assert(before =~= before + proof_deep(sub@).take(0));
    let mut e: usize = 0;
    while e < sub.len()
        invariant
            e <= sub.len(),
            proof_deep(entries@) == before + proof_deep(sub@).take(e as int),
        decreases sub.len() - e,
    {
        let ghost pre_deep = proof_deep(entries@);
        let c = clone_bytes(&sub[e]);
        let ghost cv = c@;
        entries.push(c);
        proof {
            assert(cv == proof_deep(sub@)[e as int]);
            assert forall|i: int|
                0 <= i < entries@.len() implies #[trigger] proof_deep(entries@)[i] == pre_deep.push(
                cv,
            )[i] by {
                assert(proof_deep(entries@)[i] == entries@[i]@);
                if i < pre_deep.len() {
                    assert(proof_deep(entries@)[i] == pre_deep[i]);
                }
            }
            assert(proof_deep(entries@) =~= pre_deep.push(cv));
            assert(pre_deep.push(cv) =~= before + proof_deep(sub@).take(e as int + 1));
        }
        e = e + 1;
    }
    proof {
        assert(before + proof_deep(sub@).take(sub@.len() as int) =~= before + proof_deep(sub@));
    }
}

/// Produces one slot's proof form, appending the entries a walked stored
/// child contributes.
#[verifier::rlimit(100)]
fn generate_slot(
    db: &NodeStore,
    child: &Option<ChildRef>,
    sub_keys: &Vec<Vec<u8>>,
    entries: &mut Vec<Vec<u8>>,
    depth2: usize,
    fuel: usize,
) -> (r: Result<(Option<ChildRef>, Ghost<Seq<Seq<u8>>>), Error>)
    requires
        fuel >= 1,
    ensures
        ({
            let res = spec_gen_slot(
                db@,
                child_view(*child),
                proof_deep(sub_keys@),
                depth2 as int,
                fuel as nat,
            );
            match r {
                Ok(p) => res == Result::<(Option<SpecChild>, Seq<Seq<u8>>), Error>::Ok(
                    (child_view(p.0), p.1@),
                ) && proof_deep(final(entries)@) == proof_deep(old(entries)@) + p.1@,
                Err(e) => res == Result::<(Option<SpecChild>, Seq<Seq<u8>>), Error>::Err(e),
            }
        }),
    decreases fuel, 0int,
{
    let ghost ent_it = proof_deep(entries@);
    match child {
        Option::None => {
            proof {
                assert(ent_it + Seq::<Seq<u8>>::empty() =~= ent_it);
            }
            Ok((Option::None, Ghost(Seq::<Seq<u8>>::empty())))
        },
        Option::Some(ChildRef::Inline(b)) => {
            if sub_keys.len() > 0 {
                let bb = clone_bytes(b);
                match generate_step(db, &bb, sub_keys, depth2, fuel - 1) {
                    Ok((modified, sub_entries)) => {
                        append_entries(entries, &sub_entries);
                        if modified.len() >= DIGEST_LEN {
                            return Err(Error::BadFormat);
                        }
                        Ok((
                            Option::Some(ChildRef::Inline(modified)),
                            Ghost(proof_deep(sub_entries@)),
                        ))
                    },
                    Err(e) => Err(e),
                }
            } else {
                proof {
                    assert(ent_it + Seq::<Seq<u8>>::empty() =~= ent_it);
                }
                Ok((
                    Option::Some(ChildRef::Inline(clone_bytes(b))),
                    Ghost(Seq::<Seq<u8>>::empty()),
                ))
            }
        },
        Option::Some(ChildRef::Digest(h)) => {
            if sub_keys.len() > 0 {
                let child_bytes = match db.get(h) {
                    Option::Some(cb) => cb,
                    Option::None => {
                        return Err(Error::BadFormat);
                    },
                };
                match generate_step(db, &child_bytes, sub_keys, depth2, fuel - 1) {
                    Ok((modified, sub_entries)) => {
                        let ghost m_deep = modified@;
                        entries.push(modified);
                        proof {
                            assert(proof_deep(entries@) =~= ent_it + seq![m_deep]);
                        }
                        append_entries(entries, &sub_entries);
                        proof {
                            assert((ent_it + seq![m_deep]) + proof_deep(sub_entries@) =~= ent_it
                                + (seq![m_deep] + proof_deep(sub_entries@)));
                        }
                        // empty inline slot: the child follows in the proof
                        Ok((
                            Option::Some(ChildRef::Inline(Vec::new())),
                            Ghost(seq![m_deep] + proof_deep(sub_entries@)),
                        ))
                    },
                    Err(e) => Err(e),
                }
            } else {
                proof {
                    assert(ent_it + Seq::<Seq<u8>>::empty() =~= ent_it);
                }
                Ok((
                    Option::Some(ChildRef::Digest(clone_bytes(h))),
                    Ghost(Seq::<Seq<u8>>::empty()),
                ))
            }
        },
    }
}

/// Walks the trie under `bytes` for the given keys, all already advanced
/// to `depth`, and returns this node's proof form together with the proof
/// forms of every stored descendant the walks touch, parents first.
///
/// In the proof form, the value a requested key resolves to is left out
/// (an empty value stands where one was), and a stored child the proof
/// itself carries is marked by an empty inline slot.
#[verifier::rlimit(100)]
#[verifier::loop_isolation(false)]
fn generate_step(
    db: &NodeStore,
    bytes: &Vec<u8>,
    keys: &Vec<Vec<u8>>,
    depth: usize,
    fuel: usize,
) -> (r: Result<(Vec<u8>, Vec<Vec<u8>>), Error>)
    ensures
        ({
            let res = spec_generate_step(
                db@,
                bytes@,
                proof_deep(keys@),
                depth as int,
                fuel as nat,
            );
            match r {
                Ok(p) => res == Result::<(Seq<u8>, Seq<Seq<u8>>), Error>::Ok(
                    (p.0@, proof_deep(p.1@)),
                ),
                Err(e) => res == Result::<(Seq<u8>, Seq<Seq<u8>>), Error>::Err(e),
            }
        }),
    decreases fuel, 1int,
{
    let ghost kv = proof_deep(keys@);
    proof {
        assert(forall|j: int| 0 <= j < keys@.len() ==> #[trigger] kv[j] == keys@[j]@);
    }
    if fuel == 0 {
        return Err(Error::BadFormat);
    }
    let node = match decode_node(bytes) {
        Ok(n) => n,
        Err(e) => {
            return Err(e);
        },
    };
    match node {
        Node::Empty => {
            let mut out: Vec<u8> = Vec::new();
            out.push(0u8);
            let entries: Vec<Vec<u8>> = Vec::new();
            proof {
                assert(out@ =~= seq![0u8]);
                assert(proof_deep(entries@) =~= Seq::<Seq<u8>>::empty());
            }
            Ok((out, entries))
        },
        Node::Leaf { partial, value } => {
            let ghost sp = partial@;
            let mut requested = false;
            let mut t: usize = 0;
            while t < keys.len()
                invariant
                    t <= keys.len(),
                    spec_requested_from(kv, 0, depth as int, sp) == (requested
                        || spec_requested_from(kv, t as int, depth as int, sp)),
                decreases keys.len() - t,
            {
                if key_ends_with(&keys[t], depth, &partial) {
                    requested = true;
                }
                t = t + 1;
            }
            assert(requested == spec_requested_from(kv, 0, depth as int, sp));
            let out_value: Vec<u8> = if requested {
                Vec::new()
            } else {
                value
            };
            let n = Node::Leaf { partial, value: out_value };
            if !node_wf_check(&n) {
                return Err(Error::BadFormat);
            }
            let enc = encode_node(&n);
            let entries: Vec<Vec<u8>> = Vec::new();
            proof {
                assert(proof_deep(entries@) =~= Seq::<Seq<u8>>::empty());
            }
            Ok((enc, entries))
        },
        Node::Branch { partial, children, value } => {
            if children.len() != 16 {
                return Err(Error::BadFormat);
            }
            let plen: usize = partial.len();
            if plen > 65535 || depth > usize::MAX - plen - 1 {
                return Err(Error::BadFormat);
            }
            let ghost sp = partial@;
            let mut requested = false;
            let mut t: usize = 0;
            while t < keys.len()
                invariant
                    t <= keys.len(),
                    spec_requested_from(kv, 0, depth as int, sp) == (requested
                        || spec_requested_from(kv, t as int, depth as int, sp)),
                decreases keys.len() - t,
            {
                if key_ends_with(&keys[t], depth, &partial) {
                    requested = true;
                }
                t = t + 1;
            }
            assert(requested == spec_requested_from(kv, 0, depth as int, sp));
            let out_value: Option<Vec<u8>> = match value {
                Option::Some(v) => if requested {
                    Option::Some(Vec::new())
                } else {
                    Option::Some(v)
                },
                Option::None => Option::None,
            };
            let mut out_children: Vec<Option<ChildRef>> = Vec::new();
            let mut entries: Vec<Vec<u8>> = Vec::new();
            let old_children = children;
            let ghost cs_dec = old_children@.map_values(|c: Option<ChildRef>| child_view(c));
            proof {
                assert(out_children@.map_values(|c: Option<ChildRef>| child_view(c)) =~= Seq::<
                    Option<SpecChild>,
                >::empty());
                assert(proof_deep(entries@) =~= Seq::<Seq<u8>>::empty());
                let full = spec_gen_children(
                    db@,
                    cs_dec,
                    0,
                    kv,
                    depth as int,
                    sp,
                    fuel as nat,
                );
                match full {
                    Result::Ok((rest, rest_ent)) => {
                        assert(Seq::<Option<SpecChild>>::empty() + rest =~= rest);
                        assert(Seq::<Seq<u8>>::empty() + rest_ent =~= rest_ent);
                    },
                    Result::Err(_) => {
                    },
                }
            }
            let mut x: usize = 0;
            while x < 16
                invariant
                    x <= 16,
                    out_children@.len() == x,
                    spec_gen_children(db@, cs_dec, 0, kv, depth as int, sp, fuel as nat) == (
                    match spec_gen_children(
                        db@,
                        cs_dec,
                        x as int,
                        kv,
                        depth as int,
                        sp,
                        fuel as nat,
                    ) {
                        Result::Ok((rest, rest_ent)) => Result::<
                            (Seq<Option<SpecChild>>, Seq<Seq<u8>>),
                            Error,
                        >::Ok(
                            (
                                out_children@.map_values(|c: Option<ChildRef>| child_view(c))
                                    + rest,
                                proof_deep(entries@) + rest_ent,
                            ),
                        ),
                        Result::Err(e) => Result::Err(e),
                    }),
                decreases 16 - x,
            {
                let ghost ent_it = proof_deep(entries@);
                proof {
                    assert(cs_dec[x as int] == child_view(old_children@[x as int]));
                }
                // keys descending into slot x
                let mut sub_keys: Vec<Vec<u8>> = Vec::new();
                let mut t: usize = 0;
                while t < keys.len()
                    invariant
                        t <= keys.len(),
                        spec_sub_keys_from(kv, 0, depth as int, sp, x as u8) == proof_deep(
                            sub_keys@,
                        ) + spec_sub_keys_from(kv, t as int, depth as int, sp, x as u8),
                    decreases keys.len() - t,
                {
                    let k = &keys[t];
                    let ghost sk_before = proof_deep(sub_keys@);
                    if key_continues_with(k, depth, &partial) && k.len() > depth + plen && k[depth
                        + plen] == x as u8 {
                        sub_keys.push(clone_bytes(k));
                        proof {
                            assert(proof_deep(sub_keys@) =~= sk_before + seq![kv[t as int]]);
                            assert(sk_before + (seq![kv[t as int]] + spec_sub_keys_from(
                                kv,
                                t as int + 1,
                                depth as int,
                                sp,
                                x as u8,
                            )) =~= (sk_before + seq![kv[t as int]]) + spec_sub_keys_from(
                                kv,
                                t as int + 1,
                                depth as int,
                                sp,
                                x as u8,
                            ));
                        }
                    }
                    t = t + 1;
                }
                proof {
                    assert(proof_deep(sub_keys@) + spec_sub_keys_from(
                        kv,
                        keys@.len() as int,
                        depth as int,
                        sp,
                        x as u8,
                    ) =~= proof_deep(sub_keys@));
                }
                let ghost skv = spec_sub_keys_from(kv, 0, depth as int, sp, x as u8);
                assert(proof_deep(sub_keys@) == skv);
                let (slot, ent_g): (Option<ChildRef>, Ghost<Seq<Seq<u8>>>) = match generate_slot(
                    db,
                    &old_children[x],
                    &sub_keys,
                    &mut entries,
                    depth + plen + 1,
                    fuel,
                ) {
                    Ok(p) => p,
                    Err(e) => {
                        return Err(e);
                    },
                };
                proof {
                    assert(proof_deep(entries@) == ent_it + ent_g@);
                }
                let ghost oldc = out_children@;
                out_children.push(slot);
                proof {
                    assert(out_children@.map_values(|c: Option<ChildRef>| child_view(c))
                        =~= oldc.map_values(|c: Option<ChildRef>| child_view(c)) + seq![
                        child_view(slot),
                    ]);
                    let rest_now = spec_gen_children(
                        db@,
                        cs_dec,
                        x as int + 1,
                        kv,
                        depth as int,
                        sp,
                        fuel as nat,
                    );
                    match rest_now {
                        Result::Ok((rest, rest_ent)) => {
                            assert(oldc.map_values(|c: Option<ChildRef>| child_view(c)) + (seq![
                                child_view(slot),
                            ] + rest) =~= (oldc.map_values(|c: Option<ChildRef>| child_view(c))
                                + seq![child_view(slot)]) + rest);
                            assert(ent_it + (ent_g@ + rest_ent) =~= (ent_it + ent_g@)
                                + rest_ent);
                        },
                        Result::Err(_) => {
                        },
                    }
                }
                x = x + 1;
            }
            proof {
                assert(spec_gen_children(
                    db@,
                    cs_dec,
                    16,
                    kv,
                    depth as int,
                    sp,
                    fuel as nat,
                ) == Result::<(Seq<Option<SpecChild>>, Seq<Seq<u8>>), Error>::Ok(
                    (Seq::<Option<SpecChild>>::empty(), Seq::<Seq<u8>>::empty()),
                ));
                assert(out_children@.map_values(|c: Option<ChildRef>| child_view(c)) + Seq::<
                    Option<SpecChild>,
                >::empty() =~= out_children@.map_values(|c: Option<ChildRef>| child_view(c)));
                assert(proof_deep(entries@) + Seq::<Seq<u8>>::empty() =~= proof_deep(entries@));
            }
            let n = Node::Branch { partial, children: out_children, value: out_value };
            if !node_wf_check(&n) {
                return Err(Error::BadFormat);
            }
            Ok((encode_node(&n), entries))
        },
    }
}

/// Create a proof for a subset of keys in a trie.
///
/// For a key that is in the store-backed trie a proof of inclusion comes
/// out; for one that is not, a proof of non-inclusion. Either is checked
/// later by `verify_trie_proof`.
#[verifier::loop_isolation(false)]
pub fn generate_trie_proof(db: &NodeStore, root: &Vec<u8>, keys: &Vec<Vec<u8>>) -> (r: Result<
    Vec<Vec<u8>>,
    Error,
>)
    ensures
        ({
            let res = spec_generate(db@, root@, proof_deep(keys@));
            match r {
                Ok(pf) => res == Result::<Seq<Seq<u8>>, Error>::Ok(proof_deep(pf@)),
                Err(e) => res == Result::<Seq<Seq<u8>>, Error>::Err(e),
            }
        }),
{
    let ghost kv = proof_deep(keys@);
    let ghost nkv = kv.map_values(|k: Seq<u8>| nibbles_of(k));
    proof {
        assert(forall|j: int| 0 <= j < keys@.len() ==> #[trigger] kv[j] == keys@[j]@);
        assert(forall|j: int| 0 <= j < kv.len() ==> #[trigger] nkv[j] == nibbles_of(kv[j]));
    }
    let root_bytes = match db.get(root) {
        Option::Some(b) => b,
        Option::None => {
            return Err(Error::BadFormat);
        },
    };
    let mut nkeys: Vec<Vec<u8>> = Vec::new();
    let mut fuel: usize = 2;
    let mut t: usize = 0;
    while t < keys.len()
        invariant
            t <= keys.len(),
            2 <= fuel <= 0x4000_0000 + 0x100_0000,
            proof_deep(nkeys@) == nkv.take(t as int),
            spec_gen_fuel(nkv, 0, 2) == spec_gen_fuel(nkv, t as int, fuel as nat),
        decreases keys.len() - t,
    {
        let nk = to_nibbles(&keys[t]);
        assert(nk@ == nkv[t as int]);
        if nk.len() > 0x100_0000 || fuel > 0x4000_0000 {
            proof {
                assert(spec_gen_fuel(nkv, t as int, fuel as nat) == Result::<nat, Error>::Err(
                    Error::BadFormat,
                ));
            }
            return Err(Error::BadFormat);
        }
        fuel = fuel + nk.len();
        let ghost before = proof_deep(nkeys@);
        nkeys.push(nk);
        proof {
            assert(proof_deep(nkeys@) =~= before.push(nkv[t as int]));
            assert(proof_deep(nkeys@) =~= nkv.take(t as int + 1));
        }
        t = t + 1;
    }
    proof {
        assert(proof_deep(nkeys@) =~= nkv);
        assert(spec_gen_fuel(nkv, 0, 2) == Result::<nat, Error>::Ok(fuel as nat));
    }
    match generate_step(db, &root_bytes, &nkeys, 0, fuel) {
        Ok((root_form, entries)) => {
            let ghost form_deep = root_form@;
            let mut proof_out: Vec<Vec<u8>> = Vec::new();
            proof_out.push(root_form);
            proof {
                assert(proof_deep(proof_out@) =~= seq![form_deep]);
            }
            append_entries(&mut proof_out, &entries);
            proof {
                assert(seq![form_deep] + proof_deep(entries@) =~= proof_deep(proof_out@));
            }
            Ok(proof_out)
        },
        Err(e) => Err(e),
    }
}

/// The deep view of a proof: each node's bytes./// The deep view of a proof: each node's bytes.
pub open spec fn proof_deep(proof: Seq<Vec<u8>>) -> Seq<Seq<u8>> {
    proof.map_values(|p: Vec<u8>| p@)
}

/// Rebuilding, slot by slot from `x` up: an untouched or digest slot
/// passes through; an inline slot is rebuilt, an empty one from the next
/// unread proof node; a rebuilt child re-enters inline when short, else
/// under its fresh digest, which is also filed in the store.
pub open spec fn spec_rebuild_children(
    proof: Seq<Seq<u8>>,
    cursor: int,
    children: Seq<Option<SpecChild>>,
    x: int,
    base: Seq<u8>,
    items: Seq<(Seq<u8>, Option<Seq<u8>>)>,
    store: Seq<(Seq<u8>, Seq<u8>)>,
    fuel: nat,
) -> Result<(Seq<Option<SpecChild>>, int, Seq<(Seq<u8>, Seq<u8>)>), VerifyError>
    decreases fuel, 16 - x,
{
    if x >= 16 {
        Result::Ok((Seq::<Option<SpecChild>>::empty(), cursor, store))
    } else if fuel == 0 {
        Result::Err(VerifyError::IncompleteProof)
    } else {
        let step: Result<(Option<SpecChild>, int, Seq<(Seq<u8>, Seq<u8>)>), VerifyError> = match children[x] {
            Option::None => Result::Ok((Option::<SpecChild>::None, cursor, store)),
            Option::Some(SpecChild::Digest(h)) => Result::Ok(
                (Option::Some(SpecChild::Digest(h)), cursor, store),
            ),
            Option::Some(SpecChild::Inline(b)) => {
                let child_prefix = base + seq![x as u8];
                let sub: Result<(Seq<u8>, int, Seq<(Seq<u8>, Seq<u8>)>), VerifyError> = if b.len()
                    == 0 {
                    if cursor >= proof.len() {
                        Result::Err(VerifyError::IncompleteProof)
                    } else {
                        spec_rebuild(
                            proof,
                            cursor + 1,
                            proof[cursor],
                            child_prefix,
                            items,
                            store,
                            (fuel - 1) as nat,
                        )
                    }
                } else {
                    spec_rebuild(proof, cursor, b, child_prefix, items, store, (fuel - 1) as nat)
                };
                match sub {
                    Result::Err(e) => Result::Err(e),
                    Result::Ok((rb, cur2, st2)) => if rb.len() < 32 {
                        Result::Ok((Option::Some(SpecChild::Inline(rb)), cur2, st2))
                    } else {
                        Result::Ok(
                            (
                                Option::Some(SpecChild::Digest(crate::hashing::blake2_256_of(rb))),
                                cur2,
                                st2.push((crate::hashing::blake2_256_of(rb), rb)),
                            ),
                        )
                    },
                }
            },
        };
        match step {
            Result::Err(e) => Result::Err(e),
            Result::Ok((slot, cur2, st2)) => match spec_rebuild_children(
                proof,
                cur2,
                children,
                x + 1,
                base,
                items,
                st2,
                fuel,
            ) {
                Result::Err(e) => Result::Err(e),
                Result::Ok((rest, cur3, st3)) => Result::Ok((seq![slot] + rest, cur3, st3)),
            },
        }
    }
}

/// The true encoding a proof form stands for, together with the proof
/// cursor after it and the store of rebuilt hashed nodes: omitted values
/// are filled from the item asserting that exact key, marker slots take
/// the following proof nodes in walk order, and every rebuilt node is
/// re-encoded canonically.
pub open spec fn spec_rebuild(
    proof: Seq<Seq<u8>>,
    cursor: int,
    bytes: Seq<u8>,
    prefix: Seq<u8>,
    items: Seq<(Seq<u8>, Option<Seq<u8>>)>,
    store: Seq<(Seq<u8>, Seq<u8>)>,
    fuel: nat,
) -> Result<(Seq<u8>, int, Seq<(Seq<u8>, Seq<u8>)>), VerifyError>
    decreases fuel, 17int,
{
    if fuel == 0 {
        Result::Err(VerifyError::IncompleteProof)
    } else {
        match spec_decode_node(bytes) {
            Option::None => Result::Err(VerifyError::DecodeError),
            Option::Some(n) => match n {
                SpecNode::Empty => Result::Ok((seq![0u8], cursor, store)),
                SpecNode::Leaf { partial, value } => {
                    let out_value = if value.len() == 0 {
                        match spec_asserted_for(items, prefix + partial) {
                            Option::Some(v) => v,
                            Option::None => value,
                        }
                    } else {
                        value
                    };
                    let m = SpecNode::Leaf { partial, value: out_value };
                    if !wf_node(m) {
                        Result::Err(VerifyError::DecodeError)
                    } else {
                        Result::Ok((spec_encode_node(m), cursor, store))
                    }
                },
                SpecNode::Branch { partial, children, value } => if children.len() != 16 {
                    Result::Err(VerifyError::DecodeError)
                } else if partial.len() > 65535 || prefix.len() > usize::MAX - partial.len()
                    - 1 {
                    Result::Err(VerifyError::DecodeError)
                } else {
                    let out_value = match value {
                        Option::Some(v) => if v.len() == 0 {
                            match spec_asserted_for(items, prefix + partial) {
                                Option::Some(w) => Option::Some(w),
                                Option::None => Option::Some(v),
                            }
                        } else {
                            Option::Some(v)
                        },
                        Option::None => Option::<Seq<u8>>::None,
                    };
                    match spec_rebuild_children(
                        proof,
                        cursor,
                        children,
                        0,
                        prefix + partial,
                        items,
                        store,
                        fuel,
                    ) {
                        Result::Err(e) => Result::Err(e),
                        Result::Ok((cs, cur2, st2)) => {
                            let m = SpecNode::Branch { partial, children: cs, value: out_value };
                            if !wf_node(m) {
                                Result::Err(VerifyError::DecodeError)
                            } else {
                                Result::Ok((spec_encode_node(m), cur2, st2))
                            }
                        },
                    }
                },
            },
        }
    }
}

/// Rebuilds the true encoding of the node whose proof form is `bytes`:
/// omitted values are filled from the asserted items whose key ends here,
/// and marker slots take the following proof nodes in walk order. Every
/// rebuilt stored node is filed in `store_out` under its digest.
#[verifier::rlimit(100)]
#[verifier::loop_isolation(false)]
fn rebuild_step(
    proof: &Vec<Vec<u8>>,
    cursor: &mut usize,
    bytes: &Vec<u8>,
    prefix: Vec<u8>,
    items: &Vec<(Vec<u8>, Option<Vec<u8>>)>,
    store_out: &mut NodeStore,
    fuel: usize,
) -> (r: Result<Vec<u8>, VerifyError>)
    requires
        *old(cursor) <= proof@.len(),
    ensures
        ({
            let res = spec_rebuild(
                proof_deep(proof@),
                *old(cursor) as int,
                bytes@,
                prefix@,
                items_deep(items@),
                old(store_out)@,
                fuel as nat,
            );
            match r {
                Ok(rb) => res == Result::<(Seq<u8>, int, Seq<(Seq<u8>, Seq<u8>)>),
                    VerifyError,
                >::Ok((rb@, *final(cursor) as int, final(store_out)@)) && *final(cursor)
                    <= proof@.len(),
                Err(e) => res == Result::<(Seq<u8>, int, Seq<(Seq<u8>, Seq<u8>)>),
                    VerifyError,
                >::Err(e),
            }
        }),
    decreases fuel,
{
    let ghost pv = proof_deep(proof@);
    let ghost idv = items_deep(items@);
    let ghost c0 = *cursor as int;
    let ghost st0 = store_out@;
    if fuel == 0 {
        return Err(VerifyError::IncompleteProof);
    }
    let node = match decode_node(bytes) {
        Ok(n) => n,
        Err(_) => {
            return Err(VerifyError::DecodeError);
        },
    };
    match node {
        Node::Empty => {
            let mut out: Vec<u8> = Vec::new();
            out.push(0u8);
            assert(out@ =~= seq![0u8]);
            Ok(out)
        },
        Node::Leaf { partial, value } => {
            let out_value: Vec<u8> = if value.len() == 0 {
                match find_asserted_value(items, &prefix, &partial) {
                    Option::Some(v) => v,
                    Option::None => value,
                }
            } else {
                value
            };
            let n = Node::Leaf { partial, value: out_value };
            if !node_wf_check(&n) {
                return Err(VerifyError::DecodeError);
            }
            Ok(encode_node(&n))
        },
        Node::Branch { partial, children, value } => {
            if children.len() != 16 {
                return Err(VerifyError::DecodeError);
            }
            let plen: usize = partial.len();
            if plen > 65535 || prefix.len() > usize::MAX - plen - 1 {
                return Err(VerifyError::DecodeError);
            }
            let ghost sp = partial@;
            let ghost base = prefix@ + partial@;
            let out_value: Option<Vec<u8>> = match value {
                Option::Some(v) => if v.len() == 0 {
                    match find_asserted_value(items, &prefix, &partial) {
                        Option::Some(w) => Option::Some(w),
                        Option::None => Option::Some(v),
                    }
                } else {
                    Option::Some(v)
                },
                Option::None => Option::None,
            };
            let mut out_children: Vec<Option<ChildRef>> = Vec::new();
            let old_children = children;
            let ghost cs_dec = old_children@.map_values(|c: Option<ChildRef>| child_view(c));
            proof {
                assert(out_children@.map_values(|c: Option<ChildRef>| child_view(c)) =~= Seq::<
                    Option<SpecChild>,
                >::empty());
                let full = spec_rebuild_children(pv, c0, cs_dec, 0, base, idv, st0, fuel as nat);
                match full {
                    Result::Ok((rest, cur3, st3)) => {
                        assert(Seq::<Option<SpecChild>>::empty() + rest =~= rest);
                    },
                    Result::Err(_) => {
                    },
                }
            }
            let mut x: usize = 0;
            while x < 16
                invariant
                    x <= 16,
                    old_children@.len() == 16,
                    out_children@.len() == x,
                    pv == proof_deep(proof@),
                    idv == items_deep(items@),
                    cs_dec == old_children@.map_values(|c: Option<ChildRef>| child_view(c)),
                    base == prefix@ + partial@,
                    prefix@.len() + plen + 1 <= usize::MAX,
                    plen == partial@.len(),
                    plen <= 65535,
                    fuel >= 1,
                    *cursor <= proof@.len(),
                    spec_rebuild_children(pv, c0, cs_dec, 0, base, idv, st0, fuel as nat) == (
                    match spec_rebuild_children(
                        pv,
                        *cursor as int,
                        cs_dec,
                        x as int,
                        base,
                        idv,
                        store_out@,
                        fuel as nat,
                    ) {
                        Result::Ok((rest, cur3, st3)) => Result::<
                            (Seq<Option<SpecChild>>, int, Seq<(Seq<u8>, Seq<u8>)>),
                            VerifyError,
                        >::Ok(
                            (
                                out_children@.map_values(|c: Option<ChildRef>| child_view(c))
                                    + rest,
                                cur3,
                                st3,
                            ),
                        ),
                        Result::Err(e) => Result::Err(e),
                    }),
                decreases 16 - x,
            {
                let ghost cur_it = *cursor as int;
                let ghost st_it = store_out@;
                proof {
                    assert(cs_dec[x as int] == child_view(old_children@[x as int]));
                }
                let slot: Option<ChildRef> = match &old_children[x] {
                    Option::None => Option::None,
                    Option::Some(ChildRef::Digest(h)) => Option::Some(
                        ChildRef::Digest(clone_bytes(h)),
                    ),
                    Option::Some(ChildRef::Inline(b)) => {
                        let mut child_prefix = clone_bytes(&prefix);
                        append_bytes(&mut child_prefix, &partial);
                        child_prefix.push(x as u8);
                        assert(child_prefix@ =~= base + seq![x as u8]);
                        let rebuilt: Vec<u8>;
                        if b.len() == 0 {
                            // marker: the child is the next unread proof node
                            if *cursor >= proof.len() {
                                proof {
                                    assert(spec_rebuild_children(
                                        pv,
                                        cur_it,
                                        cs_dec,
                                        x as int,
                                        base,
                                        idv,
                                        st_it,
                                        fuel as nat,
                                    ) == Result::<
                                        (Seq<Option<SpecChild>>, int, Seq<(Seq<u8>, Seq<u8>)>),
                                        VerifyError,
                                    >::Err(VerifyError::IncompleteProof));
                                }
                                return Err(VerifyError::IncompleteProof);
                            }
                            let child_form = clone_bytes(&proof[*cursor]);
                            assert(child_form@ == pv[cur_it]);
                            *cursor = *cursor + 1;
                            match rebuild_step(
                                proof,
                                cursor,
                                &child_form,
                                child_prefix,
                                items,
                                store_out,
                                fuel - 1,
                            ) {
                                Ok(rb) => {
                                    rebuilt = rb;
                                },
                                Err(e) => {
                                    proof {
                                        assert(spec_rebuild_children(
                                            pv,
                                            cur_it,
                                            cs_dec,
                                            x as int,
                                            base,
                                            idv,
                                            st_it,
                                            fuel as nat,
                                        ) == Result::<
                                            (Seq<Option<SpecChild>>, int, Seq<(Seq<u8>, Seq<u8>)>),
                                            VerifyError,
                                        >::Err(e));
                                    }
                                    return Err(e);
                                },
                            }
                        } else {
                            let bb = clone_bytes(b);
                            match rebuild_step(
                                proof,
                                cursor,
                                &bb,
                                child_prefix,
                                items,
                                store_out,
                                fuel - 1,
                            ) {
                                Ok(rb) => {
                                    rebuilt = rb;
                                },
                                Err(e) => {
                                    proof {
                                        assert(spec_rebuild_children(
                                            pv,
                                            cur_it,
                                            cs_dec,
                                            x as int,
                                            base,
                                            idv,
                                            st_it,
                                            fuel as nat,
                                        ) == Result::<
                                            (Seq<Option<SpecChild>>, int, Seq<(Seq<u8>, Seq<u8>)>),
                                            VerifyError,
                                        >::Err(e));
                                    }
                                    return Err(e);
                                },
                            }
                        }
                        if rebuilt.len() < DIGEST_LEN {
                            Option::Some(ChildRef::Inline(rebuilt))
                        } else {
                            let d = blake2_256(&rebuilt);
                            let d2 = clone_bytes(&d);
                            store_out.insert(d, rebuilt);
                            Option::Some(ChildRef::Digest(d2))
                        }
                    },
                };
                let ghost oldc = out_children@;
                out_children.push(slot);
                proof {
                    assert(out_children@.map_values(|c: Option<ChildRef>| child_view(c))
                        =~= oldc.map_values(|c: Option<ChildRef>| child_view(c)) + seq![
                        child_view(slot),
                    ]);
                    let rest_now = spec_rebuild_children(
                        pv,
                        *cursor as int,
                        cs_dec,
                        x as int + 1,
                        base,
                        idv,
                        store_out@,
                        fuel as nat,
                    );
                    match rest_now {
                        Result::Ok((rest, cur3, st3)) => {
                            assert(oldc.map_values(|c: Option<ChildRef>| child_view(c)) + (seq![
                                child_view(slot),
                            ] + rest) =~= (oldc.map_values(|c: Option<ChildRef>| child_view(c))
                                + seq![child_view(slot)]) + rest);
                        },
                        Result::Err(_) => {
                        },
                    }
                }
                x = x + 1;
            }
            let n = Node::Branch { partial, children: out_children, value: out_value };
            if !node_wf_check(&n) {
                return Err(VerifyError::DecodeError);
            }
            let r = encode_node(&n);
            proof {
                assert(spec_rebuild_children(
                    pv,
                    *cursor as int,
                    cs_dec,
                    16,
                    base,
                    idv,
                    store_out@,
                    fuel as nat,
                ) == Result::<
                    (Seq<Option<SpecChild>>, int, Seq<(Seq<u8>, Seq<u8>)>),
                    VerifyError,
                >::Ok((Seq::<Option<SpecChild>>::empty(), *cursor as int, store_out@)));
                assert(out_children@.map_values(|c: Option<ChildRef>| child_view(c)) + Seq::<
                    Option<SpecChild>,
                >::empty() =~= out_children@.map_values(|c: Option<ChildRef>| child_view(c)));
            }
            Ok(r)
        },
    }
}

/// The value asserted for the key whose nibble path is exactly
/// `prefix + partial`, if any item asserts one.
fn find_asserted_value(
    items: &Vec<(Vec<u8>, Option<Vec<u8>>)>,
    prefix: &Vec<u8>,
    partial: &Vec<u8>,
) -> (r: Option<Vec<u8>>)
    ensures
        match r {
            Option::Some(v) => spec_asserted_for(items_deep(items@), prefix@ + partial@)
                == Option::Some(v@),
            Option::None => spec_asserted_for(items_deep(items@), prefix@ + partial@) is None,
        },
{
    let ghost idv = items_deep(items@);
    assert(forall|j: int|
        0 <= j < items@.len() ==> (#[trigger] idv[j]).0 == items@[j].0@);
    let mut full = clone_bytes(prefix);
    append_bytes(&mut full, partial);
    assert(full@ == prefix@ + partial@);
    if full.len() % 2 != 0 || !nibbles_check(&full) {
        return Option::None;
    }
    let key = nibbles_to_bytes(&full);
    let mut t: usize = 0;
    while t < items.len()
        invariant
            t <= items.len(),
            idv == items_deep(items@),
            forall|j: int| 0 <= j < items@.len() ==> (#[trigger] idv[j]).0 == items@[j].0@,
            key@ == bytes_of_nibbles(full@),
            full@ == prefix@ + partial@,
            full@.len() % 2 == 0,
            is_nibbles(full@),
            spec_asserted_from(idv, key@, 0) == spec_asserted_from(idv, key@, t as int),
        decreases items.len() - t,
    {
        if bytes_eq(&items[t].0, &key) {
            match &items[t].1 {
                Option::Some(v) => {
                    assert(idv[t as int].1 == Option::Some(v@));
                    return Option::Some(clone_bytes(v));
                },
                Option::None => {
                    assert(idv[t as int].1 is None);
                },
            }
        }
        t = t + 1;
    }
    Option::None
}

/// What a walk for one key finds in the rebuilt trie.
enum LookupOutcome {
    Found(Vec<u8>),
    Absent,
    MissingNode,
    Broken,
}

/// Walks the rebuilt trie from `bytes` for the key suffix from `depth` on.
fn lookup_step(
    store: &NodeStore,
    bytes: &Vec<u8>,
    key: &Vec<u8>,
    depth: usize,
    fuel: usize,
) -> (r: LookupOutcome)
    ensures
        ({
            let o = spec_lookup(store@, bytes@, key@, depth as int, fuel as nat);
            match r {
                LookupOutcome::Found(v) => o == SpecLookup::Found(v@),
                LookupOutcome::Absent => o == SpecLookup::Absent,
                LookupOutcome::MissingNode => o == SpecLookup::MissingNode,
                LookupOutcome::Broken => o == SpecLookup::Broken,
            }
        }),
    decreases fuel,
{
    if fuel == 0 {
        return LookupOutcome::Broken;
    }
    let node = match decode_node(bytes) {
        Ok(n) => n,
        Err(_) => {
            return LookupOutcome::Broken;
        },
    };
    match node {
        Node::Empty => LookupOutcome::Absent,
        Node::Leaf { partial, value } => {
            if key_ends_with(key, depth, &partial) {
                LookupOutcome::Found(value)
            } else {
                LookupOutcome::Absent
            }
        },
        Node::Branch { partial, children, value } => {
            if children.len() != 16 {
                return LookupOutcome::Broken;
            }
            let plen: usize = partial.len();
            if plen > 65535 || depth > usize::MAX - plen - 1 {
                return LookupOutcome::Broken;
            }
            if !key_continues_with(key, depth, &partial) {
                return LookupOutcome::Absent;
            }
            if key.len() == depth + plen {
                return match value {
                    Option::Some(v) => LookupOutcome::Found(v),
                    Option::None => LookupOutcome::Absent,
                };
            }
            let x = key[depth + plen];
            if x >= 16 {
                return LookupOutcome::Broken;
            }
            match &children[x as usize] {
                Option::None => LookupOutcome::Absent,
                Option::Some(ChildRef::Inline(b)) => {
                    let bb = clone_bytes(b);
                    lookup_step(store, &bb, key, depth + plen + 1, fuel - 1)
                },
                Option::Some(ChildRef::Digest(h)) => match store.get(h) {
                    Option::Some(cb) => lookup_step(store, &cb, key, depth + plen + 1, fuel - 1),
                    Option::None => LookupOutcome::MissingNode,
                },
            }
        },
    }
}

/// The walk fuel a proof affords: two plus one per proof node plus one
/// per proof byte, refused outright for outsized proofs.
pub open spec fn spec_verify_fuel(proof: Seq<Seq<u8>>, t: int, fuel: nat) -> Result<
    nat,
    VerifyError,
>
    decreases proof.len() - t,
{
    if t < 0 || t >= proof.len() {
        Result::Ok(fuel)
    } else if proof[t].len() > 0x100_0000 || fuel > 0x4000_0000 {
        Result::Err(VerifyError::DecodeError)
    } else {
        spec_verify_fuel(proof, t + 1, (fuel + proof[t].len() + 1) as nat)
    }
}

/// Checks the assertions from `t` on against the rebuilt trie: each key's
/// walk must find exactly the asserted value, or proven absence where
/// `None` is asserted; the first miss decides the error kind.
pub open spec fn spec_check_items(
    store: Seq<(Seq<u8>, Seq<u8>)>,
    root_bytes: Seq<u8>,
    items: Seq<(Seq<u8>, Option<Seq<u8>>)>,
    t: int,
    fuel: nat,
) -> Result<(), VerifyError>
    decreases items.len() - t,
{
    if t < 0 || t >= items.len() {
        Result::Ok(())
    } else {
        let o = spec_lookup(store, root_bytes, nibbles_of(items[t].0), 0, fuel);
        let ok = match o {
            SpecLookup::Found(v) => items[t].1 == Option::Some(v),
            SpecLookup::Absent => items[t].1 is None,
            SpecLookup::MissingNode => false,
            SpecLookup::Broken => false,
        };
        if ok {
            spec_check_items(store, root_bytes, items, t + 1, fuel)
        } else {
            Result::Err(
                match o {
                    SpecLookup::MissingNode => VerifyError::IncompleteProof,
                    SpecLookup::Broken => VerifyError::DecodeError,
                    _ => VerifyError::ValueMismatch,
                },
            )
        }
    }
}

/// What verification decides, as a function of the root, the proof and
/// the assertions alone: the trie is rederived from the proof with the
/// asserted values filling the omitted slots, every marker consuming the
/// next proof node; an unread node is extraneous, the rebuilt root must
/// hash to `root`, and then every assertion is checked by a walk resolving
/// nodes only from the rebuilt set. A proof therefore vouches exactly for
/// the keys whose omissions the assertions fill.
pub open spec fn spec_verify(
    root: Seq<u8>,
    proof: Seq<Seq<u8>>,
    items: Seq<(Seq<u8>, Option<Seq<u8>>)>,
) -> Result<(), VerifyError> {
    if proof.len() == 0 {
        Result::Err(VerifyError::IncompleteProof)
    } else {
        match spec_verify_fuel(proof, 0, 2) {
            Result::Err(e) => Result::Err(e),
            Result::Ok(fuel) => match spec_rebuild(
                proof,
                1,
                proof[0],
                Seq::<u8>::empty(),
                items,
                Seq::<(Seq<u8>, Seq<u8>)>::empty(),
                fuel,
            ) {
                Result::Err(e) => Result::Err(e),
                Result::Ok((rb, cursor, store)) => if cursor != proof.len() {
                    Result::Err(VerifyError::ExtraneousNode)
                } else if crate::hashing::blake2_256_of(rb) != root {
                    Result::Err(VerifyError::RootMismatch)
                } else {
                    spec_check_items(store, rb, items, 0, fuel)
                },
            },
        }
    }
}

/// Verify a set of key-value assertions against a trie root and a proof.
///
/// An item `(key, Some(value))` is checked for inclusion, `(key, None)`
/// for non-inclusion. The node set is rederived from the proof alone: the
/// asserted values fill the omitted slots, every node is re-hashed bottom
/// up, and the implied root must equal `root`; each walk then resolves
/// nodes only from the proof. A proof therefore vouches only for the keys
/// it was generated for.
#[verifier::loop_isolation(false)]
pub fn verify_trie_proof(
    root: &Vec<u8>,
    proof: &Vec<Vec<u8>>,
    items: &Vec<(Vec<u8>, Option<Vec<u8>>)>,
) -> (r: Result<(), VerifyError>)
    ensures
        r == spec_verify(root@, proof_deep(proof@), items_deep(items@)),
{
    let ghost pv = proof_deep(proof@);
    let ghost idv = items_deep(items@);
    proof {
        assert(forall|j: int| 0 <= j < proof@.len() ==> #[trigger] pv[j] == proof@[j]@);
        assert(forall|j: int|
            0 <= j < items@.len() ==> (#[trigger] idv[j]).0 == items@[j].0@);
    }
    if proof.len() == 0 {
        return Err(VerifyError::IncompleteProof);
    }
    let mut fuel: usize = 2;
    let mut t: usize = 0;
    while t < proof.len()
        invariant
            t <= proof.len(),
            2 <= fuel <= 0x4000_0000 + 0x100_0001,
            spec_verify_fuel(pv, 0, 2) == spec_verify_fuel(pv, t as int, fuel as nat),
        decreases proof.len() - t,
    {
        if proof[t].len() > 0x100_0000 || fuel > 0x4000_0000 {
            proof {
                assert(spec_verify_fuel(pv, t as int, fuel as nat) == Result::<
                    nat,
                    VerifyError,
                >::Err(VerifyError::DecodeError));
            }
            return Err(VerifyError::DecodeError);
        }
        fuel = fuel + proof[t].len() + 1;
        t = t + 1;
    }
    proof {
        assert(spec_verify_fuel(pv, 0, 2) == Result::<nat, VerifyError>::Ok(fuel as nat));
    }
    let mut store = NodeStore::new();
    let mut cursor: usize = 1;
    let root_form = clone_bytes(&proof[0]);
    let ghost empty_prefix = Seq::<u8>::empty();
    let prefix_vec: Vec<u8> = Vec::new();
    assert(prefix_vec@ =~= empty_prefix);
    assert(store@ =~= Seq::<(Seq<u8>, Seq<u8>)>::empty());
    let root_bytes = match rebuild_step(
        proof,
        &mut cursor,
        &root_form,
        prefix_vec,
        items,
        &mut store,
        fuel,
    ) {
        Ok(rb) => rb,
        Err(e) => {
            return Err(e);
        },
    };
    if cursor != proof.len() {
        return Err(VerifyError::ExtraneousNode);
    }
    let implied_root = blake2_256(&root_bytes);
    if !bytes_eq(&implied_root, root) {
        return Err(VerifyError::RootMismatch);
    }
    let mut t: usize = 0;
    while t < items.len()
        invariant
            t <= items.len(),
            spec_check_items(store@, root_bytes@, idv, 0, fuel as nat) == spec_check_items(
                store@,
                root_bytes@,
                idv,
                t as int,
                fuel as nat,
            ),
        decreases items.len() - t,
    {
        let nk = to_nibbles(&items[t].0);
        assert(nk@ == nibbles_of(idv[t as int].0));
        let outcome = lookup_step(&store, &root_bytes, &nk, 0, fuel);
        let ok: bool = match &outcome {
            LookupOutcome::Found(v) => match &items[t].1 {
                Option::Some(w) => bytes_eq(v, w),
                Option::None => false,
            },
            LookupOutcome::Absent => match &items[t].1 {
                Option::Some(_) => false,
                Option::None => true,
            },
            LookupOutcome::MissingNode => false,
            LookupOutcome::Broken => false,
        };
        proof {
            assert(idv[t as int].1 == (match items@[t as int].1 {
                Option::None => Option::<Seq<u8>>::None,
                Option::Some(v) => Option::Some(v@),
            }));
        }
        if !ok {
            let e = match outcome {
                LookupOutcome::MissingNode => VerifyError::IncompleteProof,
                LookupOutcome::Broken => VerifyError::DecodeError,
                _ => VerifyError::ValueMismatch,
            };
            proof {
                assert(spec_check_items(store@, root_bytes@, idv, t as int, fuel as nat)
                    == Result::<(), VerifyError>::Err(e));
            }
            return Err(e);
        }
        t = t + 1;
    }
    Ok(())
}

/// The deep view of a pair list.
pub open spec fn pairs_deep(s: Seq<(Vec<u8>, Vec<u8>)>) -> Seq<(Seq<u8>, Seq<u8>)> {
    s.map_values(|p: (Vec<u8>, Vec<u8>)| (p.0@, p.1@))
}

/// The pairs under the child slots from `x` up, in ascending slot order.
pub open spec fn spec_collect_children(
    db: Seq<(Seq<u8>, Seq<u8>)>,
    children: Seq<Option<SpecChild>>,
    x: int,
    full: Seq<u8>,
    fuel: nat,
) -> Result<Seq<(Seq<u8>, Seq<u8>)>, Error>
    decreases fuel, 16 - x,
{
    if x >= 16 {
        Result::Ok(Seq::<(Seq<u8>, Seq<u8>)>::empty())
    } else if fuel == 0 {
        Result::Err(Error::BadFormat)
    } else {
        let step: Result<Seq<(Seq<u8>, Seq<u8>)>, Error> = match children[x] {
            Option::None => Result::Ok(Seq::<(Seq<u8>, Seq<u8>)>::empty()),
            Option::Some(SpecChild::Inline(b)) => spec_collect(
                db,
                b,
                full + seq![x as u8],
                (fuel - 1) as nat,
            ),
            Option::Some(SpecChild::Digest(h)) => match NodeStore::spec_get(db, h) {
                Option::None => Result::Err(Error::BadFormat),
                Option::Some(cb) => spec_collect(db, cb, full + seq![x as u8], (fuel - 1) as nat),
            },
        };
        match step {
            Result::Err(e) => Result::Err(e),
            Result::Ok(ps) => match spec_collect_children(db, children, x + 1, full, fuel) {
                Result::Err(e) => Result::Err(e),
                Result::Ok(rest) => Result::Ok(ps + rest),
            },
        }
    }
}

/// The key/value pairs of the subtrie under `bytes`, whose keys extend
/// the nibble prefix: a branch's own value first, then its children's
/// pairs slot by slot, so the whole list comes out in key order.
pub open spec fn spec_collect(
    db: Seq<(Seq<u8>, Seq<u8>)>,
    bytes: Seq<u8>,
    prefix: Seq<u8>,
    fuel: nat,
) -> Result<Seq<(Seq<u8>, Seq<u8>)>, Error>
    decreases fuel, 17int,
{
    if fuel == 0 {
        Result::Err(Error::BadFormat)
    } else {
        match spec_decode_node(bytes) {
            Option::None => Result::Err(crate::node::spec_decode_node_err(bytes)),
            Option::Some(n) => match n {
                SpecNode::Empty => Result::Ok(Seq::<(Seq<u8>, Seq<u8>)>::empty()),
                SpecNode::Leaf { partial, value } => {
                    let full = prefix + partial;
                    if full.len() % 2 != 0 || !is_nibbles(full) {
                        Result::Err(Error::BadFormat)
                    } else {
                        Result::Ok(seq![(bytes_of_nibbles(full), value)])
                    }
                },
                SpecNode::Branch { partial, children, value } => if children.len() != 16 {
                    Result::Err(Error::BadFormat)
                } else if partial.len() > 65535 || prefix.len() > usize::MAX - partial.len()
                    - 1 {
                    Result::Err(Error::BadFormat)
                } else {
                    let full = prefix + partial;
                    let head: Result<Seq<(Seq<u8>, Seq<u8>)>, Error> = match value {
                        Option::Some(v) => if full.len() % 2 != 0 || !is_nibbles(full) {
                            Result::Err(Error::BadFormat)
                        } else {
                            Result::Ok(seq![(bytes_of_nibbles(full), v)])
                        },
                        Option::None => Result::Ok(Seq::<(Seq<u8>, Seq<u8>)>::empty()),
                    };
                    match head {
                        Result::Err(e) => Result::Err(e),
                        Result::Ok(hd) => match spec_collect_children(db, children, 0, full, fuel) {
                            Result::Err(e) => Result::Err(e),
                            Result::Ok(ps) => Result::Ok(hd + ps),
                        },
                    }
                },
            },
        }
    }
}

/// The walk fuel a store affords for enumeration.
pub open spec fn spec_collect_fuel(n: int, t: int, fuel: nat) -> Result<nat, Error>
    decreases n - t,
{
    if t < 0 || t >= n {
        Result::Ok(fuel)
    } else if fuel > 0x4000_0000 {
        Result::Err(Error::BadFormat)
    } else {
        spec_collect_fuel(n, t + 1, (fuel + 65600) as nat)
    }
}

/// What enumeration produces, as a function of the store and root alone.
pub open spec fn spec_collect_pairs(db: Seq<(Seq<u8>, Seq<u8>)>, root: Seq<u8>) -> Result<
    Seq<(Seq<u8>, Seq<u8>)>,
    Error,
> {
    match NodeStore::spec_get(db, root) {
        Option::None => Result::Err(Error::BadFormat),
        Option::Some(root_bytes) => match spec_collect_fuel(db.len() as int, 0, 2) {
            Result::Err(e) => Result::Err(e),
            Result::Ok(fuel) => spec_collect(db, root_bytes, Seq::<u8>::empty(), fuel),
        },
    }
}

/// Enumerates all leaves of the subtrie under `bytes`, in key order,
/// appending them to `out`.
#[verifier::rlimit(100)]
#[verifier::spinoff_prover]
#[verifier::loop_isolation(false)]
fn collect_step(
    db: &NodeStore,
    bytes: &Vec<u8>,
    prefix: Vec<u8>,
    out: &mut Vec<(Vec<u8>, Vec<u8>)>,
    fuel: usize,
) -> (r: Result<(), Error>)
    ensures
        ({
            let res = spec_collect(db@, bytes@, prefix@, fuel as nat);
            match r {
                Ok(u) => res matches Result::Ok(ps) && pairs_deep(final(out)@) == pairs_deep(
                    old(out)@,
                ) + ps,
                Err(e) => res == Result::<Seq<(Seq<u8>, Seq<u8>)>, Error>::Err(e),
            }
        }),
    decreases fuel,
{
    let ghost out_base = pairs_deep(out@);
    if fuel == 0 {
        return Err(Error::BadFormat);
    }
    let node = match decode_node(bytes) {
        Ok(n) => n,
        Err(e) => {
            return Err(e);
        },
    };
    match node {
        Node::Empty => {
            proof {
                assert(pairs_deep(out@) =~= out_base + Seq::<(Seq<u8>, Seq<u8>)>::empty());
            }
            Ok(())
        },
        Node::Leaf { partial, value } => {
            let mut full = clone_bytes(&prefix);
            append_bytes(&mut full, &partial);
            assert(full@ == prefix@ + partial@);
            if full.len() % 2 != 0 || !nibbles_check(&full) {
                return Err(Error::BadFormat);
            }
            let key = nibbles_to_bytes(&full);
            let ghost kd = key@;
            let ghost vd = value@;
            out.push((key, value));
            proof {
                assert(pairs_deep(out@) =~= out_base + seq![(kd, vd)]);
            }
            Ok(())
        },
        Node::Branch { partial, children, value } => {
            if children.len() != 16 {
                return Err(Error::BadFormat);
            }
            let plen: usize = partial.len();
            if plen > 65535 || prefix.len() > usize::MAX - plen - 1 {
                return Err(Error::BadFormat);
            }
            let mut full = clone_bytes(&prefix);
            append_bytes(&mut full, &partial);
            assert(full@ == prefix@ + partial@);
            let ghost fullv = full@;
            let ghost hd: Seq<(Seq<u8>, Seq<u8>)>;
            match value {
                Option::Some(v) => {
                    if full.len() % 2 != 0 || !nibbles_check(&full) {
                        return Err(Error::BadFormat);
                    }
                    let key = nibbles_to_bytes(&full);
                    let ghost kd = key@;
                    let ghost vd = v@;
                    out.push((key, v));
                    proof {
                        hd = seq![(kd, vd)];
                        assert(pairs_deep(out@) =~= out_base + hd);
                    }
                },
                Option::None => {
                    proof {
                        hd = Seq::<(Seq<u8>, Seq<u8>)>::empty();
                        assert(pairs_deep(out@) =~= out_base + hd);
                    }
                },
            }
            let ghost head_base = pairs_deep(out@);
            let ghost cs_dec = children@.map_values(|c: Option<ChildRef>| child_view(c));
            let ghost mut acc: Seq<(Seq<u8>, Seq<u8>)> = Seq::<(Seq<u8>, Seq<u8>)>::empty();
            proof {
                assert(pairs_deep(out@) =~= head_base + acc);
                let fullch = spec_collect_children(db@, cs_dec, 0, fullv, fuel as nat);
                match fullch {
                    Result::Ok(rest) => {
                        assert(Seq::<(Seq<u8>, Seq<u8>)>::empty() + rest =~= rest);
                    },
                    Result::Err(_) => {
                    },
                }
            }
            let mut x: usize = 0;
            while x < 16
                invariant
                    x <= 16,
                    pairs_deep(out@) == head_base + acc,
                    spec_collect_children(db@, cs_dec, 0, fullv, fuel as nat) == (
                    match spec_collect_children(db@, cs_dec, x as int, fullv, fuel as nat) {
                        Result::Ok(rest) => Result::<Seq<(Seq<u8>, Seq<u8>)>, Error>::Ok(
                            acc + rest,
                        ),
                        Result::Err(e) => Result::Err(e),
                    }),
                decreases 16 - x,
            {
                proof {
                    assert(cs_dec[x as int] == child_view(children@[x as int]));
                }
                match &children[x] {
                    Option::None => {
                        proof {
                            match spec_collect_children(db@, cs_dec, x as int + 1, fullv, fuel as nat) {
                                Result::Ok(rest) => {
                                    assert(Seq::<(Seq<u8>, Seq<u8>)>::empty() + rest =~= rest);
                                },
                                Result::Err(_) => {
                                },
                            }
                        }
                    },
                    Option::Some(ChildRef::Inline(b)) => {
                        let mut child_prefix = clone_bytes(&full);
                        child_prefix.push(x as u8);
                        assert(child_prefix@ =~= fullv + seq![x as u8]);
                        let bb = clone_bytes(b);
                        let ghost pre_deep = pairs_deep(out@);
                        match collect_step(db, &bb, child_prefix, out, fuel - 1) {
                            Ok(()) => {
                                proof {
                                    let ps = match spec_collect(
                                        db@,
                                        bb@,
                                        fullv + seq![x as u8],
                                        (fuel - 1) as nat,
                                    ) {
                                        Result::Ok(p) => p,
                                        Result::Err(_) => Seq::<(Seq<u8>, Seq<u8>)>::empty(),
                                    };
                                    assert(pairs_deep(out@) == pre_deep + ps);
                                    assert(head_base + (acc + ps) =~= (head_base + acc) + ps);
                                    match spec_collect_children(
                                        db@,
                                        cs_dec,
                                        x as int + 1,
                                        fullv,
                                        fuel as nat,
                                    ) {
                                        Result::Ok(rest) => {
                                            assert((acc + ps) + rest =~= acc + (ps + rest));
                                        },
                                        Result::Err(_) => {
                                        },
                                    }
                                    acc = acc + ps;
                                }
                            },
                            Err(e) => {
                                return Err(e);
                            },
                        }
                    },
                    Option::Some(ChildRef::Digest(h)) => {
                        let mut child_prefix = clone_bytes(&full);
                        child_prefix.push(x as u8);
                        assert(child_prefix@ =~= fullv + seq![x as u8]);
                        let cb = match db.get(h) {
                            Option::Some(cb) => cb,
                            Option::None => {
                                return Err(Error::BadFormat);
                            },
                        };
                        let ghost pre_deep = pairs_deep(out@);
                        match collect_step(db, &cb, child_prefix, out, fuel - 1) {
                            Ok(()) => {
                                proof {
                                    let ps = match spec_collect(
                                        db@,
                                        cb@,
                                        fullv + seq![x as u8],
                                        (fuel - 1) as nat,
                                    ) {
                                        Result::Ok(p) => p,
                                        Result::Err(_) => Seq::<(Seq<u8>, Seq<u8>)>::empty(),
                                    };
                                    assert(pairs_deep(out@) == pre_deep + ps);
                                    assert(head_base + (acc + ps) =~= (head_base + acc) + ps);
                                    match spec_collect_children(
                                        db@,
                                        cs_dec,
                                        x as int + 1,
                                        fullv,
                                        fuel as nat,
                                    ) {
                                        Result::Ok(rest) => {
                                            assert((acc + ps) + rest =~= acc + (ps + rest));
                                        },
                                        Result::Err(_) => {
                                        },
                                    }
                                    acc = acc + ps;
                                }
                            },
                            Err(e) => {
                                return Err(e);
                            },
                        }
                    },
                }
                x = x + 1;
            }
            proof {
                assert(spec_collect_children(db@, cs_dec, 16, fullv, fuel as nat) == Result::<
                    Seq<(Seq<u8>, Seq<u8>)>,
                    Error,
                >::Ok(Seq::<(Seq<u8>, Seq<u8>)>::empty()));
                assert(acc + Seq::<(Seq<u8>, Seq<u8>)>::empty() =~= acc);
                assert(out_base + (hd + acc) =~= (out_base + hd) + acc);
            }
            Ok(())
        },
    }
}

/// Enumerates the whole stored trie under `root` as sorted key/value
/// pairs.
#[verifier::loop_isolation(false)]
pub fn collect_pairs(db: &NodeStore, root: &Vec<u8>) -> (r: Result<Vec<(Vec<u8>, Vec<u8>)>, Error>)
    ensures
        ({
            let res = spec_collect_pairs(db@, root@);
            match r {
                Ok(out) => res == Result::<Seq<(Seq<u8>, Seq<u8>)>, Error>::Ok(pairs_deep(out@)),
                Err(e) => res == Result::<Seq<(Seq<u8>, Seq<u8>)>, Error>::Err(e),
            }
        }),
{
    let root_bytes = match db.get(root) {
        Option::Some(b) => b,
        Option::None => {
            return Err(Error::BadFormat);
        },
    };
    let mut fuel: usize = 2;
    let mut t: usize = 0;
    while t < db.len()
        invariant
            t <= db@.len(),
            2 <= fuel <= 0x4000_0000 + 65600,
            spec_collect_fuel(db@.len() as int, 0, 2) == spec_collect_fuel(
                db@.len() as int,
                t as int,
                fuel as nat,
            ),
        decreases db@.len() - t,
    {
        if fuel > 0x4000_0000 {
            proof {
                assert(spec_collect_fuel(db@.len() as int, t as int, fuel as nat) == Result::<
                    nat,
                    Error,
                >::Err(Error::BadFormat));
            }
            return Err(Error::BadFormat);
        }
        fuel = fuel + 65600;
        t = t + 1;
    }
    proof {
        assert(spec_collect_fuel(db@.len() as int, 0, 2) == Result::<nat, Error>::Ok(
            fuel as nat,
        ));
    }
    let mut out: Vec<(Vec<u8>, Vec<u8>)> = Vec::new();
    let prefix_vec: Vec<u8> = Vec::new();
    assert(prefix_vec@ =~= Seq::<u8>::empty());
    assert(pairs_deep(out@) =~= Seq::<(Seq<u8>, Seq<u8>)>::empty());
    match collect_step(db, &root_bytes, prefix_vec, &mut out, fuel) {
        Ok(()) => {
            proof {
                match spec_collect(db@, root_bytes@, Seq::<u8>::empty(), fuel as nat) {
                    Result::Ok(ps) => {
                        assert(Seq::<(Seq<u8>, Seq<u8>)>::empty() + ps =~= ps);
                    },
                    Result::Err(_) => {
                    },
                }
            }
            Ok(out)
        },
        Err(e) => Err(e),
    }
}

} // verus!

use vstd::prelude::*;
use vstd::arithmetic::power2::{pow2, lemma_pow2_strictly_increases, lemma2_to64};
use crate::compact::{spec_compact, compact_encode_to, spec_decode_compact, compact_decode};
use crate::error::Error;
use crate::nibble::is_nibbles;

verus! {

/// Width of a digest, in bytes.
pub const DIGEST_LEN: usize = 32;

/// Largest nibble count a node header can carry.
pub const MAX_PARTIAL_NIBBLES: usize = 65535;

/// A reference from a branch slot to a child: either the child's whole
/// encoding placed inline, or the digest under which it is stored.
#[derive(Debug)]
pub enum ChildRef {
    Inline(Vec<u8>),
    Digest(Vec<u8>),
}

/// A trie node: the tagged union of the four variants the format knows.
#[derive(Debug)]
pub enum Node {
    Empty,
    Leaf { partial: Vec<u8>, value: Vec<u8> },
    Branch { partial: Vec<u8>, children: Vec<Option<ChildRef>>, value: Option<Vec<u8>> },
}

/// The mathematical shape of a child reference.
pub enum SpecChild {
    Inline(Seq<u8>),
    Digest(Seq<u8>),
}

/// The mathematical shape of a node.
pub enum SpecNode {
    Empty,
    Leaf { partial: Seq<u8>, value: Seq<u8> },
    Branch { partial: Seq<u8>, children: Seq<Option<SpecChild>>, value: Option<Seq<u8>> },
}

pub open spec fn child_view(c: Option<ChildRef>) -> Option<SpecChild> {
    match c {
        Option::None => Option::None,
        Option::Some(ChildRef::Inline(b)) => Option::Some(SpecChild::Inline(b@)),
        Option::Some(ChildRef::Digest(h)) => Option::Some(SpecChild::Digest(h@)),
    }
}

impl View for Node {
    type V = SpecNode;

    open spec fn view(&self) -> SpecNode {
        match self {
            Node::Empty => SpecNode::Empty,
            Node::Leaf { partial, value } => SpecNode::Leaf {
                partial: partial@,
                value: value@,
            },
            Node::Branch { partial, children, value } => SpecNode::Branch {
                partial: partial@,
                children: children@.map_values(|c: Option<ChildRef>| child_view(c)),
                value: match value {
                    Option::None => Option::None,
                    Option::Some(v) => Option::Some(v@),
                },
            },
        }
    }
}

pub open spec fn wf_child(c: SpecChild) -> bool {
    match c {
        SpecChild::Inline(b) => b.len() < DIGEST_LEN,
        SpecChild::Digest(h) => h.len() == DIGEST_LEN,
    }
}

/// A node the encoder accepts: nibbles in range, the partial key below the
/// header's ceiling, lengths below the compact encoder's 32-bit reach, and
/// sixteen child slots each holding a well-formed reference.
pub open spec fn wf_node(n: SpecNode) -> bool {
    match n {
        SpecNode::Empty => true,
        SpecNode::Leaf { partial, value } => is_nibbles(partial) && partial.len()
            <= MAX_PARTIAL_NIBBLES && value.len() < 0x1_0000_0000,
        SpecNode::Branch { partial, children, value } => is_nibbles(partial) && partial.len()
            <= MAX_PARTIAL_NIBBLES && children.len() == 16 && (forall|i: int|
            0 <= i < 16 ==> (#[trigger] children[i] matches Option::Some(c) ==> wf_child(c))) && (
        value matches Option::Some(v) ==> v.len() < 0x1_0000_0000),
    }
}

/// The header: the top two bits of the first byte give the variant, the low
/// six the nibble count, with `63` marking a compact continuation holding
/// the count less sixty-two.
pub open spec fn spec_header(tag: nat, count: nat) -> Seq<u8>
    recommends
        1 <= tag <= 3,
        count <= MAX_PARTIAL_NIBBLES,
{
    if count < 63 {
        seq![(tag * 64 + count) as u8]
    } else {
        seq![(tag * 64 + 63) as u8] + spec_compact((count - 62) as nat)
    }
}

/// Nibbles packed two per byte, high first; an odd count starts with a
/// padding byte whose high nibble is zero.
pub open spec fn spec_pack_nibbles(p: Seq<u8>) -> Seq<u8>
    recommends
        is_nibbles(p),
{
    if p.len() % 2 == 0 {
        Seq::new(p.len() / 2, |i: int| (p[2 * i] * 16 + p[2 * i + 1]) as u8)
    } else {
        seq![p[0]] + Seq::new(p.len() / 2, |i: int| (p[2 * i + 1] * 16 + p[2 * i + 2]) as u8)
    }
}

/// The bitmap of populated slots from `k` up, little-endian: the low bit
/// speaks for slot `k`.
pub open spec fn spec_bitmap(children: Seq<Option<SpecChild>>, k: int) -> nat
    decreases 16 - k,
{
    if k >= 16 {
        0
    } else {
        (if children[k] is Some {
            1nat
        } else {
            0nat
        }) + 2 * spec_bitmap(children, k + 1)
    }
}

pub proof fn lemma_bitmap_bound(children: Seq<Option<SpecChild>>, k: int)
    requires
        0 <= k <= 16,
    ensures
        spec_bitmap(children, k) < 0x10000,
{
    lemma_bitmap_small(children, k);
    lemma2_to64();
    if 0 < k {
        lemma_pow2_strictly_increases((16 - k) as nat, 16);
    }
}

proof fn lemma_bitmap_small(children: Seq<Option<SpecChild>>, k: int)
    requires
        k <= 16,
    ensures
        spec_bitmap(children, k) < pow2((16 - k) as nat),
    decreases 16 - k,
{
    if k >= 16 {
        assert(pow2(0) == 1) by {
            lemma2_to64();
        }
    } else {
        lemma_bitmap_small(children, k + 1);
        assert(pow2((16 - k) as nat) == 2 * pow2((16 - k - 1) as nat)) by {
            vstd::arithmetic::power2::lemma_pow2_unfold((16 - k) as nat);
        }
    }
}

/// One populated slot's wire form: a compact length then the payload, which
/// is the inline encoding or a digest; an empty slot adds nothing.
pub open spec fn spec_child_enc(c: Option<SpecChild>) -> Seq<u8> {
    match c {
        Option::None => Seq::<u8>::empty(),
        Option::Some(SpecChild::Inline(b)) => spec_compact(b.len()) + b,
        Option::Some(SpecChild::Digest(h)) => spec_compact(h.len()) + h,
    }
}

/// All slots from `k` up, in ascending slot order.
pub open spec fn spec_children_enc(children: Seq<Option<SpecChild>>, k: int) -> Seq<u8>
    decreases 16 - k,
{
    if k >= 16 {
        Seq::<u8>::empty()
    } else {
        spec_child_enc(children[k]) + spec_children_enc(children, k + 1)
    }
}

/// The wire form of a node. Empty is the single byte zero; a leaf is header,
/// packed partial key, then the compact-length-prefixed value; a branch is
/// header, packed partial key, two bitmap bytes low byte first, the
/// populated children in ascending slot order, and last the value when the
/// variant carries one.
pub open spec fn spec_encode_node(n: SpecNode) -> Seq<u8> {
    match n {
        SpecNode::Empty => seq![0u8],
        SpecNode::Leaf { partial, value } => spec_header(1, partial.len()) + spec_pack_nibbles(
            partial,
        ) + spec_compact(value.len()) + value,
        SpecNode::Branch { partial, children, value } => spec_header(
            if value is Some {
                3
            } else {
                2
            },
            partial.len(),
        ) + spec_pack_nibbles(partial) + seq![
            (spec_bitmap(children, 0) % 256) as u8,
            (spec_bitmap(children, 0) / 256) as u8,
        ] + spec_children_enc(children, 0) + (match value {
            Option::Some(v) => spec_compact(v.len()) + v,
            Option::None => Seq::<u8>::empty(),
        }),
    }
}

/// Appends the header for `tag` and `count` to `out`.
fn encode_header_to(out: &mut Vec<u8>, tag: u8, count: usize)
    requires
        1 <= tag <= 3,
        count <= MAX_PARTIAL_NIBBLES,
    ensures
        final(out)@ == old(out)@ + spec_header(tag as nat, count as nat),
{
    if count < 63 {
        out.push(tag * 64 + count as u8);
    } else {
        out.push(tag * 64 + 63);
        compact_encode_to(out, (count - 62) as u32);
        assert(out@ == old(out)@ + spec_header(tag as nat, count as nat));
    }
}

/// Appends the packed form of the nibble path `p` to `out`.
fn pack_nibbles_to(out: &mut Vec<u8>, p: &Vec<u8>)
    requires
        is_nibbles(p@),
        p@.len() <= MAX_PARTIAL_NIBBLES,
    ensures
        final(out)@ == old(out)@ + spec_pack_nibbles(p@),
{
    let ghost packed = spec_pack_nibbles(p@);
    let mut i: usize = 0;
    if p.len() % 2 == 1 {
        assert(p@[0] < 16);
        out.push(p[0]);
        i = 1;
        assert(out@ == old(out)@ + packed.take(1));
    } else {
        assert(out@ =~= old(out)@ + packed.take(0));
    }
    while i + 1 < p.len()
        invariant
            is_nibbles(p@),
            p@.len() <= MAX_PARTIAL_NIBBLES,
            i % 2 == p@.len() % 2,
            i <= p.len(),
            out@ == old(out)@ + spec_pack_nibbles(p@).take(((i + 1) / 2) as int),
        decreases p.len() - i,
    {
        assert(p@[i as int] < 16 && p@[i as int + 1] < 16);
        out.push(p[i] * 16 + p[i + 1]);
        proof {
            let packed = spec_pack_nibbles(p@);
            let j = ((i + 1) / 2) as int;
            assert(packed.len() == (p@.len() + 1) / 2);
            assert(0 <= j < packed.len());
            if p@.len() % 2 == 0 {
                assert(2 * j == i as int);
                assert(packed[j] == (p@[2 * j] * 16 + p@[2 * j + 1]) as u8);
            } else {
                assert(j >= 1);
                assert(2 * (j - 1) + 1 == i as int);
                assert(packed[j] == (p@[2 * (j - 1) + 1] * 16 + p@[2 * (j - 1) + 2]) as u8);
            }
            assert(out@ =~= old(out)@ + packed.take(j + 1));
        }
        i = i + 2;
    }
    proof {
        assert(i == p@.len());
        assert(spec_pack_nibbles(p@).len() == (p@.len() + 1) / 2);
        assert(spec_pack_nibbles(p@).take(((i + 1) / 2) as int) =~= spec_pack_nibbles(p@));
    }
}

/// Encodes a node into its wire form.
pub fn encode_node(n: &Node) -> (r: Vec<u8>)
    requires
        wf_node(n@),
    ensures
        r@ == spec_encode_node(n@),
{
    match n {
        Node::Empty => {
            let mut out: Vec<u8> = Vec::new();
            out.push(0u8);
            assert(out@ =~= spec_encode_node(n@));
            out
        },
        Node::Leaf { partial, value } => {
            let mut out: Vec<u8> = Vec::new();
            assert(is_nibbles(partial@) && partial@.len() <= MAX_PARTIAL_NIBBLES && value@.len()
                < 0x1_0000_0000);
            encode_header_to(&mut out, 1, partial.len());
            pack_nibbles_to(&mut out, partial);
            compact_encode_to(&mut out, value.len() as u32);
            append_bytes(&mut out, value);
            assert(out@ =~= spec_encode_node(n@));
            out
        },
        Node::Branch { partial, children, value } => {
            let mut out: Vec<u8> = Vec::new();
            let ghost cs = children@.map_values(|c: Option<ChildRef>| child_view(c));
            assert(is_nibbles(partial@) && partial@.len() <= MAX_PARTIAL_NIBBLES && children@.len()
                == 16);
            assert forall|i: int|
                0 <= i < 16 implies (#[trigger] child_view(children@[i]) matches Option::Some(c)
                ==> wf_child(c)) by {
                assert(cs[i] == child_view(children@[i]));
            }
            let tag: u8 = if value.is_some() {
                3
            } else {
                2
            };
            encode_header_to(&mut out, tag, partial.len());
            pack_nibbles_to(&mut out, partial);
            let bm = bitmap_of(children);
            out.push((bm % 256) as u8);
            out.push((bm / 256) as u8);
            encode_children_to(&mut out, children);
            match value {
                Option::Some(v) => {
                    compact_encode_to(&mut out, v.len() as u32);
                    append_bytes(&mut out, v);
                },
                Option::None => {},
            }
            assert(out@ =~= spec_encode_node(n@));
            out
        },
    }
}

/// Appends all of `src` to `out`.
pub fn append_bytes(out: &mut Vec<u8>, src: &Vec<u8>)
    ensures
        final(out)@ == old(out)@ + src@,
{
    let mut i: usize = 0;
    while i < src.len()
        invariant
            i <= src.len(),
            out@ == old(out)@ + src@.take(i as int),
        decreases src.len() - i,
    {
        out.push(src[i]);
        proof {
            assert(old(out)@ + src@.take(i as int) + seq![src@[i as int]] =~= old(out)@
                + src@.take(i as int + 1));
        }
        i = i + 1;
    }
    proof {
        assert(old(out)@ + src@.take(src@.len() as int) =~= old(out)@ + src@);
    }
}

/// Computes the sixteen-slot bitmap.
fn bitmap_of(children: &Vec<Option<ChildRef>>) -> (r: u16)
    requires
        children@.len() == 16,
    ensures
        r as nat == spec_bitmap(children@.map_values(|c: Option<ChildRef>| child_view(c)), 0),
{
    let ghost cs = children@.map_values(|c: Option<ChildRef>| child_view(c));
    let mut r: u16 = 0;
    let mut k: usize = 16;
    while k > 0
        invariant
            k <= 16,
            children@.len() == 16,
            cs == children@.map_values(|c: Option<ChildRef>| child_view(c)),
            r as nat == spec_bitmap(cs, k as int),
        decreases k,
    {
        proof {
            lemma_bitmap_small(cs, k as int);
            lemma2_to64();
            if k > 1 {
                lemma_pow2_strictly_increases((16 - k as int) as nat, 15);
            }
            assert(r < 0x8000);
        }
        let bit: u16 = if children[k - 1].is_some() {
            1
        } else {
            0
        };
        assert(cs[k as int - 1] is Some <==> children@[k as int - 1] is Some);
        r = 2 * r + bit;
        k = k - 1;
    }
    r
}

/// Appends the populated children, ascending, each length-prefixed.
fn encode_children_to(out: &mut Vec<u8>, children: &Vec<Option<ChildRef>>)
    requires
        children@.len() == 16,
        forall|i: int|
            0 <= i < 16 ==> (#[trigger] child_view(children@[i]) matches Option::Some(c) ==> wf_child(c)),
    ensures
        final(out)@ == old(out)@ + spec_children_enc(
            children@.map_values(|c: Option<ChildRef>| child_view(c)),
            0,
        ),
{
    let ghost cs = children@.map_values(|c: Option<ChildRef>| child_view(c));
    let mut k: usize = 0;
    while k < 16
        invariant
            k <= 16,
            children@.len() == 16,
            cs == children@.map_values(|c: Option<ChildRef>| child_view(c)),
            forall|i: int| 0 <= i < 16 ==> (#[trigger] cs[i] matches Option::Some(c) ==> wf_child(c)),
            out@ + spec_children_enc(cs, k as int) == old(out)@ + spec_children_enc(cs, 0),
        decreases 16 - k,
    {
        match &children[k] {
            Option::None => {
                assert(cs[k as int] is None);
                assert(spec_children_enc(cs, k as int) == spec_child_enc(cs[k as int])
                    + spec_children_enc(cs, k as int + 1));
            },
            Option::Some(ChildRef::Inline(b)) => {
                assert(cs[k as int] == Option::Some(SpecChild::Inline(b@)));
                compact_encode_to(out, b.len() as u32);
                append_bytes(out, b);
                proof {
                    assert(out@ + spec_children_enc(cs, k as int + 1) =~= old(out)@
                        + spec_children_enc(cs, 0));
                }
            },
            Option::Some(ChildRef::Digest(h)) => {
                assert(cs[k as int] == Option::Some(SpecChild::Digest(h@)));
                compact_encode_to(out, h.len() as u32);
                append_bytes(out, h);
                proof {
                    assert(out@ + spec_children_enc(cs, k as int + 1) =~= old(out)@
                        + spec_children_enc(cs, 0));
                }
            },
        }
        k = k + 1;
    }
    proof {
        assert(out@ + spec_children_enc(cs, 16) =~= out@);
    }
}


/// Reads a non-empty header: the variant tag, the nibble count (following
/// the continuation rule), and the position after the header.
pub open spec fn spec_decode_header(s: Seq<u8>) -> Option<(nat, nat, int)> {
    if s.len() == 0 {
        Option::None
    } else {
        let b0 = s[0] as nat;
        let tag = b0 / 64;
        let low = b0 % 64;
        if tag == 0 {
            Option::None
        } else if low < 63 {
            Option::Some((tag, low, 1))
        } else {
            match spec_decode_compact(s, 1) {
                Option::None => Option::None,
                Option::Some((v, p)) => if 1 <= v && v + 62 <= MAX_PARTIAL_NIBBLES {
                    Option::Some((tag, (v + 62) as nat, p))
                } else {
                    Option::None
                },
            }
        }
    }
}

/// The `j`-th nibble of the bytes starting at `pos`, high nibble first.
pub open spec fn spec_nib_at(s: Seq<u8>, pos: int, j: int) -> u8 {
    if j % 2 == 0 {
        s[pos + j / 2] / 16
    } else {
        s[pos + j / 2] % 16
    }
}

/// Unpacks `count` nibbles at `pos`: the path and the position after it,
/// or nothing when the buffer is short or an odd count's padding nibble
/// is not zero.
pub open spec fn spec_unpack_nibbles(s: Seq<u8>, pos: int, count: nat) -> Option<(Seq<u8>, int)> {
    let nbytes = ((count + 1) / 2) as int;
    if pos + nbytes > s.len() {
        Option::None
    } else if count % 2 == 1 && s[pos] / 16 != 0 {
        Option::None
    } else {
        Option::Some(
            (Seq::new(count, |i: int| spec_nib_at(s, pos, i + (count % 2))), pos + nbytes),
        )
    }
}

/// Reads a compact length then that many raw bytes.
pub open spec fn spec_parse_value(s: Seq<u8>, pos: int) -> Option<(Seq<u8>, int)> {
    match spec_decode_compact(s, pos) {
        Option::None => Option::None,
        Option::Some((l, p)) => if p + l > s.len() {
            Option::None
        } else {
            Option::Some((s.subrange(p, p + l as int), p + l as int))
        },
    }
}

/// Reads the populated slots from `k` up, driven by the bitmap bits in
/// `bmv`, low bit first; a payload of exactly the digest width is a digest
/// reference, any other length an inline child.
pub open spec fn spec_parse_children(s: Seq<u8>, pos: int, bmv: nat, k: int) -> Option<
    (Seq<Option<SpecChild>>, int),
>
    decreases 16 - k,
{
    if k >= 16 {
        Option::Some((Seq::<Option<SpecChild>>::empty(), pos))
    } else if bmv % 2 == 0 {
        match spec_parse_children(s, pos, bmv / 2, k + 1) {
            Option::None => Option::None,
            Option::Some((cs, p)) => Option::Some((seq![Option::None] + cs, p)),
        }
    } else {
        match spec_parse_value(s, pos) {
            Option::None => Option::None,
            Option::Some((payload, p1)) => {
                let c = if payload.len() == DIGEST_LEN {
                    SpecChild::Digest(payload)
                } else {
                    SpecChild::Inline(payload)
                };
                match spec_parse_children(s, p1, bmv / 2, k + 1) {
                    Option::None => Option::None,
                    Option::Some((cs, p)) => Option::Some((seq![Option::Some(c)] + cs, p)),
                }
            },
        }
    }
}

/// The error a failed child-list parse reports: the failing slot's own
/// length prefix decides the kind.
pub open spec fn spec_parse_children_err(s: Seq<u8>, pos: int, bmv: nat, k: int) -> Error
    recommends
        spec_parse_children(s, pos, bmv, k) is None,
    decreases 16 - k,
{
    if k >= 16 {
        Error::BadFormat
    } else if bmv % 2 == 0 {
        spec_parse_children_err(s, pos, bmv / 2, k + 1)
    } else {
        match spec_parse_value(s, pos) {
            Option::None => spec_parse_value_err(s, pos),
            Option::Some((payload, p1)) => spec_parse_children_err(s, p1, bmv / 2, k + 1),
        }
    }
}

/// The error a failed node decode reports: a nested length prefix that
/// does not parse surfaces as the Decode kind; every other failure, a
/// malformed header, truncation or trailing bytes, is BadFormat.
pub open spec fn spec_decode_node_err(s: Seq<u8>) -> Error
    recommends
        spec_decode_node(s) is None,
{
    if s.len() == 0 || s[0] == 0 {
        Error::BadFormat
    } else if s[0] / 64 == 0 {
        Error::BadFormat
    } else if s[0] % 64 == 63 && spec_decode_compact(s, 1) is None {
        Error::Decode(crate::compact::spec_compact_err(s, 1))
    } else {
        match spec_decode_header(s) {
            Option::None => Error::BadFormat,
            Option::Some((tag, count, p0)) => match spec_unpack_nibbles(s, p0, count) {
                Option::None => Error::BadFormat,
                Option::Some((partial, p1)) => if tag == 1 {
                    match spec_parse_value(s, p1) {
                        Option::None => spec_parse_value_err(s, p1),
                        Option::Some(_) => Error::BadFormat,
                    }
                } else {
                    if p1 + 2 > s.len() {
                        Error::BadFormat
                    } else {
                        let bmv = s[p1] as nat + 256 * (s[p1 + 1] as nat);
                        match spec_parse_children(s, p1 + 2, bmv, 0) {
                            Option::None => spec_parse_children_err(s, p1 + 2, bmv, 0),
                            Option::Some((children, p2)) => if tag == 3 {
                                match spec_parse_value(s, p2) {
                                    Option::None => spec_parse_value_err(s, p2),
                                    Option::Some(_) => Error::BadFormat,
                                }
                            } else {
                                Error::BadFormat
                            },
                        }
                    }
                },
            },
        }
    }
}

/// Decodes a whole buffer into a node; the buffer must hold exactly one
/// node and nothing after it.
pub open spec fn spec_decode_node(s: Seq<u8>) -> Option<SpecNode> {
    if s.len() == 0 {
        Option::None
    } else if s[0] == 0 {
        if s.len() == 1 {
            Option::Some(SpecNode::Empty)
        } else {
            Option::None
        }
    } else {
        match spec_decode_header(s) {
            Option::None => Option::None,
            Option::Some((tag, count, p0)) => match spec_unpack_nibbles(s, p0, count) {
                Option::None => Option::None,
                Option::Some((partial, p1)) => if tag == 1 {
                    match spec_parse_value(s, p1) {
                        Option::None => Option::None,
                        Option::Some((value, p2)) => if p2 == s.len() {
                            Option::Some(SpecNode::Leaf { partial, value })
                        } else {
                            Option::None
                        },
                    }
                } else {
                    if p1 + 2 > s.len() {
                        Option::None
                    } else {
                        let bmv = s[p1] as nat + 256 * (s[p1 + 1] as nat);
                        match spec_parse_children(s, p1 + 2, bmv, 0) {
                            Option::None => Option::None,
                            Option::Some((children, p2)) => if tag == 3 {
                                match spec_parse_value(s, p2) {
                                    Option::None => Option::None,
                                    Option::Some((value, p3)) => if p3 == s.len() {
                                        Option::Some(
                                            SpecNode::Branch {
                                                partial,
                                                children,
                                                value: Option::Some(value),
                                            },
                                        )
                                    } else {
                                        Option::None
                                    },
                                }
                            } else {
                                if p2 == s.len() {
                                    Option::Some(
                                        SpecNode::Branch {
                                            partial,
                                            children,
                                            value: Option::None,
                                        },
                                    )
                                } else {
                                    Option::None
                                }
                            },
                        }
                    }
                },
            },
        }
    }
}

/// Unpacks `count` nibbles starting at `pos`.
fn unpack_nibbles(s: &Vec<u8>, pos: usize, count: usize) -> (r: Result<(Vec<u8>, usize), Error>)
    requires
        pos <= s@.len(),
        count <= MAX_PARTIAL_NIBBLES,
    ensures
        match r {
            Ok(p) => spec_unpack_nibbles(s@, pos as int, count as nat) == Option::Some(
                (p.0@, p.1 as int),
            ) && p.1 <= s@.len() && is_nibbles(p.0@) && p.0@.len() == count,
            Err(e) => spec_unpack_nibbles(s@, pos as int, count as nat) is None && e
                == Error::BadFormat,
        },
{
    let nbytes: usize = (count + 1) / 2;
    if s.len() - pos < nbytes {
        return Err(Error::BadFormat);
    }
    let pad: usize = count % 2;
    if pad == 1 && s[pos] / 16 != 0 {
        return Err(Error::BadFormat);
    }
    let ghost target = Seq::new(count as nat, |i: int| spec_nib_at(s@, pos as int, i + (count as int % 2)));
    let slen: usize = s.len();
    let mut p: Vec<u8> = Vec::new();
    let mut j: usize = 0;
    while j < count
        invariant
            slen == s@.len(),
            pos + nbytes <= slen,
            nbytes == (count + 1) / 2,
            pad == count % 2,
            j <= count,
            count <= MAX_PARTIAL_NIBBLES,
            target == Seq::new(count as nat, |i: int| spec_nib_at(s@, pos as int, i + (count as int % 2))),
            p@ == target.take(j as int),
        decreases count - j,
    {
        assert(j + pad <= count);
        assert((j + pad) / 2 < nbytes);
        let idx: usize = pos + (j + pad) / 2;
        let nib: u8 = if (j + pad) % 2 == 0 {
            s[idx] / 16
        } else {
            s[idx] % 16
        };
        assert(nib == spec_nib_at(s@, pos as int, j + (count as int % 2)));
        p.push(nib);
        assert(p@ =~= target.take(j as int + 1));
        j = j + 1;
    }
    assert(p@ =~= target);
    assert(forall|i: int| 0 <= i < p@.len() ==> p@[i] < 16);
    Ok((p, pos + nbytes))
}

/// The error a failed value parse reports: the nested length prefix's own
/// failure surfaces as the Decode kind, a truncated payload as BadFormat.
pub open spec fn spec_parse_value_err(s: Seq<u8>, pos: int) -> Error
    recommends
        spec_parse_value(s, pos) is None,
{
    if spec_decode_compact(s, pos) is None {
        Error::Decode(crate::compact::spec_compact_err(s, pos))
    } else {
        Error::BadFormat
    }
}

/// Reads a compact length then copies that many bytes.
fn parse_value(s: &Vec<u8>, pos: usize) -> (r: Result<(Vec<u8>, usize), Error>)
    ensures
        match r {
            Ok(p) => spec_parse_value(s@, pos as int) == Option::Some((p.0@, p.1 as int)) && p.1
                <= s@.len(),
            Err(e) => spec_parse_value(s@, pos as int) is None && e == spec_parse_value_err(
                s@,
                pos as int,
            ),
        },
{
    let (l, p) = match compact_decode(s, pos) {
        Ok(x) => x,
        Err(e) => {
            return Err(Error::Decode(e));
        },
    };
    assert(p <= s@.len());
    let rem: usize = s.len() - p;
    let llen: usize = l as usize;
    if rem < llen {
        return Err(Error::BadFormat);
    }
    let slen: usize = s.len();
    let mut v: Vec<u8> = Vec::new();
    let mut i: usize = 0;
    while i < llen
        invariant
            slen == s@.len(),
            p + llen <= slen,
            i <= llen,
            v@ == s@.subrange(p as int, p as int + i as int),
        decreases llen - i,
    {
        assert(p + i < s@.len());
        v.push(s[p + i]);
        assert(v@ =~= s@.subrange(p as int, p as int + i as int + 1));
        i = i + 1;
    }
    Ok((v, p + llen))
}

/// Reads the populated child slots from `k` up.
fn parse_children(s: &Vec<u8>, pos: usize, bmv: u16, k: usize) -> (r: Result<
    (Vec<Option<ChildRef>>, usize),
    Error,
>)
    requires
        k <= 16,
        pos <= s@.len(),
    ensures
        match r {
            Ok(p) => spec_parse_children(s@, pos as int, bmv as nat, k as int) == Option::Some(
                (p.0@.map_values(|c: Option<ChildRef>| child_view(c)), p.1 as int),
            ) && p.1 <= s@.len() && p.0@.len() == 16 - k,
            Err(e) => spec_parse_children(s@, pos as int, bmv as nat, k as int) is None && e
                == spec_parse_children_err(s@, pos as int, bmv as nat, k as int),
        },
    decreases 16 - k,
{
    if k >= 16 {
        let cs: Vec<Option<ChildRef>> = Vec::new();
        assert(cs@.map_values(|c: Option<ChildRef>| child_view(c)) =~= Seq::<
            Option<SpecChild>,
        >::empty());
        return Ok((cs, pos));
    }
    if bmv % 2 == 0 {
        match parse_children(s, pos, bmv / 2, k + 1) {
            Ok((mut cs, p)) => {
                let ghost rest = cs@;
                cs.insert(0, Option::None);
                proof {
                    assert(cs@ =~= seq![Option::<ChildRef>::None] + rest);
                    assert(cs@.map_values(|c: Option<ChildRef>| child_view(c)) =~= seq![
                        Option::<SpecChild>::None,
                    ] + rest.map_values(|c: Option<ChildRef>| child_view(c)));
                }
                Ok((cs, p))
            },
            Err(e) => Err(e),
        }
    } else {
        let (payload, p1) = match parse_value(s, pos) {
            Ok(x) => x,
            Err(e) => {
                return Err(e);
            },
        };
        let ghost pl = payload@;
        let c: ChildRef = if payload.len() == DIGEST_LEN {
            ChildRef::Digest(payload)
        } else {
            ChildRef::Inline(payload)
        };
        match parse_children(s, p1, bmv / 2, k + 1) {
            Ok((mut cs, p)) => {
                let ghost rest = cs@;
                let ghost sc = if pl.len() == DIGEST_LEN {
                    SpecChild::Digest(pl)
                } else {
                    SpecChild::Inline(pl)
                };
                assert(child_view(Option::Some(c)) == Option::Some(sc));
                cs.insert(0, Option::Some(c));
                proof {
                    assert(cs@.map_values(|cc: Option<ChildRef>| child_view(cc)) =~= seq![
                        Option::Some(sc),
                    ] + rest.map_values(|cc: Option<ChildRef>| child_view(cc)));
                }
                Ok((cs, p))
            },
            Err(e) => Err(e),
        }
    }
}

/// Decodes a buffer holding exactly one node.
pub fn decode_node(s: &Vec<u8>) -> (r: Result<Node, Error>)
    ensures
        match r {
            Ok(n) => spec_decode_node(s@) == Option::Some(n@),
            Err(e) => spec_decode_node(s@) is None && e == spec_decode_node_err(s@),
        },
{
    if s.len() == 0 {
        return Err(Error::BadFormat);
    }
    if s[0] == 0 {
        if s.len() == 1 {
            return Ok(Node::Empty);
        } else {
            return Err(Error::BadFormat);
        }
    }
    let b0: u8 = s[0];
    let tag: u8 = b0 / 64;
    if tag == 0 {
        return Err(Error::BadFormat);
    }
    let low: u8 = b0 % 64;
    let count: usize;
    let p0: usize;
    if low < 63 {
        count = low as usize;
        p0 = 1;
    } else {
        match compact_decode(s, 1) {
            Ok((v, p)) => {
                if v == 0 || v > (MAX_PARTIAL_NIBBLES - 62) as u32 {
                    return Err(Error::BadFormat);
                }
                count = v as usize + 62;
                p0 = p;
            },
            Err(e) => {
                return Err(Error::Decode(e));
            },
        }
    }
    assert(spec_decode_header(s@) == Option::Some(
        (tag as nat, count as nat, p0 as int),
    ));
    assert(p0 <= s@.len()) by {
        if low == 63 {
            assert(spec_decode_compact(s@, 1) is Some);
        }
    }
    let (partial, p1) = match unpack_nibbles(s, p0, count) {
        Ok(x) => x,
        Err(e) => {
            return Err(e);
        },
    };
    if tag == 1 {
        match parse_value(s, p1) {
            Ok((value, p2)) => {
                if p2 == s.len() {
                    let n = Node::Leaf { partial, value };
                    Ok(n)
                } else {
                    Err(Error::BadFormat)
                }
            },
            Err(e) => Err(e),
        }
    } else {
        if s.len() - p1 < 2 {
            return Err(Error::BadFormat);
        }
        let bmv: u16 = s[p1] as u16 + 256 * (s[p1 + 1] as u16);
        assert(bmv as nat == s@[p1 as int] as nat + 256 * (s@[p1 as int + 1] as nat));
        match parse_children(s, p1 + 2, bmv, 0) {
            Ok((children, p2)) => {
                if tag == 3 {
                    match parse_value(s, p2) {
                        Ok((value, p3)) => {
                            if p3 == s.len() {
                                let n = Node::Branch {
                                    partial,
                                    children,
                                    value: Option::Some(value),
                                };
                                Ok(n)
                            } else {
                                Err(Error::BadFormat)
                            }
                        },
                        Err(e) => Err(e),
                    }
                } else {
                    if p2 == s.len() {
                        let n = Node::Branch { partial, children, value: Option::None };
                        Ok(n)
                    } else {
                        Err(Error::BadFormat)
                    }
                }
            },
            Err(e) => Err(e),
        }
    }
}


/// Two nibbles packed into one byte come back apart.
proof fn lemma_nib_split(a: u8, b: u8)
    requires
        a < 16,
        b < 16,
    ensures
        (a * 16 + b) / 16 == a,
        (a * 16 + b) % 16 == b,
{
    assert((a * 16 + b) / 16 == a && (a * 16 + b) % 16 == b) by (nonlinear_arith)
        requires
            a < 16,
            b < 16,
    ;
}

/// Wherever the header for `tag` and `count` sits at the front of a buffer,
/// the header decoder reads back exactly `tag` and `count`.
proof fn lemma_header_round_trip(s: Seq<u8>, tag: nat, count: nat)
    requires
        1 <= tag <= 3,
        count <= MAX_PARTIAL_NIBBLES,
        spec_header(tag, count).len() <= s.len(),
        s.subrange(0, spec_header(tag, count).len() as int) == spec_header(tag, count),
    ensures
        spec_decode_header(s) == Option::Some((tag, count, spec_header(tag, count).len() as int)),
        s[0] != 0,
{
    let h = spec_header(tag, count);
    assert(s[0] == h[0]) by {
        assert(s.subrange(0, h.len() as int)[0] == h[0]);
    }
    if count < 63 {
        assert(h[0] == (tag * 64 + count) as u8);
        let b0 = s[0] as nat;
        assert(b0 == tag * 64 + count);
        assert(b0 / 64 == tag && b0 % 64 == count) by (nonlinear_arith)
            requires
                b0 == tag * 64 + count,
                1 <= tag <= 3,
                count < 63,
        ;
    } else {
        assert(h[0] == (tag * 64 + 63) as u8);
        let b0 = s[0] as nat;
        assert(b0 == tag * 64 + 63);
        assert(b0 / 64 == tag && b0 % 64 == 63) by (nonlinear_arith)
            requires
                b0 == tag * 64 + 63,
                1 <= tag <= 3,
        ;
        let v = (count - 62) as nat;
        let c = spec_compact(v);
        assert(s.subrange(1, 1 + c.len() as int) == c) by {
            assert(s.subrange(1, 1 + c.len() as int) =~= s.subrange(0, h.len() as int).subrange(
                1,
                h.len() as int,
            ));
            assert(h.subrange(1, h.len() as int) =~= c);
        }
        crate::compact::lemma_compact_round_trip(s, 1, v);
        assert(v + 62 == count);
    }
}

/// Wherever the packed form of `p` sits at `pos`, the unpacker reads back
/// exactly `p`.
proof fn lemma_unpack_round_trip(s: Seq<u8>, pos: int, p: Seq<u8>)
    requires
        is_nibbles(p),
        p.len() <= MAX_PARTIAL_NIBBLES,
        0 <= pos,
        pos + spec_pack_nibbles(p).len() <= s.len(),
        s.subrange(pos, pos + spec_pack_nibbles(p).len() as int) == spec_pack_nibbles(p),
    ensures
        spec_unpack_nibbles(s, pos, p.len()) == Option::Some(
            (p, pos + spec_pack_nibbles(p).len() as int),
        ),
{
    let packed = spec_pack_nibbles(p);
    let count = p.len() as int;
    let nbytes = packed.len() as int;
    assert(nbytes == (count + 1) / 2);
    assert(forall|m: int| 0 <= m < nbytes ==> s[pos + m] == #[trigger] packed[m]) by {
        assert(forall|m: int|
            0 <= m < nbytes ==> s.subrange(pos, pos + nbytes)[m] == #[trigger] packed[m]);
    }
    if count % 2 == 1 {
        assert(packed[0] == p[0]);
        assert(p[0] < 16);
        assert(s[pos] / 16 == 0) by {
            assert(s[pos] == p[0]);
        }
    }
    let got = Seq::new(p.len(), |i: int| spec_nib_at(s, pos, i + (count % 2)));
    assert forall|i: int| 0 <= i < count implies got[i] == p[i] by {
        let pad = count % 2;
        let j = i + pad;
        if pad == 0 {
            if j % 2 == 0 {
                assert(packed[j / 2] == (p[2 * (j / 2)] * 16 + p[2 * (j / 2) + 1]) as u8);
                assert(2 * (j / 2) == i);
                lemma_nib_split(p[i], p[i + 1]);
            } else {
                assert(packed[j / 2] == (p[2 * (j / 2)] * 16 + p[2 * (j / 2) + 1]) as u8);
                assert(2 * (j / 2) + 1 == i);
                lemma_nib_split(p[i - 1], p[i]);
            }
        } else {
            if i == 0 {
                assert(packed[0] == p[0]);
                assert(got[0] == s[pos] % 16);
                assert(p[0] < 16);
            } else if j % 2 == 0 {
                assert(j / 2 >= 1);
                assert(packed[j / 2] == (p[2 * (j / 2 - 1) + 1] * 16 + p[2 * (j / 2 - 1)
                    + 2]) as u8);
                assert(2 * (j / 2 - 1) + 1 == i);
                lemma_nib_split(p[i], p[i + 1]);
            } else {
                assert(j / 2 >= 1);
                assert(packed[j / 2] == (p[2 * (j / 2 - 1) + 1] * 16 + p[2 * (j / 2 - 1)
                    + 2]) as u8);
                assert(2 * (j / 2 - 1) + 2 == i);
                lemma_nib_split(p[i - 1], p[i]);
            }
        }
    }
    assert(got =~= p);
}

/// Wherever a compact length prefix and `v` sit at `pos`, the value parser
/// reads back exactly `v`.
proof fn lemma_value_round_trip(s: Seq<u8>, pos: int, v: Seq<u8>)
    requires
        v.len() < 0x1_0000_0000,
        0 <= pos,
        pos + spec_compact(v.len()).len() + v.len() <= s.len(),
        s.subrange(pos, pos + spec_compact(v.len()).len() + v.len() as int) == spec_compact(
            v.len(),
        ) + v,
    ensures
        spec_parse_value(s, pos) == Option::Some(
            (v, pos + spec_compact(v.len()).len() + v.len() as int),
        ),
{
    let c = spec_compact(v.len());
    let whole = s.subrange(pos, pos + c.len() + v.len() as int);
    assert(s.subrange(pos, pos + c.len() as int) == c) by {
        assert(s.subrange(pos, pos + c.len() as int) =~= whole.subrange(0, c.len() as int));
        assert(whole.subrange(0, c.len() as int) =~= c);
    }
    crate::compact::lemma_compact_round_trip(s, pos, v.len());
    let p = pos + c.len() as int;
    assert(s.subrange(p, p + v.len() as int) == v) by {
        assert(s.subrange(p, p + v.len() as int) =~= whole.subrange(
            c.len() as int,
            c.len() + v.len() as int,
        ));
        assert(whole.subrange(c.len() as int, c.len() + v.len() as int) =~= v);
    }
}

/// Wherever the child list encoding from slot `k` up sits at `pos`, the
/// child parser driven by the matching bitmap reads back exactly those
/// slots.
proof fn lemma_children_round_trip(s: Seq<u8>, pos: int, children: Seq<Option<SpecChild>>, k: int)
    requires
        children.len() == 16,
        forall|i: int| 0 <= i < 16 ==> (#[trigger] children[i] matches Option::Some(c) ==> wf_child(c)),
        0 <= k <= 16,
        0 <= pos,
        pos + spec_children_enc(children, k).len() <= s.len(),
        s.subrange(pos, pos + spec_children_enc(children, k).len() as int) == spec_children_enc(
            children,
            k,
        ),
    ensures
        spec_parse_children(s, pos, spec_bitmap(children, k), k) == Option::Some(
            (children.subrange(k, 16), pos + spec_children_enc(children, k).len() as int),
        ),
    decreases 16 - k,
{
    if k >= 16 {
        assert(children.subrange(16, 16) =~= Seq::<Option<SpecChild>>::empty());
    } else {
        let bmv = spec_bitmap(children, k);
        let rest = spec_bitmap(children, k + 1);
        let ce = spec_child_enc(children[k]);
        let tail = spec_children_enc(children, k + 1);
        let whole = s.subrange(pos, pos + (ce.len() + tail.len()) as int);
        assert(spec_children_enc(children, k) == ce + tail);
        assert(s.subrange(pos + ce.len() as int, pos + ce.len() + tail.len() as int) == tail) by {
            assert(s.subrange(pos + ce.len() as int, pos + ce.len() + tail.len() as int) =~= whole
                .subrange(ce.len() as int, ce.len() + tail.len() as int));
            assert(whole.subrange(ce.len() as int, ce.len() + tail.len() as int) =~= tail);
        }
        match children[k] {
            Option::None => {
                assert(bmv == 2 * rest);
                assert(bmv % 2 == 0 && bmv / 2 == rest) by (nonlinear_arith)
                    requires
                        bmv == 2 * rest,
                ;
                assert(ce.len() == 0);
                assert(s.subrange(pos, pos + tail.len() as int) == tail) by {
                    assert(s.subrange(pos, pos + tail.len() as int) =~= whole);
                    assert(whole =~= tail);
                }
                lemma_children_round_trip(s, pos, children, k + 1);
                assert(seq![Option::<SpecChild>::None] + children.subrange(k + 1, 16)
                    =~= children.subrange(k, 16));
            },
            Option::Some(c) => {
                assert(bmv == 1 + 2 * rest);
                assert(bmv % 2 == 1 && bmv / 2 == rest) by (nonlinear_arith)
                    requires
                        bmv == 1 + 2 * rest,
                ;
                let payload = match c {
                    SpecChild::Inline(b) => b,
                    SpecChild::Digest(h) => h,
                };
                assert(ce == spec_compact(payload.len()) + payload);
                assert(payload.len() < 0x1_0000_0000) by {
                    assert(wf_child(c));
                }
                assert(s.subrange(pos, pos + spec_compact(payload.len()).len()
                    + payload.len() as int) == spec_compact(payload.len()) + payload) by {
                    assert(s.subrange(pos, pos + ce.len() as int) =~= whole.subrange(
                        0,
                        ce.len() as int,
                    ));
                    assert(whole.subrange(0, ce.len() as int) =~= ce);
                }
                lemma_value_round_trip(s, pos, payload);
                let p1 = pos + ce.len() as int;
                lemma_children_round_trip(s, p1, children, k + 1);
                let c2 = if payload.len() == DIGEST_LEN {
                    SpecChild::Digest(payload)
                } else {
                    SpecChild::Inline(payload)
                };
                assert(c2 == c) by {
                    assert(wf_child(c));
                }
                assert(seq![Option::Some(c)] + children.subrange(k + 1, 16) =~= children.subrange(
                    k,
                    16,
                ));
            },
        }
    }
}

/// Round trip for a leaf encoding.
#[verifier::rlimit(100)]
#[verifier::spinoff_prover]
proof fn lemma_leaf_round_trip(partial: Seq<u8>, value: Seq<u8>)
    requires
        wf_node(SpecNode::Leaf { partial, value }),
    ensures
        spec_decode_node(spec_encode_node(SpecNode::Leaf { partial, value }))
            == Option::Some(SpecNode::Leaf { partial, value }),
{
    let n = SpecNode::Leaf { partial, value };
    let s = spec_encode_node(n);
    let h = spec_header(1, partial.len());
    let pk = spec_pack_nibbles(partial);
    let c = spec_compact(value.len());
    assert(s == h + pk + c + value);
    assert(s.len() == h.len() + pk.len() + c.len() + value.len());
    assert(s.subrange(0, h.len() as int) =~= h);
    lemma_header_round_trip(s, 1, partial.len());
    let p0 = h.len() as int;
    assert(s.subrange(p0, p0 + pk.len() as int) =~= pk);
    lemma_unpack_round_trip(s, p0, partial);
    let p1 = p0 + pk.len() as int;
    assert(s.subrange(p1, p1 + c.len() + value.len() as int) =~= c + value);
    lemma_value_round_trip(s, p1, value);
    assert(p1 + c.len() + value.len() as int == s.len());
}

/// Round trip for a branch encoding.
#[verifier::rlimit(100)]
#[verifier::spinoff_prover]
proof fn lemma_branch_round_trip(
    partial: Seq<u8>,
    children: Seq<Option<SpecChild>>,
    value: Option<Seq<u8>>,
)
    requires
        wf_node(SpecNode::Branch { partial, children, value }),
    ensures
        spec_decode_node(spec_encode_node(SpecNode::Branch { partial, children, value }))
            == Option::Some(SpecNode::Branch { partial, children, value }),
{
    let n = SpecNode::Branch { partial, children, value };
    let s = spec_encode_node(n);
    let tag: nat = if value is Some {
        3
    } else {
        2
    };
    let h = spec_header(tag, partial.len());
    let pk = spec_pack_nibbles(partial);
    let bm = spec_bitmap(children, 0);
    let bmb = seq![(bm % 256) as u8, (bm / 256) as u8];
    let ce = spec_children_enc(children, 0);
    let vtail = match value {
        Option::Some(v) => spec_compact(v.len()) + v,
        Option::None => Seq::<u8>::empty(),
    };
    assert(s == h + pk + bmb + ce + vtail);
    assert(s.len() == h.len() + pk.len() + 2 + ce.len() + vtail.len());
    assert(s.subrange(0, h.len() as int) =~= h);
    lemma_header_round_trip(s, tag, partial.len());
    let p0 = h.len() as int;
    assert(s.subrange(p0, p0 + pk.len() as int) =~= pk);
    lemma_unpack_round_trip(s, p0, partial);
    let p1 = p0 + pk.len() as int;
    assert(s[p1] == (bm % 256) as u8 && s[p1 + 1] == (bm / 256) as u8);
    lemma_bitmap_bound(children, 0);
    let bmv = s[p1] as nat + 256 * (s[p1 + 1] as nat);
    assert(bmv == bm) by (nonlinear_arith)
        requires
            bmv == bm % 256 + 256 * (bm / 256),
            bm < 0x10000,
    ;
    let p2 = p1 + 2;
    assert(s.subrange(p2, p2 + ce.len() as int) =~= ce);
    lemma_children_round_trip(s, p2, children, 0);
    assert(children.subrange(0, 16) =~= children);
    let p3 = p2 + ce.len() as int;
    match value {
        Option::Some(v) => {
            assert(s.subrange(p3, p3 + spec_compact(v.len()).len() + v.len() as int)
                =~= spec_compact(v.len()) + v);
            lemma_value_round_trip(s, p3, v);
            assert(p3 + spec_compact(v.len()).len() + v.len() as int == s.len());
        },
        Option::None => {
            assert(p3 == s.len());
        },
    }
}

/// Round trip: decoding the encoding of any well-formed node gives that
/// node back; the wire form is unambiguous, so encoding is injective.
pub proof fn lemma_node_round_trip(n: SpecNode)
    requires
        wf_node(n),
    ensures
        spec_decode_node(spec_encode_node(n)) == Option::Some(n),
{
    match n {
        SpecNode::Empty => {
            assert(spec_encode_node(n) =~= seq![0u8]);
        },
        SpecNode::Leaf { partial, value } => {
            lemma_leaf_round_trip(partial, value);
        },
        SpecNode::Branch { partial, children, value } => {
            lemma_branch_round_trip(partial, children, value);
        },
    }
}

/// No two distinct well-formed nodes share an encoding.
pub proof fn lemma_encode_injective(n1: SpecNode, n2: SpecNode)
    requires
        wf_node(n1),
        wf_node(n2),
        spec_encode_node(n1) == spec_encode_node(n2),
    ensures
        n1 == n2,
{
    lemma_node_round_trip(n1);
    lemma_node_round_trip(n2);
}


/// Decides well-formedness of a node at run time, so that nodes read back
/// from untrusted bytes can be re-encoded.
#[verifier::loop_isolation(false)]
pub fn node_wf_check(n: &Node) -> (r: bool)
    ensures
        r == wf_node(n@),
{
    match n {
        Node::Empty => true,
        Node::Leaf { partial, value } => nibbles_check(partial) && partial.len()
            <= MAX_PARTIAL_NIBBLES && (value.len() as u64) < 0x1_0000_0000u64,
        Node::Branch { partial, children, value } => {
            if !(nibbles_check(partial) && partial.len() <= MAX_PARTIAL_NIBBLES) {
                return false;
            }
            if children.len() != 16 {
                return false;
            }
            let ghost cs = children@.map_values(|c: Option<ChildRef>| child_view(c));
            let mut k: usize = 0;
            while k < 16
                invariant
                    k <= 16,
                    children@.len() == 16,
                    cs == children@.map_values(|c: Option<ChildRef>| child_view(c)),
                    forall|i: int|
                        0 <= i < k ==> (#[trigger] cs[i] matches Option::Some(c) ==> wf_child(c)),
                decreases 16 - k,
            {
                let ghost csn = match n@ {
                    SpecNode::Branch { children: cc, .. } => cc,
                    _ => cs,
                };
                match &children[k] {
                    Option::None => {
                        assert(cs[k as int] is None);
                    },
                    Option::Some(ChildRef::Inline(b)) => {
                        assert(cs[k as int] == Option::Some(SpecChild::Inline(b@)));
                        if b.len() >= DIGEST_LEN {
                            proof {
                                assert(csn[k as int] == child_view(children@[k as int]));
                                assert(csn[k as int] matches Option::Some(c) && !wf_child(c));
                            }
                            return false;
                        }
                    },
                    Option::Some(ChildRef::Digest(h)) => {
                        assert(cs[k as int] == Option::Some(SpecChild::Digest(h@)));
                        if h.len() != DIGEST_LEN {
                            proof {
                                assert(csn[k as int] == child_view(children@[k as int]));
                                assert(csn[k as int] matches Option::Some(c) && !wf_child(c));
                            }
                            return false;
                        }
                    },
                }
                assert(cs[k as int] matches Option::Some(c) ==> wf_child(c));
                k = k + 1;
            }
            proof {
                let csn = match n@ {
                    SpecNode::Branch { children: cc, .. } => cc,
                    _ => cs,
                };
                assert forall|i: int|
                    0 <= i < 16 implies (#[trigger] csn[i] matches Option::Some(c) ==> wf_child(
                    c,
                )) by {
                    assert(csn[i] == child_view(children@[i]));
                    assert(cs[i] == child_view(children@[i]));
                }
            }
            match value {
                Option::Some(v) => (v.len() as u64) < 0x1_0000_0000u64,
                Option::None => true,
            }
        },
    }
}

/// Decides at run time that every element is a nibble.
pub fn nibbles_check(p: &Vec<u8>) -> (r: bool)
    ensures
        r == is_nibbles(p@),
{
    let mut i: usize = 0;
    while i < p.len()
        invariant
            i <= p.len(),
            forall|j: int| 0 <= j < i ==> p@[j] < 16,
        decreases p.len() - i,
    {
        if p[i] >= 16 {
            return false;
        }
        i = i + 1;
    }
    true
}
} // verus!

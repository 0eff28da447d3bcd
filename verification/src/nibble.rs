use vstd::prelude::*;

verus! {

/// The nibble path of a byte key: two nibbles per byte, high nibble first.
pub open spec fn nibbles_of(key: Seq<u8>) -> Seq<u8> {
    Seq::new(
        key.len() * 2,
        |i: int|
            if i % 2 == 0 {
                key[i / 2] / 16
            } else {
                key[i / 2] % 16
            },
    )
}

/// Every element is a nibble, a value below sixteen.
pub open spec fn is_nibbles(s: Seq<u8>) -> bool {
    forall|i: int| 0 <= i < s.len() ==> s[i] < 16
}

/// The byte string a nibble path of even length stands for.
pub open spec fn bytes_of_nibbles(s: Seq<u8>) -> Seq<u8>
    recommends
        s.len() % 2 == 0,
        is_nibbles(s),
{
    Seq::new(s.len() / 2, |i: int| (s[2 * i] * 16 + s[2 * i + 1]) as u8)
}

pub proof fn lemma_nibbles_of_is_nibbles(key: Seq<u8>)
    ensures
        is_nibbles(nibbles_of(key)),
{
}

/// A nibble path of even count round-trips to the original key.
pub proof fn lemma_nibbles_bytes_round_trip(key: Seq<u8>)
    ensures
        bytes_of_nibbles(nibbles_of(key)) == key,
{
    let n = nibbles_of(key);
    assert forall|i: int| 0 <= i < key.len() implies bytes_of_nibbles(n)[i] == key[i] by {
        assert(n[2 * i] == key[i] / 16);
        assert(n[2 * i + 1] == key[i] % 16);
    }
    assert(bytes_of_nibbles(n) =~= key);
}

/// Converts a byte key into its nibble path.
pub fn to_nibbles(key: &Vec<u8>) -> (r: Vec<u8>)
    ensures
        r@ == nibbles_of(key@),
{
    let mut r: Vec<u8> = Vec::new();
    let mut i: usize = 0;
    while i < key.len()
        invariant
            i <= key.len(),
            r@ == nibbles_of(key@).take(2 * i as int),
        decreases key.len() - i,
    {
        r.push(key[i] / 16);
        r.push(key[i] % 16);
        proof {
            assert(r@ =~= nibbles_of(key@).take(2 * (i + 1) as int));
        }
        i = i + 1;
    }
    proof {
        assert(nibbles_of(key@).take(2 * key@.len() as int) =~= nibbles_of(key@));
    }
    r
}

/// Packs a nibble path of even count back into bytes.
pub fn nibbles_to_bytes(s: &Vec<u8>) -> (r: Vec<u8>)
    requires
        s@.len() % 2 == 0,
        is_nibbles(s@),
    ensures
        r@ == bytes_of_nibbles(s@),
{
    let mut r: Vec<u8> = Vec::new();
    let mut i: usize = 0;
    while i + 1 < s.len()
        invariant
            s@.len() % 2 == 0,
            is_nibbles(s@),
            i % 2 == 0,
            i <= s.len(),
            r@ == bytes_of_nibbles(s@).take(i as int / 2),
        decreases s.len() - i,
    {
        assert(s@[i as int] < 16 && s@[i as int + 1] < 16);
        r.push(s[i] * 16 + s[i + 1]);
        proof {
            assert(r@ =~= bytes_of_nibbles(s@).take((i + 2) as int / 2));
        }
        i = i + 2;
    }
    proof {
        assert(i == s@.len());
        assert(bytes_of_nibbles(s@).take(s@.len() as int / 2) =~= bytes_of_nibbles(s@));
    }
    r
}

/// Strict lexicographic order on byte (or nibble) sequences, with a proper
/// prefix ordered before what extends it.
pub open spec fn lex_lt(a: Seq<u8>, b: Seq<u8>) -> bool
    decreases a.len(),
{
    if b.len() == 0 {
        false
    } else if a.len() == 0 {
        true
    } else if a[0] < b[0] {
        true
    } else if a[0] > b[0] {
        false
    } else {
        lex_lt(a.skip(1), b.skip(1))
    }
}

/// The length of the longest common prefix of two sequences.
pub open spec fn cpl(a: Seq<u8>, b: Seq<u8>) -> int
    decreases a.len(),
{
    if a.len() == 0 || b.len() == 0 || a[0] != b[0] {
        0
    } else {
        1 + cpl(a.skip(1), b.skip(1))
    }
}

pub proof fn lemma_cpl_props(a: Seq<u8>, b: Seq<u8>)
    ensures
        0 <= cpl(a, b) <= a.len(),
        cpl(a, b) <= b.len(),
        forall|i: int| 0 <= i < cpl(a, b) ==> a[i] == b[i],
        cpl(a, b) < a.len() && cpl(a, b) < b.len() ==> a[cpl(a, b)] != b[cpl(a, b)],
        cpl(a, b) == cpl(b, a),
    decreases a.len(),
{
    if a.len() == 0 || b.len() == 0 || a[0] != b[0] {
    } else {
        lemma_cpl_props(a.skip(1), b.skip(1));
        let c = cpl(a, b);
        assert forall|i: int| 0 <= i < c implies a[i] == b[i] by {
            if i > 0 {
                assert(a.skip(1)[i - 1] == b.skip(1)[i - 1]);
            }
        }
        if c < a.len() && c < b.len() {
            assert(a.skip(1)[c - 1] != b.skip(1)[c - 1]);
        }
    }
}

/// A common-prefix length is pinned down by pointwise agreement up to the
/// first disagreement or the end of either sequence.
pub proof fn lemma_cpl_from_char(a: Seq<u8>, b: Seq<u8>, n: int)
    requires
        0 <= n <= a.len(),
        n <= b.len(),
        forall|i: int| 0 <= i < n ==> a[i] == b[i],
        n == a.len() || n == b.len() || a[n] != b[n],
    ensures
        cpl(a, b) == n,
    decreases n,
{
    if n == 0 {
    } else {
        assert(a[0] == b[0]);
        assert forall|i: int| 0 <= i < n - 1 implies a.skip(1)[i] == b.skip(1)[i] by {
            assert(a[i + 1] == b[i + 1]);
        }
        if n < a.len() && n < b.len() {
            assert(a.skip(1)[n - 1] != b.skip(1)[n - 1]);
        }
        lemma_cpl_from_char(a.skip(1), b.skip(1), n - 1);
    }
}





/// The exec computation of the common prefix length of two nibble paths,
/// both taken from `from` on.
pub fn common_prefix_from(a: &Vec<u8>, b: &Vec<u8>, from: usize) -> (r: usize)
    requires
        from <= a@.len(),
        from <= b@.len(),
    ensures
        r as int == cpl(a@.skip(from as int), b@.skip(from as int)),
        from + r <= a@.len(),
        from + r <= b@.len(),
{
    let ghost sa = a@.skip(from as int);
    let ghost sb = b@.skip(from as int);
    let alen: usize = a.len();
    let blen: usize = b.len();
    let mut i: usize = 0;
    while from + i < alen && from + i < blen && a[from + i] == b[from + i]
        invariant
            alen == a@.len(),
            blen == b@.len(),
            from <= a@.len(),
            from <= b@.len(),
            from + i <= alen,
            from + i <= blen,
            sa == a@.skip(from as int),
            sb == b@.skip(from as int),
            forall|j: int| 0 <= j < i ==> sa[j] == sb[j],
        decreases a.len() - from - i,
    {
        assert(sa[i as int] == a@[from + i as int] && sb[i as int] == b@[from + i as int]);
        i = i + 1;
    }
    proof {
        if from + i < a@.len() && from + i < b@.len() {
            assert(sa[i as int] == a@[from + i as int] && sb[i as int] == b@[from + i as int]);
        }
        lemma_cpl_from_char(sa, sb, i as int);
    }
    i
}

/// Copies the range `[from, to)` of a byte vector.
pub fn vec_range(v: &Vec<u8>, from: usize, to: usize) -> (r: Vec<u8>)
    requires
        from <= to <= v@.len(),
    ensures
        r@ == v@.subrange(from as int, to as int),
{
    let mut r: Vec<u8> = Vec::new();
    let mut i: usize = from;
    while i < to
        invariant
            from <= i <= to <= v@.len(),
            r@ == v@.subrange(from as int, i as int),
        decreases to - i,
    {
        r.push(v[i]);
        assert(r@ =~= v@.subrange(from as int, i as int + 1));
        i = i + 1;
    }
    r
}


pub proof fn lemma_lex_irrefl(a: Seq<u8>)
    ensures
        !lex_lt(a, a),
    decreases a.len(),
{
    if a.len() > 0 {
        lemma_lex_irrefl(a.skip(1));
    }
}

pub proof fn lemma_lex_asym(a: Seq<u8>, b: Seq<u8>)
    requires
        lex_lt(a, b),
    ensures
        !lex_lt(b, a),
    decreases a.len(),
{
    if b.len() == 0 {
    } else if a.len() == 0 {
    } else if a[0] < b[0] {
    } else if a[0] > b[0] {
    } else {
        lemma_lex_asym(a.skip(1), b.skip(1));
    }
}

pub proof fn lemma_lex_trans(a: Seq<u8>, b: Seq<u8>, c: Seq<u8>)
    requires
        lex_lt(a, b),
        lex_lt(b, c),
    ensures
        lex_lt(a, c),
    decreases a.len(),
{
    if a.len() == 0 {
        assert(b.len() > 0);
        assert(c.len() > 0);
    } else if b.len() == 0 || c.len() == 0 {
    } else {
        if a[0] == b[0] && b[0] == c[0] {
            lemma_lex_trans(a.skip(1), b.skip(1), c.skip(1));
        }
    }
}

} // verus!

use vstd::prelude::*;

verus! {

/// Compares two byte vectors for equality.
pub fn bytes_eq(a: &Vec<u8>, b: &Vec<u8>) -> (r: bool)
    ensures
        r <==> a@ == b@,
{
    if a.len() != b.len() {
        assert(a@ != b@);
        return false;
    }
    let mut i: usize = 0;
    while i < a.len()
        invariant
            a@.len() == b@.len(),
            i <= a.len(),
            forall|j: int| 0 <= j < i ==> a@[j] == b@[j],
        decreases a.len() - i,
    {
        if a[i] != b[i] {
            return false;
        }
        i = i + 1;
    }
    proof {
        assert(a@ =~= b@);
    }
    true
}

/// A content-addressed node store: encoded nodes listed under their
/// digests. It stands in for the backing key/value store; a lookup walks
/// the entries in order and equal digests always carry equal content.
pub struct NodeStore {
    entries: Vec<(Vec<u8>, Vec<u8>)>,
}

impl NodeStore {
    /// The entries as (digest, bytes) pairs, oldest first.
    pub closed spec fn view(&self) -> Seq<(Seq<u8>, Seq<u8>)> {
        self.entries@.map_values(|e: (Vec<u8>, Vec<u8>)| (e.0@, e.1@))
    }

    pub open spec fn contains_digest(&self, d: Seq<u8>) -> bool {
        exists|i: int| 0 <= i < self@.len() && (#[trigger] self@[i]).0 == d
    }

    /// The content filed under the first entry from `i` on whose digest
    /// is `d`, if any.
    pub open spec fn spec_get_from(s: Seq<(Seq<u8>, Seq<u8>)>, d: Seq<u8>, i: int) -> Option<
        Seq<u8>,
    >
        decreases s.len() - i,
    {
        if i < 0 || i >= s.len() {
            Option::None
        } else if s[i].0 == d {
            Option::Some(s[i].1)
        } else {
            Self::spec_get_from(s, d, i + 1)
        }
    }

    /// What a lookup returns: the first entry filed under `d`.
    pub open spec fn spec_get(s: Seq<(Seq<u8>, Seq<u8>)>, d: Seq<u8>) -> Option<Seq<u8>> {
        Self::spec_get_from(s, d, 0)
    }

    /// A lookup finds nothing exactly when no entry carries the digest.
    pub proof fn lemma_spec_get_none(s: Seq<(Seq<u8>, Seq<u8>)>, d: Seq<u8>, i: int)
        requires
            0 <= i <= s.len(),
        ensures
            Self::spec_get_from(s, d, i) is None <==> (forall|j: int|
                i <= j < s.len() ==> (#[trigger] s[j]).0 != d),
        decreases s.len() - i,
    {
        if i < s.len() {
            Self::lemma_spec_get_none(s, d, i + 1);
        }
    }

    pub fn new() -> (r: NodeStore)
        ensures
            r@ == Seq::<(Seq<u8>, Seq<u8>)>::empty(),
    {
        let r = NodeStore { entries: Vec::new() };
        proof {
            assert(r@ =~= Seq::<(Seq<u8>, Seq<u8>)>::empty());
        }
        r
    }

    /// Files `bytes` under `digest`.
    pub fn insert(&mut self, digest: Vec<u8>, bytes: Vec<u8>)
        ensures
            final(self)@ == old(self)@.push((digest@, bytes@)),
    {
        let ghost before = self@;
        self.entries.push((digest, bytes));
        proof {
            assert(self@ =~= before.push((self.entries@.last().0@, self.entries@.last().1@)));
        }
    }

    /// Looks a digest up, returning a copy of the first entry filed under
    /// it, or nothing when no entry is.
    pub fn get(&self, digest: &Vec<u8>) -> (r: Option<Vec<u8>>)
        ensures
            match r {
                Option::Some(b) => Self::spec_get(self@, digest@) == Option::Some(b@) && exists|
                    i: int,
                |
                    0 <= i < self@.len() && #[trigger] self@[i] == (digest@, b@),
                Option::None => Self::spec_get(self@, digest@) is None && !self.contains_digest(
                    digest@,
                ),
            },
    {
        let mut i: usize = 0;
        while i < self.entries.len()
            invariant
                forall|j: int| 0 <= j < i ==> (#[trigger] self@[j]).0 != digest@,
                Self::spec_get(self@, digest@) == Self::spec_get_from(self@, digest@, i as int),
                i <= self.entries.len(),
            decreases self.entries.len() - i,
        {
            if bytes_eq(&self.entries[i].0, digest) {
                let mut out: Vec<u8> = Vec::new();
                crate::node::append_bytes(&mut out, &self.entries[i].1);
                proof {
                    assert(self@[i as int] == (digest@, out@));
                }
                return Option::Some(out);
            }
            i = i + 1;
        }
        Option::None
    }

    /// The number of entries.
    pub fn len(&self) -> (r: usize)
        ensures
            r == self@.len(),
    {
        self.entries.len()
    }
}

} // verus!

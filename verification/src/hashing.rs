use vstd::prelude::*;

verus! {

/// The digest the hash capability assigns to a byte sequence.
pub uninterp spec fn blake2_256_of(data: Seq<u8>) -> Seq<u8>;

/// Relies on blake2_rfc::blake2b::blake2b, called with a 32-byte output
/// length and no key: the digest is 32 bytes and depends on the input
/// bytes alone.
#[verifier::external_body]
pub fn blake2_256(data: &Vec<u8>) -> (r: Vec<u8>)
    ensures
        r@ == blake2_256_of(data@),
        r@.len() == 32,
{
    blake2_rfc::blake2b::blake2b(32, &[], data.as_slice()).as_bytes().to_vec()
}

/// Copies a digest value into a fresh byte vector.
pub fn convert_hash(src: &Vec<u8>) -> (r: Vec<u8>)
    ensures
        r@ == src@,
{
    let mut dest: Vec<u8> = Vec::new();
    let mut i: usize = 0;
    while i < src.len()
        invariant
            i <= src.len(),
            dest@ == src@.take(i as int),
        decreases src.len() - i,
    {
        dest.push(src[i]);
        i = i + 1;
    }
    proof {
        assert(src@.take(src@.len() as int) == src@);
    }
    dest
}

} // verus!

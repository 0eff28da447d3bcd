use vstd::prelude::*;
use crate::compact::CompactError;

verus! {

/// Error for trie node decoding.
#[derive(Debug, PartialEq, Eq, Structural)]
pub enum Error {
    /// Bad format: a malformed header, truncated buffer, or an invalid
    /// bitmap or length combination.
    BadFormat,
    /// Decoding error in a nested length-prefixed sub-value.
    Decode(CompactError),
}

} // verus!

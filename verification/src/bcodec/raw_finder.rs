//! Finder of raw dictionary values in bencoded bytes.

use vstd::prelude::*;

verus! {

/// Dictionary value (raw format) finder in a
/// [bencoded](https://en.wikipedia.org/wiki/Bencode) string.
pub trait RawFinder {
    /// Finds the first value for a key in a bencoded string with dictionaries.
    /// The value is returned in raw format.
    fn find_first(key: &str, arg: &[u8]) -> Option<Vec<u8>>;
}

} // verus!

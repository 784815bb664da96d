//! Peer ID utilities.

use vstd::prelude::*;

use crate::constants::PEER_ID_SIZE;
use crate::random::{alphanumeric_chars, is_alphanumeric};

verus! {

/// Whether a byte is an ASCII letter or digit.
pub open spec fn is_alphanumeric_byte(b: u8) -> bool {
    (97 <= b && b <= 122) || (65 <= b && b <= 90) || (48 <= b && b <= 57)
}

/// Generates a random peer ID of ASCII letters and digits.
pub fn generate() -> (r: [u8; PEER_ID_SIZE])
    ensures
        forall|i: int| 0 <= i < PEER_ID_SIZE ==> is_alphanumeric_byte(#[trigger] r@[i]),
{
    let chars = alphanumeric_chars(PEER_ID_SIZE);
    let mut peer_id: [u8; PEER_ID_SIZE] = [0; PEER_ID_SIZE];
    let mut idx: usize = 0;
    while idx < PEER_ID_SIZE
        invariant
            chars@.len() == PEER_ID_SIZE,
            forall|i: int| 0 <= i < PEER_ID_SIZE ==> is_alphanumeric(#[trigger] chars@[i]),
            idx <= PEER_ID_SIZE,
            peer_id@.len() == PEER_ID_SIZE,
            forall|i: int| 0 <= i < idx ==> is_alphanumeric_byte(#[trigger] peer_id@[i]),
        decreases PEER_ID_SIZE - idx,
    {
        let c = chars[idx];
        assert(is_alphanumeric(chars@[idx as int]));
        peer_id[idx] = c as u8;
        idx = idx + 1;
    }
    peer_id
}

} // verus!

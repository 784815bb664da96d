//! The random choices of the session, made by the `rand` crate.

use rand::distributions::Alphanumeric;
use rand::seq::SliceRandom;
use rand::Rng;
use vstd::prelude::*;

verus! {

/// Whether a character is an ASCII letter or digit.
pub open spec fn is_alphanumeric(c: char) -> bool {
    ('a' <= c && c <= 'z') || ('A' <= c && c <= 'Z') || ('0' <= c && c <= '9')
}

/// Puts the pairs in a random order.
///
/// Trusted: calls `SliceRandom::shuffle` of the `rand` crate with the
/// thread's generator; the contract states only that the result is a
/// permutation of the input, which holds of every outcome.
#[verifier::external_body]
pub(crate) fn shuffle_pairs(v: &mut Vec<(usize, usize)>)
    ensures
        final(v)@.to_multiset() == old(v)@.to_multiset(),
{
    v.shuffle(&mut rand::thread_rng());
}

/// One of the addresses, picked at random.
///
/// Trusted: calls `SliceRandom::choose` of the `rand` crate with the
/// thread's generator and clones the pick; the contract states what holds
/// of every outcome: nothing for an empty list, else one of its elements.
#[verifier::external_body]
pub(crate) fn choose_addr(v: &Vec<String>) -> (r: Option<String>)
    ensures
        r is None <==> v@.len() == 0,
        r matches Some(s) ==> exists|i: int| 0 <= i < v@.len() && v@[i]@ == s@,
{
    v.choose(&mut rand::thread_rng()).cloned()
}

/// `n` random ASCII letters and digits.
///
/// Trusted: samples the `Alphanumeric` distribution of the `rand` crate
/// with the thread's generator; the contract states what holds of every
/// outcome: `n` characters, each a letter or a digit.
#[verifier::external_body]
pub(crate) fn alphanumeric_chars(n: usize) -> (r: Vec<char>)
    ensures
        r@.len() == n,
        forall|i: int| 0 <= i < n ==> is_alphanumeric(#[trigger] r@[i]),
{
    rand::thread_rng().sample_iter(&Alphanumeric).take(n).collect()
}

} // verus!

//! The messages of the peer wire protocol, and the big-endian integers they
//! are made of.

pub mod bitfield;
pub mod cancel;
pub mod choke;
pub mod handshake;
pub mod have;
pub mod interested;
pub mod keep_alive;
pub mod not_interested;
pub mod piece;
pub mod request;
pub mod unchoke;

pub use bitfield::Bitfield;
pub use cancel::Cancel;
pub use choke::Choke;
pub use handshake::Handshake;
pub use have::Have;
pub use interested::Interested;
pub use keep_alive::KeepAlive;
pub use not_interested::NotInterested;
pub use piece::Piece;
pub use request::Request;
pub use unchoke::Unchoke;

use vstd::prelude::*;

verus! {

/// The four bytes of a 32-bit integer, most significant first.
pub open spec fn be32(n: u32) -> Seq<u8> {
    seq![
        (n / 0x100_0000) as u8,
        ((n / 0x1_0000) % 0x100) as u8,
        ((n / 0x100) % 0x100) as u8,
        (n % 0x100) as u8,
    ]
}

/// The 32-bit big-endian integer that starts at `i`.
pub open spec fn be32_at(s: Seq<u8>, i: int) -> int {
    s[i] * 0x100_0000 + s[i + 1] * 0x1_0000 + s[i + 2] * 0x100 + s[i + 3]
}

/// Reading back the bytes of an integer gives the integer.
pub proof fn lemma_be32(n: u32)
    ensures
        be32_at(be32(n), 0) == n,
        be32(n).len() == 4,
{
    let b = be32(n);
    assert(b[0] == n / 0x100_0000);
    assert(b[1] == (n / 0x1_0000) % 0x100);
    assert(b[2] == (n / 0x100) % 0x100);
    assert(b[3] == n % 0x100);
    assert(n == (n / 0x100_0000) * 0x100_0000 + ((n / 0x1_0000) % 0x100) * 0x1_0000 + ((n
        / 0x100) % 0x100) * 0x100 + n % 0x100) by (nonlinear_arith);
}

/// Appends an integer in big-endian order.
pub fn push_u32(v: &mut Vec<u8>, n: u32)
    ensures
        final(v)@ == old(v)@ + be32(n),
{
    v.push((n / 0x100_0000) as u8);
    v.push(((n / 0x1_0000) % 0x100) as u8);
    v.push(((n / 0x100) % 0x100) as u8);
    v.push((n % 0x100) as u8);
    assert(final(v)@ =~= old(v)@ + be32(n));
}

/// Reads the big-endian integer that starts at `i`.
pub fn read_u32(b: &[u8], i: usize) -> (r: u32)
    requires
        i + 4 <= b@.len(),
    ensures
        r == be32_at(b@, i as int),
{
    (b[i] as u32) * 0x100_0000 + (b[i + 1] as u32) * 0x1_0000 + (b[i + 2] as u32) * 0x100 + (b[i
        + 3] as u32)
}

/// Appends the bytes of a slice.
pub fn push_all(v: &mut Vec<u8>, b: &[u8])
    ensures
        final(v)@ == old(v)@ + b@,
{
    let mut i: usize = 0;
    while i < b.len()
        invariant
            i <= b@.len(),
            v@ == old(v)@ + b@.subrange(0, i as int),
        decreases b@.len() - i,
    {
        v.push(b[i]);
        i = i + 1;
        assert(v@ =~= old(v)@ + b@.subrange(0, i as int));
    }
    assert(b@.subrange(0, b@.len() as int) =~= b@);
}

} // verus!

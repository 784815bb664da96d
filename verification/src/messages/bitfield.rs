use vstd::prelude::*;

use crate::error::{is_incomplete, is_invalid_length, Error};
use crate::messages::{be32, push_all, push_u32};
use crate::serializer::Serializer;
use crate::text::text;

verus! {

/// The bitfield message: which pieces the sender has, one bit per piece,
/// the highest bit of the first byte for the first piece.
#[derive(Debug)]
pub struct Bitfield {
    pub pieces_bytes: Vec<u8>,
    pub pieces_num: usize,
}

/// Whether bit `j` of a byte is set, counting from the highest bit.
pub open spec fn byte_bit(b: u8, j: int) -> bool {
    b & (0x80u8 >> (j as u8)) != 0
}

/// Bit `i` of a sequence of bytes, counting from the highest bit of the
/// first byte.
pub open spec fn bit_at(bytes: Seq<u8>, i: int) -> bool {
    byte_bit(bytes[i / 8], i % 8)
}

/// The number of bytes that hold `n` bits.
pub open spec fn bytes_for(n: int) -> int {
    if n % 8 == 0 {
        n / 8
    } else {
        n / 8 + 1
    }
}

/// Whether `bytes` hold the flags `flags`, one bit per flag, the unused
/// bits of the last byte clear.
pub open spec fn packs(bytes: Seq<u8>, flags: Seq<bool>) -> bool {
    &&& bytes.len() == bytes_for(flags.len() as int)
    &&& forall|i: int| 0 <= i < flags.len() ==> bit_at(bytes, i) == flags[i]
    &&& forall|i: int| flags.len() <= i < 8 * bytes.len() ==> !bit_at(bytes, i)
}

/// The number of pieces that `to_vec` reads: `pieces_num`, unless it is
/// zero or more than the bytes hold, in which case every bit.
pub open spec fn read_len(pieces_num: int, bytes_len: int) -> int {
    if 0 < pieces_num <= 8 * bytes_len {
        pieces_num
    } else {
        8 * bytes_len
    }
}

proof fn lemma_set_bit(b: u8, idx: u8, j: u8)
    by (bit_vector)
    requires
        idx < 8,
        j < 8,
    ensures
        ((b | (0x80u8 >> idx)) & (0x80u8 >> j) != 0) == ((b & (0x80u8 >> j) != 0) || j == idx),
{
}

proof fn lemma_zero_bit(j: u8)
    by (bit_vector)
    requires
        j < 8,
    ensures
        (0u8 & (0x80u8 >> j)) == 0,
{
}

proof fn lemma_div_mod8(i: int, k: int, j: int)
    requires
        0 <= j < 8,
        i == 8 * k + j,
        k >= 0,
    ensures
        i / 8 == k,
        i % 8 == j,
{
}

/// The flags that `from_vec` packs are read back by `to_vec`, all of them
/// and no more, and the packed bitfield has the size that `validate` asks
/// for.
pub proof fn lemma_pack_unpack(bytes: Seq<u8>, flags: Seq<bool>)
    requires
        packs(bytes, flags),
    ensures
        read_len(flags.len() as int, bytes.len() as int) == flags.len(),
        forall|i: int| 0 <= i < flags.len() ==> bit_at(bytes, i) == flags[i],
        bytes.len() == bytes_for(flags.len() as int),
{
    let n = flags.len() as int;
    assert(n <= 8 * bytes_for(n)) by (nonlinear_arith)
        requires
            n >= 0,
            bytes_for(n) == (if n % 8 == 0 {
                n / 8
            } else {
                n / 8 + 1
            }),
    ;
}

impl Bitfield {
    pub const ID: u8 = 5;

    /// Packs one flag per piece into bytes, eight pieces a byte.
    pub fn from_vec(pieces: &Vec<bool>) -> (r: Bitfield)
        ensures
            r.pieces_num == pieces@.len(),
            packs(r.pieces_bytes@, pieces@),
    {
        let n = pieces.len();
        let mut pieces_bytes: Vec<u8> = Vec::new();
        let mut start: usize = 0;
        while start < n
            invariant
                n == pieces@.len(),
                start <= n,
                start < n ==> start == 8 * pieces_bytes@.len(),
                start == n ==> n <= 8 * pieces_bytes@.len() <= n + 7,
                forall|i: int|
                    0 <= i < 8 * pieces_bytes@.len() ==> #[trigger] bit_at(pieces_bytes@, i) == (i
                        < n && pieces@[i]),
            decreases n + 8 - start,
        {
            let mut byte: u8 = 0;
            let mut idx: usize = 0;
            proof {
                assert forall|j: int| 0 <= j < 8 implies !#[trigger] byte_bit(byte, j) by {
                    lemma_zero_bit(j as u8);
                }
            }
            while idx < 8 && idx < n - start
                invariant
                    n == pieces@.len(),
                    start < n,
                    idx <= 8,
                    idx <= n - start,
                    forall|j: int|
                        0 <= j < 8 ==> #[trigger] byte_bit(byte, j) == (j < idx && pieces@[start
                            + j]),
                decreases 8 - idx,
            {
                let ghost old_byte = byte;
                if pieces[start + idx] {
                    byte = byte | (0x80u8 >> (idx as u8));
                    proof {
                        assert forall|j: int| 0 <= j < 8 implies #[trigger] byte_bit(byte, j) == (j
                            < idx + 1 && pieces@[start + j]) by {
                            assert(byte_bit(old_byte, j) == (j < idx && pieces@[start + j]));
                            lemma_set_bit(old_byte, idx as u8, j as u8);
                        }
                    }
                } else {
                    assert forall|j: int| 0 <= j < 8 implies #[trigger] byte_bit(byte, j) == (j
                        < idx + 1 && pieces@[start + j]) by {
                        assert(byte_bit(old_byte, j) == (j < idx && pieces@[start + j]));
                    }
                }
                idx = idx + 1;
            }
            let ghost k = pieces_bytes@.len() as int;
            let ghost old_bytes = pieces_bytes@;
            pieces_bytes.push(byte);
            proof {
                assert forall|i: int|
                    0 <= i < 8 * pieces_bytes@.len() implies #[trigger] bit_at(pieces_bytes@, i) == (i
                    < n && pieces@[i]) by {
                    if i < 8 * k {
                        assert(pieces_bytes@[i / 8] == old_bytes[i / 8]);
                        assert(bit_at(old_bytes, i) == (i < n && pieces@[i]));
                    } else {
                        assert(start == 8 * k);
                        assert(idx == 8 || idx == n - start);
                        lemma_div_mod8(i, k, i - 8 * k);
                        assert(byte_bit(byte, i - 8 * k) == (i - 8 * k < idx && pieces@[start + (i
                            - 8 * k)]));
                    }
                }
            }
            if n - start > 8 {
                start = start + 8;
            } else {
                start = n;
            }
        }
        assert(pieces_bytes@.len() == bytes_for(n as int)) by (nonlinear_arith)
            requires
                n <= 8 * pieces_bytes@.len() <= n + 7,
        ;
        Bitfield { pieces_bytes, pieces_num: n }
    }

    /// Reads the message from a frame that ends at `position`; the
    /// torrent's number of pieces is given.
    pub fn from(buffer: &[u8], position: usize, pieces_num: usize) -> (r: Bitfield)
        requires
            5 <= position <= buffer@.len(),
        ensures
            r.pieces_bytes@ == buffer@.subrange(5, position as int),
            r.pieces_num == pieces_num,
    {
        Bitfield {
            pieces_bytes: crate::bcodec::bdecoder::sub_vec(buffer, 5, position),
            pieces_num,
        }
    }

    /// One flag per piece, read from the bits in order.
    pub fn to_vec(&self) -> (r: Vec<bool>)
        ensures
            r@.len() == read_len(self.pieces_num as int, self.pieces_bytes@.len() as int),
            forall|i: int| 0 <= i < r@.len() ==> r@[i] == bit_at(self.pieces_bytes@, i),
    {
        let mut pieces: Vec<bool> = Vec::new();
        let mut k: usize = 0;
        while k < self.pieces_bytes.len()
            invariant
                pieces@.len() == 8 * k,
                k <= self.pieces_bytes@.len(),
                self.pieces_num == 0 || self.pieces_num > pieces@.len(),
                forall|i: int| 0 <= i < pieces@.len() ==> pieces@[i] == bit_at(self.pieces_bytes@, i),
            decreases self.pieces_bytes@.len() - k,
        {
            let b = self.pieces_bytes[k];
            let mut j: u8 = 0;
            while j < 8
                invariant
                    j <= 8,
                    k < self.pieces_bytes@.len(),
                    b == self.pieces_bytes@[k as int],
                    pieces@.len() == 8 * k + j,
                    self.pieces_num == 0 || self.pieces_num > pieces@.len(),
                    forall|i: int|
                        0 <= i < pieces@.len() ==> pieces@[i] == bit_at(self.pieces_bytes@, i),
                decreases 8 - j,
            {
                proof {
                    lemma_div_mod8(8 * k + j, k as int, j as int);
                }
                pieces.push(b & (0x80u8 >> j) != 0);
                if pieces.len() == self.pieces_num {
                    return pieces;
                }
                j = j + 1;
            }
            k = k + 1;
        }
        pieces
    }

    /// The size of the frame, where all of it is available.
    pub fn check(available_data: usize, length: usize) -> (r: Result<usize, Error>)
        ensures
            available_data >= 4 + length ==> r == Ok::<usize, Error>((4 + length) as usize),
            available_data < 4 + length ==> r is Err && is_incomplete(r->Err_0, "Bitfield"@),
    {
        if available_data >= 4 && available_data - 4 >= length {
            Ok(4 + length)
        } else {
            Err(Error::Incomplete(text("Bitfield")))
        }
    }

    /// Checks that there are as many bytes as the pieces need.
    pub fn validate(&self) -> (r: Result<(), Error>)
        ensures
            self.pieces_bytes@.len() == bytes_for(self.pieces_num as int) ==> r is Ok,
            self.pieces_bytes@.len() != bytes_for(self.pieces_num as int) ==> r is Err
                && is_invalid_length(r->Err_0, "Bitfield"@),
    {
        let byte_num = if self.pieces_num % 8 == 0 {
            self.pieces_num / 8
        } else {
            self.pieces_num / 8 + 1
        };
        if self.pieces_bytes.len() == byte_num {
            Ok(())
        } else {
            Err(Error::InvalidLength(text("Bitfield")))
        }
    }
}

impl Serializer for Bitfield {
    open spec fn wire(&self) -> Seq<u8> {
        be32((1 + self.pieces_bytes@.len()) as u32) + seq![5u8] + self.pieces_bytes@
    }

    fn data(&self) -> (r: Vec<u8>) {
        let mut v: Vec<u8> = Vec::new();
        push_u32(&mut v, (1u128 + self.pieces_bytes.len() as u128) as u32);
        v.push(Bitfield::ID);
        push_all(&mut v, self.pieces_bytes.as_slice());
        v
    }
}

} // verus!

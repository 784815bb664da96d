use vstd::prelude::*;

use crate::error::{is_incomplete, is_invalid_length, is_invalid_piece_index, Error};
use crate::messages::{be32, be32_at, push_all, push_u32, read_u32};
use crate::serializer::Serializer;
use crate::text::text;

verus! {

/// The piece message: a block of a piece.
#[derive(Debug)]
pub struct Piece {
    pub piece_index: u32,
    pub block_begin: u32,
    pub block: Vec<u8>,
}

impl Piece {
    pub const ID: u8 = 7;
    pub const MIN_LEN: usize = 9;

    pub fn new(piece_index: usize, block_begin: usize, block: Vec<u8>) -> (r: Piece)
        ensures
            r.piece_index == piece_index as u32,
            r.block_begin == block_begin as u32,
            r.block@ == block@,
    {
        Piece { piece_index: piece_index as u32, block_begin: block_begin as u32, block }
    }

    /// Reads the message from a frame that ends at `position`.
    pub fn from(buffer: &[u8], position: usize) -> (r: Piece)
        requires
            13 <= position <= buffer@.len(),
        ensures
            r.piece_index == be32_at(buffer@, 5),
            r.block_begin == be32_at(buffer@, 9),
            r.block@ == buffer@.subrange(13, position as int),
    {
        Piece {
            piece_index: read_u32(buffer, 5),
            block_begin: read_u32(buffer, 9),
            block: crate::bcodec::bdecoder::sub_vec(buffer, 13, position),
        }
    }

    /// The size of the frame, where `length` is at least that of an empty
    /// piece message and the whole frame is available.
    pub fn check(available_data: usize, length: usize) -> (r: Result<usize, Error>)
        ensures
            (length >= 9 && available_data >= 4 + length) ==> r == Ok::<usize, Error>(
                (4 + length) as usize,
            ),
            !(length >= 9 && available_data >= 4 + length) ==> r is Err && is_incomplete(
                r->Err_0,
                "Piece"@,
            ),
    {
        if length >= Piece::MIN_LEN && available_data >= 4 && available_data - 4 >= length {
            Ok(4 + length)
        } else {
            Err(Error::Incomplete(text("Piece")))
        }
    }

    pub fn piece_index(&self) -> (r: usize)
        ensures
            r == self.piece_index,
    {
        self.piece_index as usize
    }

    pub fn block_begin(&self) -> (r: usize)
        ensures
            r == self.block_begin,
    {
        self.block_begin as usize
    }

    pub fn block_length(&self) -> (r: usize)
        ensures
            r == self.block@.len(),
    {
        self.block.len()
    }

    pub fn block(&self) -> (r: &Vec<u8>)
        ensures
            r@ == self.block@,
    {
        &self.block
    }

    /// Checks that the block is the one that was requested.
    pub fn validate(&self, piece_index: usize, block_begin: usize, block_length: usize) -> (r:
        Result<(), Error>)
        ensures
            (self.piece_index != piece_index || self.block_begin != block_begin) ==> (r is Err
                && is_invalid_piece_index(r->Err_0, "Piece"@)),
            (self.piece_index == piece_index && self.block_begin == block_begin
                && self.block@.len() != block_length) ==> (r is Err && is_invalid_length(
                r->Err_0,
                "Piece"@,
            )),
            (self.piece_index == piece_index && self.block_begin == block_begin
                && self.block@.len() == block_length) ==> r is Ok,
    {
        if self.piece_index as usize != piece_index {
            return Err(Error::InvalidPieceIndex(text("Piece")));
        }
        if self.block_begin as usize != block_begin {
            return Err(Error::InvalidPieceIndex(text("Piece")));
        }
        if self.block.len() != block_length {
            return Err(Error::InvalidLength(text("Piece")));
        }
        Ok(())
    }
}

impl Serializer for Piece {
    open spec fn wire(&self) -> Seq<u8> {
        be32((9 + self.block@.len()) as u32) + seq![7u8] + be32(self.piece_index) + be32(
            self.block_begin,
        ) + self.block@
    }

    fn data(&self) -> (r: Vec<u8>) {
        let mut v: Vec<u8> = Vec::new();
        push_u32(&mut v, (9u128 + self.block.len() as u128) as u32);
        v.push(Piece::ID);
        push_u32(&mut v, self.piece_index);
        push_u32(&mut v, self.block_begin);
        push_all(&mut v, self.block.as_slice());
        v
    }
}

} // verus!

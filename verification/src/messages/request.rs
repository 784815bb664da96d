use vstd::prelude::*;

use crate::constants::PIECE_BLOCK_SIZE;
use crate::error::{is_incomplete, is_invalid_length, is_invalid_piece_index, Error};
use crate::messages::{be32, be32_at, push_u32, read_u32};
use crate::serializer::Serializer;
use crate::text::text;

verus! {

/// The request message: asks for a block of a piece.
#[derive(Debug)]
pub struct Request {
    pub piece_index: u32,
    pub block_begin: u32,
    pub block_length: u32,
}

impl Request {
    pub const LEN: u32 = 13;
    pub const ID: u8 = 6;
    pub const FULL_SIZE: usize = 17;

    pub fn new(piece_index: usize, block_begin: usize, block_length: usize) -> (r: Request)
        ensures
            r.piece_index == piece_index as u32,
            r.block_begin == block_begin as u32,
            r.block_length == block_length as u32,
    {
        Request {
            piece_index: piece_index as u32,
            block_begin: block_begin as u32,
            block_length: block_length as u32,
        }
    }

    /// Reads the message from the start of a frame.
    pub fn from(buffer: &[u8]) -> (r: Request)
        requires
            buffer@.len() >= 17,
        ensures
            r.piece_index == be32_at(buffer@, 5),
            r.block_begin == be32_at(buffer@, 9),
            r.block_length == be32_at(buffer@, 13),
    {
        Request {
            piece_index: read_u32(buffer, 5),
            block_begin: read_u32(buffer, 9),
            block_length: read_u32(buffer, 13),
        }
    }

    /// The size of the frame, where `length` is that of this message and
    /// the whole frame is available.
    pub fn check(available_data: usize, length: usize) -> (r: Result<usize, Error>)
        ensures
            (length == 13 && available_data >= 17) ==> r == Ok::<usize, Error>(17),
            !(length == 13 && available_data >= 17) ==> r is Err && is_incomplete(
                r->Err_0,
                "Request"@,
            ),
    {
        if length == Request::LEN as usize && available_data >= 4 + length {
            Ok(Request::FULL_SIZE)
        } else {
            Err(Error::Incomplete(text("Request")))
        }
    }

    pub fn piece_index(&self) -> (r: usize)
        ensures
            r == self.piece_index,
    {
        self.piece_index as usize
    }

    /// The index of the piece asked for (the same as `piece_index`).
    pub fn index(&self) -> (r: usize)
        ensures
            r == self.piece_index,
    {
        self.piece_index as usize
    }

    pub fn block_begin(&self) -> (r: usize)
        ensures
            r == self.block_begin,
    {
        self.block_begin as usize
    }

    pub fn block_length(&self) -> (r: usize)
        ensures
            r == self.block_length,
    {
        self.block_length as usize
    }

    /// Checks a request against the piece it must ask for: the index must be
    /// that piece's and one of the torrent's, the block no longer than the
    /// largest block, and it must end inside the piece.
    pub fn validate(&self, piece_index: usize, pieces_num: usize, piece_length: usize) -> (r: Result<
        (),
        Error,
    >)
        ensures
            (self.piece_index >= pieces_num as u32 || self.piece_index != piece_index as u32) ==> (
            r is Err && is_invalid_piece_index(r->Err_0, "Request"@)),
            !(self.piece_index >= pieces_num as u32 || self.piece_index != piece_index as u32) && (
            self.block_length > PIECE_BLOCK_SIZE || self.block_begin + self.block_length
                > piece_length as u32) ==> (r is Err && is_invalid_length(r->Err_0, "Request"@)),
            !(self.piece_index >= pieces_num as u32 || self.piece_index != piece_index as u32) && !(
            self.block_length > PIECE_BLOCK_SIZE || self.block_begin + self.block_length
                > piece_length as u32) ==> r is Ok,
    {
        if self.piece_index >= pieces_num as u32 || self.piece_index != piece_index as u32 {
            return Err(Error::InvalidPieceIndex(text("Request")));
        }
        if self.block_length > PIECE_BLOCK_SIZE as u32 {
            return Err(Error::InvalidLength(text("Request")));
        }
        if self.block_begin as u64 + self.block_length as u64 > (piece_length as u32) as u64 {
            return Err(Error::InvalidLength(text("Request")));
        }
        Ok(())
    }
}

impl Serializer for Request {
    open spec fn wire(&self) -> Seq<u8> {
        be32(13) + seq![6u8] + be32(self.piece_index) + be32(self.block_begin) + be32(
            self.block_length,
        )
    }

    fn data(&self) -> (r: Vec<u8>) {
        let mut v: Vec<u8> = Vec::new();
        push_u32(&mut v, Request::LEN);
        v.push(Request::ID);
        push_u32(&mut v, self.piece_index);
        push_u32(&mut v, self.block_begin);
        push_u32(&mut v, self.block_length);
        v
    }
}

} // verus!

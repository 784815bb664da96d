use vstd::prelude::*;

use crate::error::{is_incomplete, is_invalid_piece_index, Error};
use crate::messages::{be32, be32_at, push_u32, read_u32};
use crate::serializer::Serializer;
use crate::text::text;

verus! {

/// The have message: the sender has the piece with this index.
#[derive(Debug)]
pub struct Have {
    pub piece_index: u32,
}

impl Have {
    pub const LEN: u32 = 5;
    pub const ID: u8 = 4;
    pub const FULL_SIZE: usize = 9;

    pub fn new(piece_index: usize) -> (r: Have)
        ensures
            r.piece_index == piece_index as u32,
    {
        Have { piece_index: piece_index as u32 }
    }

    /// Reads the message from the start of a frame.
    pub fn from(buffer: &[u8]) -> (r: Have)
        requires
            buffer@.len() >= 9,
        ensures
            r.piece_index == be32_at(buffer@, 5),
    {
        Have { piece_index: read_u32(buffer, 5) }
    }

    /// The size of the frame, where `length` is that of this message and
    /// the whole frame is available.
    pub fn check(available_data: usize, length: usize) -> (r: Result<usize, Error>)
        ensures
            (length == 5 && available_data >= 9) ==> r == Ok::<usize, Error>(9),
            !(length == 5 && available_data >= 9) ==> r is Err && is_incomplete(r->Err_0, "Have"@),
    {
        if length == Have::LEN as usize && available_data >= 4 + length {
            Ok(Have::FULL_SIZE)
        } else {
            Err(Error::Incomplete(text("Have")))
        }
    }

    pub fn piece_index(&self) -> (r: usize)
        ensures
            r == self.piece_index,
    {
        self.piece_index as usize
    }

    /// Checks that the piece index is one of the torrent's.
    pub fn validate(&self, pieces_num: usize) -> (r: Result<(), Error>)
        ensures
            self.piece_index < pieces_num ==> r is Ok,
            self.piece_index >= pieces_num ==> r is Err && is_invalid_piece_index(r->Err_0, "Have"@),
    {
        if (self.piece_index as usize) < pieces_num {
            Ok(())
        } else {
            Err(Error::InvalidPieceIndex(text("Have")))
        }
    }
}

impl Serializer for Have {
    open spec fn wire(&self) -> Seq<u8> {
        be32(5) + seq![4u8] + be32(self.piece_index)
    }

    fn data(&self) -> (r: Vec<u8>) {
        let mut v: Vec<u8> = Vec::new();
        push_u32(&mut v, Have::LEN);
        v.push(Have::ID);
        push_u32(&mut v, self.piece_index);
        v
    }
}

} // verus!

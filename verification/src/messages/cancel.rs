use vstd::prelude::*;

use crate::error::{is_incomplete, Error};
use crate::messages::{be32, be32_at, push_u32, read_u32};
use crate::serializer::Serializer;
use crate::text::text;

verus! {

/// The cancel message: withdraws a request for a block.
#[derive(Debug)]
pub struct Cancel {
    pub piece_index: u32,
    pub block_begin: u32,
    pub block_length: u32,
}

impl Cancel {
    pub const LEN: u32 = 13;
    pub const ID: u8 = 8;
    pub const FULL_SIZE: usize = 17;

    pub fn new(piece_index: usize, block_begin: usize, block_length: usize) -> (r: Cancel)
        ensures
            r.piece_index == piece_index as u32,
            r.block_begin == block_begin as u32,
            r.block_length == block_length as u32,
    {
        Cancel {
            piece_index: piece_index as u32,
            block_begin: block_begin as u32,
            block_length: block_length as u32,
        }
    }

    /// Reads the message from the start of a frame.
    pub fn from(buffer: &[u8]) -> (r: Cancel)
        requires
            buffer@.len() >= 17,
        ensures
            r.piece_index == be32_at(buffer@, 5),
            r.block_begin == be32_at(buffer@, 9),
            r.block_length == be32_at(buffer@, 13),
    {
        Cancel {
            piece_index: read_u32(buffer, 5),
            block_begin: read_u32(buffer, 9),
            block_length: read_u32(buffer, 13),
        }
    }

    /// The size of the frame, where `length` is that of this message and
    /// the whole frame is available.
    pub fn check(available_data: usize, length: usize) -> (r: Result<usize, Error>)
        ensures
            (length == 13 && available_data >= 17) ==> r == Ok::<usize, Error>(17),
            !(length == 13 && available_data >= 17) ==> r is Err && is_incomplete(
                r->Err_0,
                "Cancel"@,
            ),
    {
        if length == Cancel::LEN as usize && available_data >= 4 + length {
            Ok(Cancel::FULL_SIZE)
        } else {
            Err(Error::Incomplete(text("Cancel")))
        }
    }
}

impl Serializer for Cancel {
    open spec fn wire(&self) -> Seq<u8> {
        be32(13) + seq![8u8] + be32(self.piece_index) + be32(self.block_begin) + be32(
            self.block_length,
        )
    }

    fn data(&self) -> (r: Vec<u8>) {
        let mut v: Vec<u8> = Vec::new();
        push_u32(&mut v, Cancel::LEN);
        v.push(Cancel::ID);
        push_u32(&mut v, self.piece_index);
        push_u32(&mut v, self.block_begin);
        push_u32(&mut v, self.block_length);
        v
    }
}

} // verus!

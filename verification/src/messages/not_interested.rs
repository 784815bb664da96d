use vstd::prelude::*;

use crate::error::{is_incomplete, Error};
use crate::messages::{be32, push_u32};
use crate::serializer::Serializer;
use crate::text::text;

verus! {

/// The not-interested message: the sender wants no pieces.
#[derive(Debug)]
pub struct NotInterested {}

impl NotInterested {
    pub const LEN: u32 = 1;
    pub const ID: u8 = 3;
    pub const FULL_SIZE: usize = 5;

    pub fn new() -> (r: NotInterested)
        ensures
            r == (NotInterested {}),
    {
        NotInterested {}
    }

    /// The size of the frame, where `length` is that of this message.
    pub fn check(length: usize) -> (r: Result<usize, Error>)
        ensures
            length == 1 ==> r == Ok::<usize, Error>(5),
            length != 1 ==> r is Err && is_incomplete(r->Err_0, "NotInterested"@),
    {
        if length == NotInterested::LEN as usize {
            Ok(NotInterested::FULL_SIZE)
        } else {
            Err(Error::Incomplete(text("NotInterested")))
        }
    }
}

impl Serializer for NotInterested {
    open spec fn wire(&self) -> Seq<u8> {
        be32(1) + seq![3u8]
    }

    fn data(&self) -> (r: Vec<u8>) {
        let mut v: Vec<u8> = Vec::new();
        push_u32(&mut v, NotInterested::LEN);
        v.push(NotInterested::ID);
        assert(v@ =~= be32(1) + seq![3u8]);
        v
    }
}

} // verus!

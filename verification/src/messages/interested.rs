use vstd::prelude::*;

use crate::error::{is_incomplete, Error};
use crate::messages::{be32, push_u32};
use crate::serializer::Serializer;
use crate::text::text;

verus! {

/// The interested message: the sender wants pieces.
#[derive(Debug)]
pub struct Interested {}

impl Interested {
    pub const LEN: u32 = 1;
    pub const ID: u8 = 2;
    pub const FULL_SIZE: usize = 5;

    pub fn new() -> (r: Interested)
        ensures
            r == (Interested {}),
    {
        Interested {}
    }

    /// The size of the frame, where `length` is that of this message.
    pub fn check(length: usize) -> (r: Result<usize, Error>)
        ensures
            length == 1 ==> r == Ok::<usize, Error>(5),
            length != 1 ==> r is Err && is_incomplete(r->Err_0, "Interested"@),
    {
        if length == Interested::LEN as usize {
            Ok(Interested::FULL_SIZE)
        } else {
            Err(Error::Incomplete(text("Interested")))
        }
    }
}

impl Serializer for Interested {
    open spec fn wire(&self) -> Seq<u8> {
        be32(1) + seq![2u8]
    }

    fn data(&self) -> (r: Vec<u8>) {
        let mut v: Vec<u8> = Vec::new();
        push_u32(&mut v, Interested::LEN);
        v.push(Interested::ID);
        assert(v@ =~= be32(1) + seq![2u8]);
        v
    }
}

} // verus!

use vstd::prelude::*;

use crate::error::{is_incomplete, Error};
use crate::messages::{be32, push_u32};
use crate::serializer::Serializer;
use crate::text::text;

verus! {

/// The choke message: the sender will not answer requests.
#[derive(Debug)]
pub struct Choke {}

impl Choke {
    pub const LEN: u32 = 1;
    pub const ID: u8 = 0;
    pub const FULL_SIZE: usize = 5;

    pub fn new() -> (r: Choke)
        ensures
            r == (Choke {}),
    {
        Choke {}
    }

    /// The size of the frame, where `length` is that of this message.
    pub fn check(length: usize) -> (r: Result<usize, Error>)
        ensures
            length == 1 ==> r == Ok::<usize, Error>(5),
            length != 1 ==> r is Err && is_incomplete(r->Err_0, "Choke"@),
    {
        if length == Choke::LEN as usize {
            Ok(Choke::FULL_SIZE)
        } else {
            Err(Error::Incomplete(text("Choke")))
        }
    }
}

impl Serializer for Choke {
    open spec fn wire(&self) -> Seq<u8> {
        be32(1) + seq![0u8]
    }

    fn data(&self) -> (r: Vec<u8>) {
        let mut v: Vec<u8> = Vec::new();
        push_u32(&mut v, Choke::LEN);
        v.push(Choke::ID);
        assert(v@ =~= be32(1) + seq![0u8]);
        v
    }
}

} // verus!

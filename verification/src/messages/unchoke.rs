use vstd::prelude::*;

use crate::error::{is_incomplete, Error};
use crate::messages::{be32, push_u32};
use crate::serializer::Serializer;
use crate::text::text;

verus! {

/// The unchoke message: the sender will answer requests.
#[derive(Debug)]
pub struct Unchoke {}

impl Unchoke {
    pub const LEN: u32 = 1;
    pub const ID: u8 = 1;
    pub const FULL_SIZE: usize = 5;

    pub fn new() -> (r: Unchoke)
        ensures
            r == (Unchoke {}),
    {
        Unchoke {}
    }

    /// The size of the frame, where `length` is that of this message.
    pub fn check(length: usize) -> (r: Result<usize, Error>)
        ensures
            length == 1 ==> r == Ok::<usize, Error>(5),
            length != 1 ==> r is Err && is_incomplete(r->Err_0, "Unchoke"@),
    {
        if length == Unchoke::LEN as usize {
            Ok(Unchoke::FULL_SIZE)
        } else {
            Err(Error::Incomplete(text("Unchoke")))
        }
    }
}

impl Serializer for Unchoke {
    open spec fn wire(&self) -> Seq<u8> {
        be32(1) + seq![1u8]
    }

    fn data(&self) -> (r: Vec<u8>) {
        let mut v: Vec<u8> = Vec::new();
        push_u32(&mut v, Unchoke::LEN);
        v.push(Unchoke::ID);
        assert(v@ =~= be32(1) + seq![1u8]);
        v
    }
}

} // verus!

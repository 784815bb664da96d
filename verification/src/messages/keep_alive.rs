use vstd::prelude::*;

use crate::messages::{be32, push_u32};
use crate::serializer::Serializer;

verus! {

/// The keep-alive message: a length prefix of zero.
#[derive(Debug)]
pub struct KeepAlive {}

impl KeepAlive {
    pub const LEN: u32 = 0;
    pub const FULL_SIZE: usize = 4;

    pub fn new() -> (r: KeepAlive)
        ensures
            r == (KeepAlive {}),
    {
        KeepAlive {}
    }
}

impl Serializer for KeepAlive {
    open spec fn wire(&self) -> Seq<u8> {
        be32(0)
    }

    fn data(&self) -> (r: Vec<u8>) {
        let mut v: Vec<u8> = Vec::new();
        push_u32(&mut v, KeepAlive::LEN);
        v
    }
}

} // verus!

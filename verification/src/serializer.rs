//! Messages that can be written to the wire.

use vstd::prelude::*;

verus! {

/// A message with a wire form.
pub trait Serializer {
    /// The bytes of the message on the wire.
    spec fn wire(&self) -> Seq<u8>;

    /// Serialises the message.
    fn data(&self) -> (r: Vec<u8>)
        ensures
            r@ == self.wire(),
    ;
}

} // verus!

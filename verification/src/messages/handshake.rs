use vstd::prelude::*;

use crate::constants::{HASH_SIZE, PEER_ID_SIZE};
use crate::error::{is_incomplete, Error};
use crate::messages::push_all;
use crate::serializer::Serializer;
use crate::text::text;

verus! {

/// The handshake message: protocol name, reserved bytes, info hash of the
/// torrent and ID of the sender.
#[derive(Debug)]
pub struct Handshake {
    pub info_hash: [u8; HASH_SIZE],
    pub peer_id: [u8; PEER_ID_SIZE],
}

/// The protocol name, "BitTorrent protocol".
pub open spec fn protocol_id() -> Seq<u8> {
    seq![66u8, 105, 116, 84, 111, 114, 114, 101, 110, 116, 32, 112, 114, 111, 116, 111, 99, 111, 108]
}

/// The protocol name.
pub fn protocol_id_bytes() -> (r: [u8; 19])
    ensures
        r@ == protocol_id(),
{
    let r: [u8; 19] = [66, 105, 116, 84, 111, 114, 114, 101, 110, 116, 32, 112, 114, 111, 116, 111, 99, 111, 108];
    assert(r@ =~= protocol_id());
    r
}

/// Copies 20 bytes of a buffer into an array.
fn read_20(buffer: &[u8], start: usize) -> (r: [u8; 20])
    requires
        start + 20 <= buffer@.len(),
    ensures
        r@ == buffer@.subrange(start as int, start + 20),
{
    let mut r: [u8; 20] = [0; 20];
    let n = buffer.len();
    let mut i: usize = 0;
    while i < 20
        invariant
            n == buffer@.len(),
            start + 20 <= buffer@.len(),
            i <= 20,
            r@.len() == 20,
            forall|j: int| 0 <= j < i ==> r@[j] == buffer@[start + j],
        decreases 20 - i,
    {
        r[i] = buffer[start + i];
        i = i + 1;
    }
    assert(r@ =~= buffer@.subrange(start as int, start + 20));
    r
}

/// Whether two byte arrays of 20 hold the same bytes.
fn same_20(a: &[u8; 20], b: &[u8; 20]) -> (r: bool)
    ensures
        r == (a@ == b@),
{
    let mut i: usize = 0;
    while i < 20
        invariant
            i <= 20,
            a@.len() == 20,
            b@.len() == 20,
            forall|j: int| 0 <= j < i ==> a@[j] == b@[j],
        decreases 20 - i,
    {
        if a[i] != b[i] {
            return false;
        }
        i = i + 1;
    }
    assert(a@ =~= b@);
    true
}

impl Handshake {
    /// The length of a handshake without its first byte.
    pub const LEN: u32 = 67;
    /// The byte at the place of a message ID: the fourth of the protocol name.
    pub const ID_FROM_PROTOCOL: u8 = 84;
    pub const FULL_SIZE: usize = 68;

    pub fn new(info_hash: &[u8; HASH_SIZE], peer_id: &[u8; PEER_ID_SIZE]) -> (r: Handshake)
        ensures
            r.info_hash@ == info_hash@,
            r.peer_id@ == peer_id@,
    {
        Handshake { info_hash: *info_hash, peer_id: *peer_id }
    }

    /// Reads the message from the start of a frame.
    pub fn from(buffer: &[u8]) -> (r: Handshake)
        requires
            buffer@.len() >= 68,
        ensures
            r.info_hash@ == buffer@.subrange(28, 48),
            r.peer_id@ == buffer@.subrange(48, 68),
    {
        Handshake { info_hash: read_20(buffer, 28), peer_id: read_20(buffer, 48) }
    }

    /// The size of the frame: the protocol name must be the BitTorrent one
    /// and the whole handshake available.
    pub fn check(buffer: &[u8], protocol_id_length: usize, available_data: usize) -> (r: Result<
        usize,
        Error,
    >)
        requires
            available_data >= 68 ==> buffer@.len() >= 20,
        ensures
            protocol_id_length != 19 ==> r == Err::<usize, Error>(Error::InvalidProtocolId),
            protocol_id_length == 19 && available_data < 68 ==> r is Err && is_incomplete(
                r->Err_0,
                "Handshake"@,
            ),
            protocol_id_length == 19 && available_data >= 68 ==> (if buffer@.subrange(1, 20)
                == protocol_id() {
                r == Ok::<usize, Error>(68)
            } else {
                r == Err::<usize, Error>(Error::InvalidProtocolId)
            }),
    {
        if protocol_id_length == 19 {
            if available_data < Handshake::FULL_SIZE {
                return Err(Error::Incomplete(text("Handshake")));
            }
            let pid = protocol_id_bytes();
            let mut idx: usize = 0;
            while idx < 19
                invariant
                    20 <= buffer@.len(),
                    protocol_id_length == 19,
                    available_data >= 68,
                    pid@ == protocol_id(),
                    idx <= 19,
                    forall|j: int| 0 <= j < idx ==> buffer@[j + 1] == protocol_id()[j],
                decreases 19 - idx,
            {
                if buffer[idx + 1] != pid[idx] {
                    assert(buffer@.subrange(1, 20)[idx as int] != protocol_id()[idx as int]);
                    return Err(Error::InvalidProtocolId);
                }
                idx = idx + 1;
            }
            assert(buffer@.subrange(1, 20) =~= protocol_id());
            return Ok(Handshake::FULL_SIZE);
        }
        Err(Error::InvalidProtocolId)
    }

    pub fn peer_id(&self) -> (r: &[u8; PEER_ID_SIZE])
        ensures
            r@ == self.peer_id@,
    {
        &self.peer_id
    }

    /// Checks the info hash, and the peer ID where one is expected.
    pub fn validate(&self, info_hash: &[u8; HASH_SIZE], peer_id: &Option<[u8; PEER_ID_SIZE]>) -> (r:
        Result<(), Error>)
        ensures
            self.info_hash@ != info_hash@ ==> r == Err::<(), Error>(Error::InvalidInfoHash),
            self.info_hash@ == info_hash@ ==> match peer_id {
                Some(p) => if self.peer_id@ == p@ {
                    r is Ok
                } else {
                    r == Err::<(), Error>(Error::InvalidPeerId)
                },
                None => r is Ok,
            },
    {
        if !same_20(&self.info_hash, info_hash) {
            return Err(Error::InvalidInfoHash);
        }
        match peer_id {
            Some(p) => {
                if !same_20(&self.peer_id, p) {
                    return Err(Error::InvalidPeerId);
                }
                Ok(())
            },
            None => Ok(()),
        }
    }
}

impl Serializer for Handshake {
    open spec fn wire(&self) -> Seq<u8> {
        seq![19u8] + protocol_id() + Seq::new(8, |i: int| 0u8) + self.info_hash@ + self.peer_id@
    }

    fn data(&self) -> (r: Vec<u8>) {
        let mut v: Vec<u8> = Vec::new();
        v.push(19u8);
        let pid = protocol_id_bytes();
        push_all(&mut v, pid.as_slice());
        let zeros: [u8; 8] = [0; 8];
        push_all(&mut v, zeros.as_slice());
        push_all(&mut v, self.info_hash.as_slice());
        push_all(&mut v, self.peer_id.as_slice());
        assert(zeros@ =~= Seq::new(8, |i: int| 0u8));
        assert(v@ =~= self.wire());
        v
    }
}

} // verus!

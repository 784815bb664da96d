//! Sizes and limits of the protocol.

use vstd::prelude::*;

verus! {

/// SHA1 hash size
pub const HASH_SIZE: usize = 20;

/// Peer ID size
pub const PEER_ID_SIZE: usize = 20;

/// BEP3 suggests 16 kiB as default size for request
pub const PIECE_BLOCK_SIZE: usize = 16384;

/// Piece length, BEP3 suggests 256K as default
pub const PIECE_LENGTH: usize = 262144;

/// Default port
pub const PORT: u16 = 6881;

/// Maximal buffer size for frame
pub const MAX_FRAME_SIZE: usize = 65536;

/// Size of the length prefix of a message.
pub const MSG_LEN_SIZE: usize = 4;

/// Position of the message ID.
pub const MSG_ID_POS: usize = 4;

/// Size of the message ID.
pub const MSG_ID_SIZE: usize = 1;

/// How many interested peers may stay choked before the slowest is dropped.
pub const MAX_NOT_INTERESTED: usize = 4;

/// Rounds an optimistic unchoke lasts.
pub const MAX_OPTIMISTIC_ROUNDS: usize = 3;

/// Number of peers unchoked optimistically.
pub const MAX_OPTIMISTIC: usize = 1;

/// Number of peers unchoked at once.
pub const MAX_UNCHOKED: usize = 10;

} // verus!

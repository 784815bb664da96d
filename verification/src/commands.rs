//! Commands exchanged between the session, the peers' handlers, the tracker
//! client, the extractor and the view.

use vstd::prelude::*;

use crate::constants::HASH_SIZE;
use crate::messages::bitfield::Bitfield;
use crate::tracker_resp::TrackerResp;

verus! {

/// What the tracker client reports.
#[derive(Debug, Clone)]
pub enum TrackerCmd {
    TrackerResp(TrackerResp),
    Fail(String),
}

/// What the file extractor reports.
#[derive(Debug, Clone)]
pub enum ExtractorCmd {
    Done,
    Fail(String),
}

/// What the view is told.
#[derive(Debug)]
pub enum ViewCmd {
    Log(String),
    Kill,
}

/// What the session tells every peer's handler.
#[derive(Debug, Clone)]
pub enum BroadCmd {
    /// A piece was downloaded: announce it.
    SendHave { index: usize },
    /// The new own choke state towards some peers, by address; one entry
    /// per address.
    SendOwnState { am_choked_map: Vec<(String, bool)> },
}

/// The piece that a handler is to download.
#[derive(Debug)]
pub struct ReqData {
    pub index: usize,
    pub piece_length: usize,
    pub piece_hash: [u8; HASH_SIZE],
}

/// Answer to a handshake.
#[derive(Debug)]
pub enum InitCmd {
    SendBitfield { bitfield: Bitfield },
}

/// Answer to an unchoke.
#[derive(Debug)]
pub enum UnchokeCmd {
    SendInterestedAndRequest(ReqData),
    SendRequest(ReqData),
    SendNotInterested,
    Ignore,
}

/// Answer to a not-interested.
#[derive(Debug)]
pub enum NotInterestedCmd {
    PrepareKill,
    Ignore,
}

/// Answer to a have.
#[derive(Debug)]
pub enum HaveCmd {
    SendInterestedAndRequest(ReqData),
    SendInterested,
    Ignore,
}

/// Answer to a bitfield.
#[derive(Debug)]
pub enum BitfieldCmd {
    SendState { with_am_unchoked: bool, am_interested: bool },
}

/// Answer to a request.
#[derive(Debug)]
pub enum RequestCmd {
    LoadAndSendPiece { index: usize, piece_hash: [u8; HASH_SIZE] },
    Ignore,
}

/// Answer to a downloaded piece.
#[derive(Debug)]
pub enum PieceDoneCmd {
    SendRequest(ReqData),
    SendNotInterested,
    PrepareKill,
    Ignore,
}

} // verus!

//! What the session knows of one peer, and its decisions on the messages
//! that the peer's handler reports.

use vstd::prelude::*;

use crate::commands::{
    BitfieldCmd, HaveCmd, InitCmd, NotInterestedCmd, PieceDoneCmd, ReqData, RequestCmd, UnchokeCmd,
};
use crate::constants::{MAX_UNCHOKED, PEER_ID_SIZE};
use crate::messages::bitfield::{packs, Bitfield};
use crate::metainfo::Metainfo;
use crate::text::text;

verus! {

/// The state of a piece.
#[derive(PartialEq, Eq, Structural, Clone, Copy, Debug)]
pub enum Status {
    Missing,
    Reserved,
    Have,
}

/// A peer of the session: what it has and the choke and interest states in
/// both directions.
#[derive(Debug)]
pub struct Peer {
    pub id: Option<[u8; PEER_ID_SIZE]>,
    pub pieces: Vec<bool>,
    pub piece_index: Option<usize>,
    pub am_interested: bool,
    pub am_choked: bool,
    pub interested: bool,
    pub choked: bool,
    pub optimistic_unchoke: bool,
    pub download_rate: Option<u32>,
    pub uploaded_rate: Option<u32>,
}

/// No piece, for each of `n` pieces.
pub open spec fn no_pieces(n: nat) -> Seq<bool> {
    Seq::new(n, |i: int| false)
}

/// Flags of the pieces we have.
pub open spec fn have_flags(st: Seq<Status>) -> Seq<bool> {
    Seq::new(st.len(), |i: int| st[i] == Status::Have)
}

/// Whether `r` asks for piece `index` of `m`.
pub open spec fn req_for(r: ReqData, m: Metainfo, index: int) -> bool {
    &&& r.index == index
    &&& r.piece_length == m.spec_piece_length(index)
    &&& r.piece_hash@ == m.pieces@[index]@
}

/// Whether an index is one of the statuses'.
pub open spec fn in_range(i: Option<usize>, n: int) -> bool {
    match i {
        Some(k) => k < n,
        None => true,
    }
}

/// The request data for a piece.
pub fn req_data(metainfo: &Metainfo, piece_index: usize) -> (r: ReqData)
    requires
        metainfo.wf(),
        piece_index < metainfo.pieces@.len(),
    ensures
        req_for(r, *metainfo, piece_index as int),
{
    ReqData {
        index: piece_index,
        piece_length: metainfo.piece_length(piece_index),
        piece_hash: *metainfo.piece(piece_index),
    }
}

impl Peer {
    /// A new peer: nothing known of its pieces, choked both ways, not
    /// interested either way.
    pub fn new(id: Option<[u8; PEER_ID_SIZE]>, pieces_num: usize) -> (r: Peer)
        ensures
            r.id == id,
            r.pieces@ == no_pieces(pieces_num as nat),
            r.piece_index is None,
            !r.am_interested,
            r.am_choked,
            !r.interested,
            r.choked,
            !r.optimistic_unchoke,
            r.download_rate is None,
            r.uploaded_rate is None,
    {
        let pieces = vec![false; pieces_num];
        assert(pieces@ =~= no_pieces(pieces_num as nat));
        Peer {
            id,
            pieces,
            piece_index: None,
            am_interested: false,
            am_choked: true,
            interested: false,
            choked: true,
            optimistic_unchoke: false,
            download_rate: None,
            uploaded_rate: None,
        }
    }

    /// Whether the peer is the same as `old` but for its pieces.
    pub open spec fn same_but_pieces(&self, old: Peer) -> bool {
        &&& self.id == old.id
        &&& self.piece_index == old.piece_index
        &&& self.am_interested == old.am_interested
        &&& self.am_choked == old.am_choked
        &&& self.interested == old.interested
        &&& self.choked == old.choked
        &&& self.optimistic_unchoke == old.optimistic_unchoke
        &&& self.download_rate == old.download_rate
        &&& self.uploaded_rate == old.uploaded_rate
    }

    /// Replaces the pieces the peer has, given for all of them.
    pub fn update_pieces(&mut self, pieces: &Vec<bool>)
        requires
            pieces@.len() == old(self).pieces@.len(),
        ensures
            final(self).pieces@ == pieces@,
            final(self).same_but_pieces(*old(self)),
    {
        let mut i: usize = 0;
        while i < pieces.len()
            invariant
                i <= pieces@.len(),
                self.pieces@.len() == pieces@.len(),
                forall|j: int| 0 <= j < i ==> self.pieces@[j] == pieces@[j],
                self.same_but_pieces(*old(self)),
            decreases pieces@.len() - i,
        {
            self.pieces.set(i, pieces[i]);
            i = i + 1;
        }
        assert(self.pieces@ =~= pieces@);
    }

    /// The handshake is done: records the peer's ID and answers with our
    /// bitfield.
    pub fn handle_init(&mut self, peer_id: [u8; PEER_ID_SIZE], pieces_status: &Vec<Status>) -> (r:
        InitCmd)
        ensures
            init_spec(*old(self), *final(self), peer_id, pieces_status@, r),

    {
        self.id = Some(peer_id);
        let mut flags: Vec<bool> = Vec::new();
        let mut i: usize = 0;
        while i < pieces_status.len()
            invariant
                i <= pieces_status@.len(),
                flags@ == have_flags(pieces_status@.subrange(0, i as int)),
            decreases pieces_status@.len() - i,
        {
            flags.push(pieces_status[i] == Status::Have);
            i = i + 1;
            assert(flags@ =~= have_flags(pieces_status@.subrange(0, i as int)));
        }
        assert(pieces_status@.subrange(0, pieces_status@.len() as int) =~= pieces_status@);
        let bitfield = Bitfield::from_vec(&flags);
        InitCmd::SendBitfield { bitfield }
    }

    /// The peer choked us: the piece reserved for it is missing again.
    pub fn handle_choke(&mut self, pieces_status: &mut Vec<Status>)
        requires
            in_range(old(self).piece_index, old(pieces_status)@.len() as int),
        ensures
            choke_spec(*old(self), *final(self), old(pieces_status)@, final(pieces_status)@),

    {
        self.choked = true;
        match self.piece_index {
            Some(piece_index) => {
                if pieces_status[piece_index] == Status::Reserved {
                    pieces_status.set(piece_index, Status::Missing);
                }
            },
            None => {},
        }
    }

    /// Whether the peer is the same as `old` but for `choked`.
    pub open spec fn same_but_choked(&self, old: Peer) -> bool {
        &&& self.id == old.id
        &&& self.pieces@ == old.pieces@
        &&& self.piece_index == old.piece_index
        &&& self.am_interested == old.am_interested
        &&& self.am_choked == old.am_choked
        &&& self.interested == old.interested
        &&& self.optimistic_unchoke == old.optimistic_unchoke
        &&& self.download_rate == old.download_rate
        &&& self.uploaded_rate == old.uploaded_rate
    }

    /// Whether the peer is the same as `old` in what the handlers of
    /// messages about pieces leave alone.
    pub open spec fn same_links(&self, old: Peer) -> bool {
        &&& self.id == old.id
        &&& self.am_choked == old.am_choked
        &&& self.interested == old.interested
        &&& self.optimistic_unchoke == old.optimistic_unchoke
        &&& self.download_rate == old.download_rate
        &&& self.uploaded_rate == old.uploaded_rate
    }

    /// The peer unchoked us: request the chosen piece, reserving it, or
    /// say that we are not interested where there is none.
    pub fn handle_unchoke(
        &mut self,
        chosen_index: Option<usize>,
        pieces_status: &mut Vec<Status>,
        metainfo: &Metainfo,
    ) -> (r: UnchokeCmd)
        requires
            metainfo.wf(),
            old(pieces_status)@.len() == metainfo.pieces@.len(),
            in_range(chosen_index, old(pieces_status)@.len() as int),
        ensures
            unchoke_spec(*old(self), *final(self), chosen_index, old(pieces_status)@, final(pieces_status)@, *metainfo, r),

    {
        let cmd = match chosen_index {
            Some(chosen_index) => {
                pieces_status.set(chosen_index, Status::Reserved);
                if self.am_interested {
                    UnchokeCmd::SendRequest(req_data(metainfo, chosen_index))
                } else {
                    UnchokeCmd::SendInterestedAndRequest(req_data(metainfo, chosen_index))
                }
            },
            None => {
                if self.am_interested {
                    UnchokeCmd::SendNotInterested
                } else {
                    UnchokeCmd::Ignore
                }
            },
        };
        self.choked = false;
        self.piece_index = chosen_index;
        self.am_interested = chosen_index.is_some();
        cmd
    }

    /// The peer is interested in our pieces.
    pub fn handle_interested(&mut self)
        ensures
            interested_spec(*old(self), *final(self)),

    {
        self.interested = true;
    }

    /// The peer is not interested in our pieces: the connection can be
    /// dropped where neither side wants anything from the other.
    pub fn handle_not_interested(&mut self, chosen_index: Option<usize>) -> (r: NotInterestedCmd)
        ensures
            not_interested_spec(*old(self), *final(self), chosen_index, r),

    {
        self.interested = false;
        if !self.am_interested && self.piece_index.is_none() && chosen_index.is_none() {
            NotInterestedCmd::PrepareKill
        } else {
            NotInterestedCmd::Ignore
        }
    }

    /// The peer has a new piece: if we miss it and want nothing yet, show
    /// interest, and request it at once where the peer does not choke us
    /// and nothing is being downloaded from it.
    pub fn handle_have(&mut self, piece_index: usize, pieces_status: &mut Vec<Status>, metainfo: &Metainfo) -> (r:
        HaveCmd)
        requires
            metainfo.wf(),
            old(pieces_status)@.len() == metainfo.pieces@.len(),
            piece_index < old(self).pieces@.len(),
            piece_index < old(pieces_status)@.len(),
        ensures
            have_spec(*old(self), *final(self), piece_index, old(pieces_status)@, final(pieces_status)@, *metainfo, r),

    {
        self.pieces.set(piece_index, true);
        if pieces_status[piece_index] == Status::Missing && !self.am_interested {
            if !self.choked && self.piece_index.is_none() {
                pieces_status.set(piece_index, Status::Reserved);
                self.piece_index = Some(piece_index);
                self.am_interested = true;
                HaveCmd::SendInterestedAndRequest(req_data(metainfo, piece_index))
            } else {
                self.am_interested = true;
                HaveCmd::SendInterested
            }
        } else {
            HaveCmd::Ignore
        }
    }

    /// The peer sent its bitfield: tell it whether we are interested, and
    /// unchoke it if there is room among the unchoked peers.
    pub fn handle_bitfield(&mut self, chosen_index: Option<usize>, unchoked_num: usize) -> (r:
        BitfieldCmd)
        ensures
            bitfield_spec(*old(self), *final(self), chosen_index, unchoked_num, r),

    {
        let am_interested = chosen_index.is_some();
        let with_am_unchoked = unchoked_num < MAX_UNCHOKED && self.am_choked;
        self.am_interested = am_interested;
        if with_am_unchoked {
            self.am_choked = false;
        }
        BitfieldCmd::SendState { with_am_unchoked, am_interested }
    }

    /// The peer requests a piece: serve it where we do not choke the peer
    /// and have the piece.
    pub fn handle_request(&self, piece_index: usize, pieces_status: &Vec<Status>, metainfo: &Metainfo) -> (r:
        RequestCmd)
        requires
            pieces_status@.len() == metainfo.pieces@.len(),
        ensures
            request_spec(*self, piece_index, pieces_status@, *metainfo, r),

    {
        if self.am_choked {
            return RequestCmd::Ignore;
        }
        if piece_index >= metainfo.pieces_num() {
            return RequestCmd::Ignore;
        }
        if pieces_status[piece_index] != Status::Have {
            return RequestCmd::Ignore;
        }
        RequestCmd::LoadAndSendPiece { index: piece_index, piece_hash: *metainfo.piece(piece_index) }
    }

    /// A piece was downloaded from the peer: go on with the chosen piece,
    /// reserving it, or give up interest; with nothing wanted either way
    /// the connection can be dropped.
    pub fn handle_piece_done(
        &mut self,
        chosen_index: Option<usize>,
        pieces_status: &mut Vec<Status>,
        metainfo: &Metainfo,
    ) -> (r: PieceDoneCmd)
        requires
            metainfo.wf(),
            old(pieces_status)@.len() == metainfo.pieces@.len(),
            in_range(chosen_index, old(pieces_status)@.len() as int),
        ensures
            piece_done_spec(*old(self), *final(self), chosen_index, old(pieces_status)@, final(pieces_status)@, *metainfo, r),

    {
        match chosen_index {
            Some(chosen_index) => {
                pieces_status.set(chosen_index, Status::Reserved);
                self.piece_index = Some(chosen_index);
                if self.choked {
                    PieceDoneCmd::Ignore
                } else {
                    PieceDoneCmd::SendRequest(req_data(metainfo, chosen_index))
                }
            },
            None => {
                self.piece_index = None;
                self.am_interested = false;
                if self.interested {
                    PieceDoneCmd::SendNotInterested
                } else {
                    PieceDoneCmd::PrepareKill
                }
            },
        }
    }

    /// Records the transfer rates the peer's handler measured.
    pub fn handle_sync_stats(&mut self, downloaded_rate: &Option<u32>, uploaded_rate: &Option<u32>)
        ensures
            sync_stats_spec(*old(self), *final(self), *downloaded_rate, *uploaded_rate),

    {
        self.download_rate = *downloaded_rate;
        self.uploaded_rate = *uploaded_rate;
    }

    /// Two letters: our state towards the peer (`o` optimistically unchoked,
    /// `c` choked, `u` unchoked; upper case when we are interested), then
    /// the peer's towards us (`c` or `u`; upper case when it is interested).
    pub fn status_abbreviation(&self) -> (r: String)
        ensures
            r@ == seq![own_state_char(*self), peer_state_char(*self)],
    {
        let own = if self.optimistic_unchoke {
            if self.am_interested {
                "O"
            } else {
                "o"
            }
        } else if self.am_choked {
            if self.am_interested {
                "C"
            } else {
                "c"
            }
        } else {
            if self.am_interested {
                "U"
            } else {
                "u"
            }
        };
        let peer = if self.choked {
            if self.interested {
                "C"
            } else {
                "c"
            }
        } else {
            if self.interested {
                "U"
            } else {
                "u"
            }
        };
        proof {
            reveal_strlit("O");
            reveal_strlit("o");
            reveal_strlit("C");
            reveal_strlit("c");
            reveal_strlit("U");
            reveal_strlit("u");
        }
        let mut s = text(own);
        s.append(peer);
        s
    }
}

/// The letter of our state towards a peer.
pub open spec fn own_state_char(p: Peer) -> char {
    if p.optimistic_unchoke {
        if p.am_interested {
            'O'
        } else {
            'o'
        }
    } else if p.am_choked {
        if p.am_interested {
            'C'
        } else {
            'c'
        }
    } else {
        if p.am_interested {
            'U'
        } else {
            'u'
        }
    }
}

/// The letter of a peer's state towards us.
pub open spec fn peer_state_char(p: Peer) -> char {
    if p.choked {
        if p.interested {
            'C'
        } else {
            'c'
        }
    } else {
        if p.interested {
            'U'
        } else {
            'u'
        }
    }
}

/// What handling a handshake does to a peer.
pub open spec fn init_spec(p0: Peer, p1: Peer, peer_id: [u8; PEER_ID_SIZE], pieces_status: Seq<Status>, r: InitCmd) -> bool {
    &&& (p1.id == Some(peer_id))
    &&& (p1.pieces@ == p0.pieces@)
    &&& (p1.piece_index == p0.piece_index)
    &&& (p1.am_interested == p0.am_interested)
    &&& (p1.am_choked == p0.am_choked)
    &&& (p1.interested == p0.interested)
    &&& (p1.choked == p0.choked)
    &&& (p1.optimistic_unchoke == p0.optimistic_unchoke)
    &&& (p1.download_rate == p0.download_rate)
    &&& (p1.uploaded_rate == p0.uploaded_rate)
    &&& (r matches InitCmd::SendBitfield { bitfield } && bitfield.pieces_num
        == pieces_status.len() && packs(bitfield.pieces_bytes@, have_flags(pieces_status)))
}

/// What a choke does to a peer and the pieces.
pub open spec fn choke_spec(p0: Peer, p1: Peer, s0: Seq<Status>, s1: Seq<Status>) -> bool {
    &&& p1.choked
    &&& p1.same_but_choked(p0)
    &&& s1 == match p0.piece_index {
        Some(i) => if s0[i as int] == Status::Reserved {
            s0.update(i as int, Status::Missing)
        } else {
            s0
        },
        None => s0,
    }
}

/// What an unchoke does to a peer and the pieces, and the answer.
pub open spec fn unchoke_spec(
    p0: Peer,
    p1: Peer,
    chosen_index: Option<usize>,
    s0: Seq<Status>,
    s1: Seq<Status>,
    metainfo: Metainfo,
    r: UnchokeCmd,
) -> bool {
    &&& !p1.choked
    &&& p1.piece_index == chosen_index
    &&& p1.am_interested == chosen_index.is_some()
    &&& p1.pieces@ == p0.pieces@
    &&& p1.same_links(p0)
    &&& match chosen_index {
        Some(i) => {
            &&& s1 == s0.update(i as int, Status::Reserved)
            &&& if p0.am_interested {
                r matches UnchokeCmd::SendRequest(d) && req_for(d, metainfo, i as int)
            } else {
                r matches UnchokeCmd::SendInterestedAndRequest(d) && req_for(d, metainfo, i as int)
            }
        },
        None => {
            &&& s1 == s0
            &&& if p0.am_interested {
                r is SendNotInterested
            } else {
                r is Ignore
            }
        },
    }
}

/// What an interested does to a peer.
pub open spec fn interested_spec(p0: Peer, p1: Peer) -> bool {
    &&& p1.interested
    &&& p1.id == p0.id
    &&& p1.pieces@ == p0.pieces@
    &&& p1.piece_index == p0.piece_index
    &&& p1.am_interested == p0.am_interested
    &&& p1.am_choked == p0.am_choked
    &&& p1.choked == p0.choked
    &&& p1.optimistic_unchoke == p0.optimistic_unchoke
    &&& p1.download_rate == p0.download_rate
    &&& p1.uploaded_rate == p0.uploaded_rate
}

/// What a not-interested does to a peer, and the answer.
pub open spec fn not_interested_spec(p0: Peer, p1: Peer, chosen_index: Option<usize>, r: NotInterestedCmd) -> bool {
    let nothing_wanted = !p0.am_interested && p0.piece_index.is_none() && chosen_index.is_none();
    &&& !p1.interested
    &&& p1.id == p0.id
    &&& p1.pieces@ == p0.pieces@
    &&& p1.piece_index == p0.piece_index
    &&& p1.am_interested == p0.am_interested
    &&& p1.am_choked == p0.am_choked
    &&& p1.choked == p0.choked
    &&& p1.optimistic_unchoke == p0.optimistic_unchoke
    &&& p1.download_rate == p0.download_rate
    &&& p1.uploaded_rate == p0.uploaded_rate
    &&& nothing_wanted ==> r is PrepareKill
    &&& !nothing_wanted ==> r is Ignore
}

/// What a have does to a peer and the pieces, and the answer.
pub open spec fn have_spec(
    p0: Peer,
    p1: Peer,
    piece_index: usize,
    s0: Seq<Status>,
    s1: Seq<Status>,
    metainfo: Metainfo,
    r: HaveCmd,
) -> bool {
    &&& p1.pieces@ == p0.pieces@.update(piece_index as int, true)
    &&& p1.choked == p0.choked
    &&& p1.same_links(p0)
    &&& if s0[piece_index as int] == Status::Missing && !p0.am_interested {
        if !p0.choked && p0.piece_index.is_none() {
            &&& s1 == s0.update(piece_index as int, Status::Reserved)
            &&& p1.piece_index == Some(piece_index)
            &&& p1.am_interested
            &&& r matches HaveCmd::SendInterestedAndRequest(d) && req_for(d, metainfo, piece_index as int)
        } else {
            &&& s1 == s0
            &&& p1.piece_index == p0.piece_index
            &&& p1.am_interested
            &&& r is SendInterested
        }
    } else {
        &&& s1 == s0
        &&& p1.piece_index == p0.piece_index
        &&& p1.am_interested == p0.am_interested
        &&& r is Ignore
    }
}

/// What a bitfield does to a peer, and the answer.
pub open spec fn bitfield_spec(p0: Peer, p1: Peer, chosen_index: Option<usize>, unchoked_num: usize, r: BitfieldCmd) -> bool {
    let with_am_unchoked = unchoked_num < MAX_UNCHOKED && p0.am_choked;
    &&& r == (BitfieldCmd::SendState { with_am_unchoked, am_interested: chosen_index.is_some() })
    &&& p1.am_interested == chosen_index.is_some()
    &&& p1.am_choked == (p0.am_choked && !with_am_unchoked)
    &&& p1.id == p0.id
    &&& p1.pieces == p0.pieces
    &&& p1.piece_index == p0.piece_index
    &&& p1.interested == p0.interested
    &&& p1.choked == p0.choked
    &&& p1.optimistic_unchoke == p0.optimistic_unchoke
    &&& p1.download_rate == p0.download_rate
    &&& p1.uploaded_rate == p0.uploaded_rate
}

/// What a downloaded piece does to a peer and the pieces, and the answer.
pub open spec fn piece_done_spec(
    p0: Peer,
    p1: Peer,
    chosen_index: Option<usize>,
    s0: Seq<Status>,
    s1: Seq<Status>,
    metainfo: Metainfo,
    r: PieceDoneCmd,
) -> bool {
    &&& p1.pieces@ == p0.pieces@
    &&& p1.choked == p0.choked
    &&& p1.same_links(p0)
    &&& p1.piece_index == chosen_index
    &&& match chosen_index {
        Some(i) => {
            &&& s1 == s0.update(i as int, Status::Reserved)
            &&& p1.am_interested == p0.am_interested
            &&& if p0.choked {
                r is Ignore
            } else {
                r matches PieceDoneCmd::SendRequest(d) && req_for(d, metainfo, i as int)
            }
        },
        None => {
            &&& s1 == s0
            &&& !p1.am_interested
            &&& if p0.interested {
                r is SendNotInterested
            } else {
                r is PrepareKill
            }
        },
    }
}

/// What new rates do to a peer.
pub open spec fn sync_stats_spec(p0: Peer, p1: Peer, downloaded_rate: Option<u32>, uploaded_rate: Option<u32>) -> bool {
    &&& p1.download_rate == downloaded_rate
    &&& p1.uploaded_rate == uploaded_rate
    &&& p1.id == p0.id
    &&& p1.pieces@ == p0.pieces@
    &&& p1.piece_index == p0.piece_index
    &&& p1.am_interested == p0.am_interested
    &&& p1.am_choked == p0.am_choked
    &&& p1.interested == p0.interested
    &&& p1.choked == p0.choked
    &&& p1.optimistic_unchoke == p0.optimistic_unchoke
}

/// The answer to a request: the piece, where we unchoke the peer and have
/// that piece of the torrent; else nothing.
pub open spec fn request_spec(p: Peer, piece_index: usize, pieces_status: Seq<Status>, metainfo: Metainfo, r: RequestCmd) -> bool {
    let served = !p.am_choked && piece_index < metainfo.pieces@.len()
        && pieces_status[piece_index as int] == Status::Have;
    &&& served ==> (r matches RequestCmd::LoadAndSendPiece { index, piece_hash } && index == piece_index
        && piece_hash@ == metainfo.pieces@[piece_index as int]@)
    &&& !served ==> r is Ignore
}

} // verus!

//! Frames of the peer wire protocol: recognising a whole message at the
//! start of a buffer.

use vstd::prelude::*;

use crate::error::{is_incomplete, Error};
use crate::messages::bitfield::Bitfield;
use crate::messages::cancel::Cancel;
use crate::messages::choke::Choke;
use crate::messages::handshake::{protocol_id, Handshake};
use crate::messages::have::Have;
use crate::messages::interested::Interested;
use crate::messages::keep_alive::KeepAlive;
use crate::messages::not_interested::NotInterested;
use crate::messages::piece::Piece;
use crate::messages::request::Request;
use crate::messages::unchoke::Unchoke;
use crate::messages::{be32, be32_at, lemma_be32, read_u32};
use crate::serializer::Serializer;
use crate::text::text;

verus! {

/// A message of the peer wire protocol.
#[derive(Debug)]
pub enum Frame {
    Handshake(Handshake),
    KeepAlive(KeepAlive),
    Choke(Choke),
    Unchoke(Unchoke),
    Interested(Interested),
    NotInterested(NotInterested),
    Have(Have),
    Bitfield(Bitfield),
    Request(Request),
    Piece(Piece),
    Cancel(Cancel),
}

/// Model of a frame: its kind and the values it carries.
pub enum FrameModel {
    /// Info hash and peer ID.
    Handshake(Seq<u8>, Seq<u8>),
    KeepAlive,
    Choke,
    Unchoke,
    Interested,
    NotInterested,
    /// Piece index.
    Have(u32),
    /// Bytes of the bitfield and number of pieces.
    Bitfield(Seq<u8>, int),
    /// Piece index, block begin and block length.
    Request(u32, u32, u32),
    /// Piece index, block begin and block.
    Piece(u32, u32, Seq<u8>),
    /// Piece index, block begin and block length.
    Cancel(u32, u32, u32),
}

/// The errors of frame parsing.
pub enum ParseErr {
    /// Not enough data yet, with what was being read.
    Incomplete(Seq<char>),
    MsgToLarge,
    InvalidProtocolId,
    UnknownId(u8),
}

impl Frame {
    /// The model of the frame.
    pub open spec fn model(&self) -> FrameModel {
        match self {
            Frame::Handshake(m) => FrameModel::Handshake(m.info_hash@, m.peer_id@),
            Frame::KeepAlive(_) => FrameModel::KeepAlive,
            Frame::Choke(_) => FrameModel::Choke,
            Frame::Unchoke(_) => FrameModel::Unchoke,
            Frame::Interested(_) => FrameModel::Interested,
            Frame::NotInterested(_) => FrameModel::NotInterested,
            Frame::Have(m) => FrameModel::Have(m.piece_index),
            Frame::Bitfield(m) => FrameModel::Bitfield(m.pieces_bytes@, m.pieces_num as int),
            Frame::Request(m) => FrameModel::Request(m.piece_index, m.block_begin, m.block_length),
            Frame::Piece(m) => FrameModel::Piece(m.piece_index, m.block_begin, m.block@),
            Frame::Cancel(m) => FrameModel::Cancel(m.piece_index, m.block_begin, m.block_length),
        }
    }
}

/// Whether an error is the one a parse error stands for.
pub open spec fn err_matches(e: Error, pe: ParseErr) -> bool {
    match pe {
        ParseErr::Incomplete(what) => is_incomplete(e, what),
        ParseErr::MsgToLarge => e == Error::MsgToLarge,
        ParseErr::InvalidProtocolId => e == Error::InvalidProtocolId,
        ParseErr::UnknownId(id) => e == Error::UnknownId(id),
    }
}

/// Whether a parse result is the one the model gives.
pub open spec fn parse_matches(r: (Result<Frame, Error>, usize), sr: (Result<FrameModel, ParseErr>, int)) -> bool {
    r.1 == sr.1 && match (r.0, sr.0) {
        (Ok(f), Ok(m)) => f.model() == m,
        (Err(e), Err(pe)) => err_matches(e, pe),
        _ => false,
    }
}

/// A message that is only an ID: recognised where the length is one.
pub open spec fn id_only(length: int, m: FrameModel, name: Seq<char>) -> (Result<FrameModel, ParseErr>, int) {
    if length == 1 {
        (Ok(m), 5)
    } else {
        (Err(ParseErr::Incomplete(name)), 0)
    }
}

/// The frame at the start of a buffer, with the number of bytes it takes.
/// An error leaves the buffer as it is (0 bytes), but for a message of
/// unknown kind, which is skipped.
pub open spec fn spec_parse(s: Seq<u8>) -> (Result<FrameModel, ParseErr>, int) {
    if s.len() < 4 {
        (Err(ParseErr::Incomplete("Message length getter"@)), 0)
    } else if be32_at(s, 0) == 0 {
        (Ok(FrameModel::KeepAlive), 4)
    } else if s.len() < 5 {
        (Err(ParseErr::Incomplete("Message ID getter"@)), 0)
    } else {
        let length = be32_at(s, 0);
        let id = s[4];
        let avail = s.len() as int;
        if id != 84 && length > 65536 {
            (Err(ParseErr::MsgToLarge), 0)
        } else if id == 84 {
            if s[0] != 19 {
                (Err(ParseErr::InvalidProtocolId), 0)
            } else if avail < 68 {
                (Err(ParseErr::Incomplete("Handshake"@)), 0)
            } else if s.subrange(1, 20) != protocol_id() {
                (Err(ParseErr::InvalidProtocolId), 0)
            } else {
                (Ok(FrameModel::Handshake(s.subrange(28, 48), s.subrange(48, 68))), 68)
            }
        } else if id == 0 {
            id_only(length, FrameModel::Choke, "Choke"@)
        } else if id == 1 {
            id_only(length, FrameModel::Unchoke, "Unchoke"@)
        } else if id == 2 {
            id_only(length, FrameModel::Interested, "Interested"@)
        } else if id == 3 {
            id_only(length, FrameModel::NotInterested, "NotInterested"@)
        } else if id == 4 {
            if length == 5 && avail >= 9 {
                (Ok(FrameModel::Have(be32_at(s, 5) as u32)), 9)
            } else {
                (Err(ParseErr::Incomplete("Have"@)), 0)
            }
        } else if id == 5 {
            if avail >= 4 + length {
                (Ok(FrameModel::Bitfield(s.subrange(5, 4 + length), 8 * (length - 1))), 4 + length)
            } else {
                (Err(ParseErr::Incomplete("Bitfield"@)), 0)
            }
        } else if id == 6 {
            if length == 13 && avail >= 17 {
                (
                    Ok(
                        FrameModel::Request(
                            be32_at(s, 5) as u32,
                            be32_at(s, 9) as u32,
                            be32_at(s, 13) as u32,
                        ),
                    ),
                    17,
                )
            } else {
                (Err(ParseErr::Incomplete("Request"@)), 0)
            }
        } else if id == 7 {
            if length >= 9 && avail >= 4 + length {
                (
                    Ok(
                        FrameModel::Piece(
                            be32_at(s, 5) as u32,
                            be32_at(s, 9) as u32,
                            s.subrange(13, 4 + length),
                        ),
                    ),
                    4 + length,
                )
            } else {
                (Err(ParseErr::Incomplete("Piece"@)), 0)
            }
        } else if id == 8 {
            if length == 13 && avail >= 17 {
                (
                    Ok(
                        FrameModel::Cancel(
                            be32_at(s, 5) as u32,
                            be32_at(s, 9) as u32,
                            be32_at(s, 13) as u32,
                        ),
                    ),
                    17,
                )
            } else {
                (Err(ParseErr::Incomplete("Cancel"@)), 0)
            }
        } else {
            (Err(ParseErr::UnknownId(id)), 4 + length)
        }
    }
}


/// The integer read where the bytes of `n` stand is `n`.
proof fn lemma_be32_in(s: Seq<u8>, i: int, n: u32)
    requires
        0 <= i,
        i + 4 <= s.len(),
        s.subrange(i, i + 4) == be32(n),
    ensures
        be32_at(s, i) == n,
{
    lemma_be32(n);
    assert(s[i] == be32(n)[0]);
    assert(s[i + 1] == be32(n)[1]);
    assert(s[i + 2] == be32(n)[2]);
    assert(s[i + 3] == be32(n)[3]);
}

/// A keep-alive message is recognised at the start of a buffer that
/// begins with its bytes, whatever follows them.
pub proof fn lemma_parse_keep_alive(m: KeepAlive, rest: Seq<u8>)
    ensures
        spec_parse(m.wire() + rest) == (Ok::<FrameModel, ParseErr>(FrameModel::KeepAlive), 4int),
{
    let w = m.wire() + rest;
    lemma_be32(0);
    assert(w.subrange(0, 4) =~= be32(0));
    lemma_be32_in(w, 0, 0);
}

/// A choke message is recognised at the start of a buffer that
/// begins with its bytes, whatever follows them.
pub proof fn lemma_parse_choke(m: Choke, rest: Seq<u8>)
    ensures
        spec_parse(m.wire() + rest) == (Ok::<FrameModel, ParseErr>(FrameModel::Choke), 5int),
{
    let w = m.wire() + rest;
    assert(w.subrange(0, 4) =~= be32(1));
    lemma_be32_in(w, 0, 1);
}

/// An unchoke message is recognised at the start of a buffer that
/// begins with its bytes, whatever follows them.
pub proof fn lemma_parse_unchoke(m: Unchoke, rest: Seq<u8>)
    ensures
        spec_parse(m.wire() + rest) == (Ok::<FrameModel, ParseErr>(FrameModel::Unchoke), 5int),
{
    let w = m.wire() + rest;
    assert(w.subrange(0, 4) =~= be32(1));
    lemma_be32_in(w, 0, 1);
}

/// An interested message is recognised at the start of a buffer that
/// begins with its bytes, whatever follows them.
pub proof fn lemma_parse_interested(m: Interested, rest: Seq<u8>)
    ensures
        spec_parse(m.wire() + rest) == (Ok::<FrameModel, ParseErr>(FrameModel::Interested), 5int),
{
    let w = m.wire() + rest;
    assert(w.subrange(0, 4) =~= be32(1));
    lemma_be32_in(w, 0, 1);
}

/// A not-interested message is recognised at the start of a buffer that
/// begins with its bytes, whatever follows them.
pub proof fn lemma_parse_not_interested(m: NotInterested, rest: Seq<u8>)
    ensures
        spec_parse(m.wire() + rest) == (Ok::<FrameModel, ParseErr>(FrameModel::NotInterested), 5int),
{
    let w = m.wire() + rest;
    assert(w.subrange(0, 4) =~= be32(1));
    lemma_be32_in(w, 0, 1);
}

/// A have message is read back from a buffer that begins with its
/// bytes, whatever follows them.
pub proof fn lemma_parse_have(m: Have, rest: Seq<u8>)
    ensures
        spec_parse(m.wire() + rest) == (Ok::<FrameModel, ParseErr>(FrameModel::Have(m.piece_index)), 9int),
{
    let w = m.wire() + rest;
    lemma_be32(5);
    lemma_be32(m.piece_index);
    assert(w.subrange(0, 4) =~= be32(5));
    assert(w.subrange(5, 9) =~= be32(m.piece_index));
    lemma_be32_in(w, 0, 5);
    lemma_be32_in(w, 5, m.piece_index);
}

/// A request message is read back from a buffer that begins with its
/// bytes, whatever follows them.
pub proof fn lemma_parse_request(m: Request, rest: Seq<u8>)
    ensures
        spec_parse(m.wire() + rest) == (Ok::<FrameModel, ParseErr>(
            FrameModel::Request(m.piece_index, m.block_begin, m.block_length),
        ), 17int),
{
    let w = m.wire() + rest;
    lemma_be32(13);
    lemma_be32(m.piece_index);
    lemma_be32(m.block_begin);
    lemma_be32(m.block_length);
    assert(w.subrange(0, 4) =~= be32(13));
    assert(w.subrange(5, 9) =~= be32(m.piece_index));
    assert(w.subrange(9, 13) =~= be32(m.block_begin));
    assert(w.subrange(13, 17) =~= be32(m.block_length));
    lemma_be32_in(w, 0, 13);
    lemma_be32_in(w, 5, m.piece_index);
    lemma_be32_in(w, 9, m.block_begin);
    lemma_be32_in(w, 13, m.block_length);
}

/// A cancel message is read back from a buffer that begins with its
/// bytes, whatever follows them.
pub proof fn lemma_parse_cancel(m: Cancel, rest: Seq<u8>)
    ensures
        spec_parse(m.wire() + rest) == (Ok::<FrameModel, ParseErr>(
            FrameModel::Cancel(m.piece_index, m.block_begin, m.block_length),
        ), 17int),
{
    let w = m.wire() + rest;
    lemma_be32(13);
    lemma_be32(m.piece_index);
    lemma_be32(m.block_begin);
    lemma_be32(m.block_length);
    assert(w.subrange(0, 4) =~= be32(13));
    assert(w.subrange(5, 9) =~= be32(m.piece_index));
    assert(w.subrange(9, 13) =~= be32(m.block_begin));
    assert(w.subrange(13, 17) =~= be32(m.block_length));
    lemma_be32_in(w, 0, 13);
    lemma_be32_in(w, 5, m.piece_index);
    lemma_be32_in(w, 9, m.block_begin);
    lemma_be32_in(w, 13, m.block_length);
}

/// A piece message whose frame fits the size limit is read back from a
/// buffer that begins with its bytes, whatever follows them.
pub proof fn lemma_parse_piece(m: Piece, rest: Seq<u8>)
    requires
        m.block@.len() <= 65536 - 9,
    ensures
        spec_parse(m.wire() + rest) == (Ok::<FrameModel, ParseErr>(
            FrameModel::Piece(m.piece_index, m.block_begin, m.block@),
        ), 13 + m.block@.len() as int),
{
    let w = m.wire() + rest;
    let len = (9 + m.block@.len()) as u32;
    lemma_be32(len);
    lemma_be32(m.piece_index);
    lemma_be32(m.block_begin);
    assert(w.subrange(0, 4) =~= be32(len));
    assert(w.subrange(5, 9) =~= be32(m.piece_index));
    assert(w.subrange(9, 13) =~= be32(m.block_begin));
    assert(w.subrange(13, 13 + m.block@.len() as int) =~= m.block@);
    lemma_be32_in(w, 0, len);
    lemma_be32_in(w, 5, m.piece_index);
    lemma_be32_in(w, 9, m.block_begin);
}

/// A bitfield message whose frame fits the size limit is read back from
/// a buffer that begins with its bytes, whatever follows them, as a
/// bitfield of every bit its bytes hold.
pub proof fn lemma_parse_bitfield(m: Bitfield, rest: Seq<u8>)
    requires
        m.pieces_bytes@.len() <= 65536 - 1,
    ensures
        spec_parse(m.wire() + rest) == (Ok::<FrameModel, ParseErr>(
            FrameModel::Bitfield(m.pieces_bytes@, 8 * m.pieces_bytes@.len() as int),
        ), 5 + m.pieces_bytes@.len() as int),
{
    let w = m.wire() + rest;
    let len = (1 + m.pieces_bytes@.len()) as u32;
    lemma_be32(len);
    assert(w.subrange(0, 4) =~= be32(len));
    assert(w.subrange(5, 5 + m.pieces_bytes@.len() as int) =~= m.pieces_bytes@);
    lemma_be32_in(w, 0, len);
}

/// A handshake is read back from a buffer that begins with its
/// bytes, whatever follows them.
pub proof fn lemma_parse_handshake(m: Handshake, rest: Seq<u8>)
    ensures
        spec_parse(m.wire() + rest) == (Ok::<FrameModel, ParseErr>(
            FrameModel::Handshake(m.info_hash@, m.peer_id@),
        ), 68int),
{
    let w = m.wire() + rest;
    assert(w.subrange(1, 20) =~= protocol_id());
    assert(w.subrange(28, 48) =~= m.info_hash@);
    assert(w.subrange(48, 68) =~= m.peer_id@);
    assert(w[4] == 84);
    assert(be32_at(w, 0) != 0);
}

impl Frame {
    /// Recognises the frame at the start of a buffer. Returns it with the
    /// number of bytes it takes; on an error, 0 bytes, except for a message
    /// of unknown kind, whose length is returned so that it can be skipped.
    pub fn parse(buffer: &[u8]) -> (r: (Result<Frame, Error>, usize))
        ensures
            parse_matches(r, spec_parse(buffer@)),
    {
        let length = match Self::get_message_length(buffer) {
            Ok(l) => l,
            Err(e) => return (Err(e), 0),
        };
        if length == KeepAlive::LEN as usize {
            return (Ok(Frame::KeepAlive(KeepAlive {})), KeepAlive::FULL_SIZE);
        }
        let msg_id = match Self::get_message_id(buffer) {
            Ok(id) => id,
            Err(e) => return (Err(e), 0),
        };
        if msg_id != Handshake::ID_FROM_PROTOCOL && length > 65536 {
            return (Err(Error::MsgToLarge), 0);
        }
        let protocol_id_length = match Self::get_protocol_id_length(buffer) {
            Ok(l) => l,
            Err(e) => return (Err(e), 0),
        };
        let available_data = Self::available_data(buffer);
        if msg_id == Handshake::ID_FROM_PROTOCOL {
            match Handshake::check(buffer, protocol_id_length, available_data) {
                Ok(p) => (Ok(Frame::Handshake(Handshake::from(buffer))), p),
                Err(e) => (Err(e), 0),
            }
        } else if msg_id == Choke::ID {
            match Choke::check(length) {
                Ok(p) => (Ok(Frame::Choke(Choke {})), p),
                Err(e) => (Err(e), 0),
            }
        } else if msg_id == Unchoke::ID {
            match Unchoke::check(length) {
                Ok(p) => (Ok(Frame::Unchoke(Unchoke {})), p),
                Err(e) => (Err(e), 0),
            }
        } else if msg_id == Interested::ID {
            match Interested::check(length) {
                Ok(p) => (Ok(Frame::Interested(Interested {})), p),
                Err(e) => (Err(e), 0),
            }
        } else if msg_id == NotInterested::ID {
            match NotInterested::check(length) {
                Ok(p) => (Ok(Frame::NotInterested(NotInterested {})), p),
                Err(e) => (Err(e), 0),
            }
        } else if msg_id == Have::ID {
            match Have::check(available_data, length) {
                Ok(p) => (Ok(Frame::Have(Have::from(buffer))), p),
                Err(e) => (Err(e), 0),
            }
        } else if msg_id == Bitfield::ID {
            match Bitfield::check(available_data, length) {
                Ok(p) => (Ok(Frame::Bitfield(Bitfield::from(buffer, p, 8 * (length - 1)))), p),
                Err(e) => (Err(e), 0),
            }
        } else if msg_id == Request::ID {
            match Request::check(available_data, length) {
                Ok(p) => (Ok(Frame::Request(Request::from(buffer))), p),
                Err(e) => (Err(e), 0),
            }
        } else if msg_id == Piece::ID {
            match Piece::check(available_data, length) {
                Ok(p) => (Ok(Frame::Piece(Piece::from(buffer, p))), p),
                Err(e) => (Err(e), 0),
            }
        } else if msg_id == Cancel::ID {
            match Cancel::check(available_data, length) {
                Ok(p) => (Ok(Frame::Cancel(Cancel::from(buffer))), p),
                Err(e) => (Err(e), 0),
            }
        } else {
            (Err(Error::UnknownId(msg_id)), 4 + length)
        }
    }

    fn get_protocol_id_length(buffer: &[u8]) -> (r: Result<usize, Error>)
        ensures
            buffer@.len() >= 1 ==> r == Ok::<usize, Error>(buffer@[0] as usize),
            buffer@.len() < 1 ==> r is Err && is_incomplete(r->Err_0, "Protocol ID getter"@),
    {
        if buffer.len() >= 1 {
            Ok(buffer[0] as usize)
        } else {
            Err(Error::Incomplete(text("Protocol ID getter")))
        }
    }

    fn get_message_length(buffer: &[u8]) -> (r: Result<usize, Error>)
        ensures
            buffer@.len() >= 4 ==> r == Ok::<usize, Error>(be32_at(buffer@, 0) as usize),
            buffer@.len() < 4 ==> r is Err && is_incomplete(r->Err_0, "Message length getter"@),
    {
        if buffer.len() >= 4 {
            Ok(read_u32(buffer, 0) as usize)
        } else {
            Err(Error::Incomplete(text("Message length getter")))
        }
    }

    fn get_message_id(buffer: &[u8]) -> (r: Result<u8, Error>)
        ensures
            buffer@.len() >= 5 ==> r == Ok::<u8, Error>(buffer@[4]),
            buffer@.len() < 5 ==> r is Err && is_incomplete(r->Err_0, "Message ID getter"@),
    {
        if buffer.len() >= 5 {
            Ok(buffer[4])
        } else {
            Err(Error::Incomplete(text("Message ID getter")))
        }
    }

    fn available_data(buffer: &[u8]) -> (r: usize)
        ensures
            r == buffer@.len(),
    {
        buffer.len()
    }
}

} // verus!

//! Errors of the library.

use vstd::prelude::*;

use crate::text::{append_dec, dec_chars, text};

verus! {

/// rdest lib errors
#[derive(PartialEq, Clone, Debug)]
pub enum Error {
    /// To avoid exhaustion of RAM by a peer, a message is limited to 65536 bytes.
    MsgToLarge,
    /// Not supported ID message (probably from a not supported extension).
    UnknownId(u8),
    /// Incomplete message (the message name as argument).
    Incomplete(String),
    /// Invalid protocol ID in Handshake message.
    InvalidProtocolId,
    /// Peer returned an invalid info hash in Handshake message.
    InvalidInfoHash,
    /// Peer returned a peer ID other than expected in Handshake message.
    InvalidPeerId,
    /// Invalid length of Piece or Request message (different than requested).
    InvalidLength(String),
    /// Invalid index (different than requested by peer).
    InvalidIndex(String),
    /// Invalid piece index in a message.
    InvalidPieceIndex(String),
    /// Can't load piece file.
    FileNotFound,
    /// Peer not found in manager.
    PeerNotFound,
    /// Piece not requested by client.
    PieceNotRequested,
    /// Piece not loaded by handler.
    PieceNotLoaded,
    /// Piece block out of range.
    PieceOutOfRange,
    /// Missing piece buffer on requested message.
    PieceBuffMissing,
    /// Piece hash mismatch.
    PieceHashMismatch,
    /// Peer sent a block that was not requested.
    BlockNotRequested,
    /// Peer doesn't send any message, keep-alive trigger.
    KeepAliveTimeout,
    /// Missing info field to calculate hash.
    InfoMissing,
    /// Can't read from socket.
    CantReadFromSocket,
    /// Socket not available.
    SocketNotAvailable,
    /// Connection reset.
    ConnectionReset,
    /// Connection closed.
    ConnectionClosed,
    /// The decoder met an unexpected end character (where, position).
    DecodeUnexpectedChar(String, usize),
    /// The decoder met an incorrect character (where, position).
    DecodeIncorrectChar(String, usize),
    /// The decoder could not convert to a number (where, target, position).
    DecodeUnableConvert(String, String, usize),
    /// Not enough characters to decode (where, position).
    DecodeNotEnoughChars(String, usize),
    /// The terminating `e` is missing (where, position).
    DecodeMissingTerminalChars(String, usize),
    /// An integer with a superfluous leading zero (where, position).
    DecodeLeadingZero(String, usize),
    /// A dictionary with an odd number of elements (where, position).
    DecodeOddNumOfElements(String, usize),
    /// A dictionary key that is not a string (where, position).
    DecodeKeyNotString(String, usize),
    /// Bencode decoding error, with its message.
    Decode(String),
    /// Missing bencoded data to decode tracker response.
    TrackerBEncodeMissing,
    /// Not enough data in tracker response.
    TrackerDataMissing,
    /// Incorrect or missing fields in tracker response.
    TrackerIncorrectOrMissing(String),
    /// Tracker replied with an error.
    TrackerRespFail(String),
    /// Missing metainfo file.
    MetaFileNotFound,
    /// Missing bencoded data in metainfo.
    MetaBEncodeMissing,
    /// Missing data in metainfo.
    MetaDataMissing,
    /// Mutually exclusive length and files in metafile.
    MetaLenAndFilesConflict,
    /// Missing length or files in metafile.
    MetaLenOrFilesMissing,
    /// Can't convert metainfo fields to UTF-8.
    MetaInvalidUtf8(String),
    /// Missing field in metainfo.
    MetaIncorrectOrMissing(String),
    /// Can't convert metainfo field to u64.
    MetaInvalidU64(String),
    /// Not enough data to extract SHA-1 hashes.
    MetaNotDivisible(String),
}

/// Whether `e` is `Incomplete` with the message name `what`.
pub open spec fn is_incomplete(e: Error, what: Seq<char>) -> bool {
    e matches Error::Incomplete(m) && m@ == what
}

/// Whether `e` is `InvalidLength` with the message name `what`.
pub open spec fn is_invalid_length(e: Error, what: Seq<char>) -> bool {
    e matches Error::InvalidLength(m) && m@ == what
}

/// Whether `e` is `InvalidPieceIndex` with the message name `what`.
pub open spec fn is_invalid_piece_index(e: Error, what: Seq<char>) -> bool {
    e matches Error::InvalidPieceIndex(m) && m@ == what
}

/// The text that describes an error.
pub open spec fn error_text(e: Error) -> Seq<char> {
    match e {
        Error::MsgToLarge => "Message to large"@,
        Error::UnknownId(id) => "Unknown Id("@ + dec_chars(id as nat) + ")"@,
        Error::Incomplete(s) => "Incomplete "@ + s@,
        Error::InvalidProtocolId => "Invalid protocol Id"@,
        Error::InvalidInfoHash => "Invalid info hash"@,
        Error::InvalidPeerId => "Invalid peer Id"@,
        Error::InvalidLength(s) => "Invalid length in "@ + s@,
        Error::InvalidIndex(s) => "Invalid index in "@ + s@,
        Error::InvalidPieceIndex(s) => "Invalid piece index in "@ + s@,
        Error::FileNotFound => "File not found"@,
        Error::PeerNotFound => "Peer not found"@,
        Error::PieceNotRequested => "Piece not requested"@,
        Error::PieceNotLoaded => "Piece not loaded"@,
        Error::PieceOutOfRange => "Piece out of range"@,
        Error::PieceBuffMissing => "Piece buff missing"@,
        Error::PieceHashMismatch => "Piece hash mismatch"@,
        Error::BlockNotRequested => "Block not requested"@,
        Error::KeepAliveTimeout => "Keep alive timeout"@,
        Error::InfoMissing => "Info field missing"@,
        Error::CantReadFromSocket => "Can't read from socket"@,
        Error::SocketNotAvailable => "Socket not available"@,
        Error::ConnectionReset => "Connection reset by peer"@,
        Error::ConnectionClosed => "Connection closed by peer"@,
        Error::DecodeUnexpectedChar(w, p) => w@ + ", unexpected end character at "@ + dec_chars(p as nat),
        Error::DecodeIncorrectChar(w, p) => w@ + ", incorrect character at "@ + dec_chars(p as nat),
        Error::DecodeUnableConvert(w, n, p) => w@ + ", unable convert to "@ + n@ + " at "@ + dec_chars(p as nat),
        Error::DecodeNotEnoughChars(w, p) => w@ + ", not enough characters at "@ + dec_chars(p as nat),
        Error::DecodeMissingTerminalChars(w, p) => w@ + ", missing terminate character at "@ + dec_chars(p as nat),
        Error::DecodeLeadingZero(w, p) => w@ + ", leading zero at "@ + dec_chars(p as nat),
        Error::DecodeOddNumOfElements(w, p) => w@ + ", odd number of elements at "@ + dec_chars(p as nat),
        Error::DecodeKeyNotString(w, p) => w@ + ", key is not string at "@ + dec_chars(p as nat),
        Error::Decode(s) => "Decode error: "@ + s@,
        Error::TrackerBEncodeMissing => "Tracker, bencode is missing"@,
        Error::TrackerDataMissing => "Tracker, data is missing"@,
        Error::TrackerIncorrectOrMissing(s) => "Tracker, incorrect or missing '"@ + s@ + "' value"@,
        Error::TrackerRespFail(s) => "Tracker fail: "@ + s@,
        Error::MetaFileNotFound => "Metainfo, file not found"@,
        Error::MetaBEncodeMissing => "Metainfo, bencode is missing"@,
        Error::MetaDataMissing => "Metainfo, data is missing"@,
        Error::MetaLenAndFilesConflict => "Metainfo, conflicting 'length' and 'files' values present. Only one is allowed"@,
        Error::MetaLenOrFilesMissing => "Metainfo, missing 'length' or 'files'"@,
        Error::MetaInvalidUtf8(s) => "Metainfo, Can't convert '"@ + s@ + "' to UTF-8"@,
        Error::MetaIncorrectOrMissing(s) => "Metainfo, incorrect or missing '"@ + s@ + "' value"@,
        Error::MetaInvalidU64(s) => "Metainfo, can't convert '"@ + s@ + "' to u64"@,
        Error::MetaNotDivisible(s) => "Metainfo, '"@ + s@ + "' not divisible by 20"@,
    }
}

impl Error {
    /// The text that describes the error.
    pub fn message(&self) -> (r: String)
        ensures
            r@ == error_text(*self),
    {
        match self {
            Error::MsgToLarge => text("Message to large"),
            Error::UnknownId(id) => {
                let mut m = text("Unknown Id(");
                append_dec(&mut m, *id as u64);
                m.append(")");
                m
            },
            Error::Incomplete(s) => {
                let mut m = text("Incomplete ");
                m.append(s.as_str());
                m
            },
            Error::InvalidProtocolId => text("Invalid protocol Id"),
            Error::InvalidInfoHash => text("Invalid info hash"),
            Error::InvalidPeerId => text("Invalid peer Id"),
            Error::InvalidLength(s) => {
                let mut m = text("Invalid length in ");
                m.append(s.as_str());
                m
            },
            Error::InvalidIndex(s) => {
                let mut m = text("Invalid index in ");
                m.append(s.as_str());
                m
            },
            Error::InvalidPieceIndex(s) => {
                let mut m = text("Invalid piece index in ");
                m.append(s.as_str());
                m
            },
            Error::FileNotFound => text("File not found"),
            Error::PeerNotFound => text("Peer not found"),
            Error::PieceNotRequested => text("Piece not requested"),
            Error::PieceNotLoaded => text("Piece not loaded"),
            Error::PieceOutOfRange => text("Piece out of range"),
            Error::PieceBuffMissing => text("Piece buff missing"),
            Error::PieceHashMismatch => text("Piece hash mismatch"),
            Error::BlockNotRequested => text("Block not requested"),
            Error::KeepAliveTimeout => text("Keep alive timeout"),
            Error::InfoMissing => text("Info field missing"),
            Error::CantReadFromSocket => text("Can't read from socket"),
            Error::SocketNotAvailable => text("Socket not available"),
            Error::ConnectionReset => text("Connection reset by peer"),
            Error::ConnectionClosed => text("Connection closed by peer"),
            Error::DecodeUnexpectedChar(w, p) => {
                let mut m = w.clone();
                m.append(", unexpected end character at ");
                append_dec(&mut m, *p as u64);
                m
            },
            Error::DecodeIncorrectChar(w, p) => {
                let mut m = w.clone();
                m.append(", incorrect character at ");
                append_dec(&mut m, *p as u64);
                m
            },
            Error::DecodeUnableConvert(w, n, p) => {
                let mut m = w.clone();
                m.append(", unable convert to ");
                m.append(n.as_str());
                m.append(" at ");
                append_dec(&mut m, *p as u64);
                m
            },
            Error::DecodeNotEnoughChars(w, p) => {
                let mut m = w.clone();
                m.append(", not enough characters at ");
                append_dec(&mut m, *p as u64);
                m
            },
            Error::DecodeMissingTerminalChars(w, p) => {
                let mut m = w.clone();
                m.append(", missing terminate character at ");
                append_dec(&mut m, *p as u64);
                m
            },
            Error::DecodeLeadingZero(w, p) => {
                let mut m = w.clone();
                m.append(", leading zero at ");
                append_dec(&mut m, *p as u64);
                m
            },
            Error::DecodeOddNumOfElements(w, p) => {
                let mut m = w.clone();
                m.append(", odd number of elements at ");
                append_dec(&mut m, *p as u64);
                m
            },
            Error::DecodeKeyNotString(w, p) => {
                let mut m = w.clone();
                m.append(", key is not string at ");
                append_dec(&mut m, *p as u64);
                m
            },
            Error::Decode(s) => {
                let mut m = text("Decode error: ");
                m.append(s.as_str());
                m
            },
            Error::TrackerBEncodeMissing => text("Tracker, bencode is missing"),
            Error::TrackerDataMissing => text("Tracker, data is missing"),
            Error::TrackerIncorrectOrMissing(s) => {
                let mut m = text("Tracker, incorrect or missing '");
                m.append(s.as_str());
                m.append("' value");
                m
            },
            Error::TrackerRespFail(s) => {
                let mut m = text("Tracker fail: ");
                m.append(s.as_str());
                m
            },
            Error::MetaFileNotFound => text("Metainfo, file not found"),
            Error::MetaBEncodeMissing => text("Metainfo, bencode is missing"),
            Error::MetaDataMissing => text("Metainfo, data is missing"),
            Error::MetaLenAndFilesConflict => text("Metainfo, conflicting 'length' and 'files' values present. Only one is allowed"),
            Error::MetaLenOrFilesMissing => text("Metainfo, missing 'length' or 'files'"),
            Error::MetaInvalidUtf8(s) => {
                let mut m = text("Metainfo, Can't convert '");
                m.append(s.as_str());
                m.append("' to UTF-8");
                m
            },
            Error::MetaIncorrectOrMissing(s) => {
                let mut m = text("Metainfo, incorrect or missing '");
                m.append(s.as_str());
                m.append("' value");
                m
            },
            Error::MetaInvalidU64(s) => {
                let mut m = text("Metainfo, can't convert '");
                m.append(s.as_str());
                m.append("' to u64");
                m
            },
            Error::MetaNotDivisible(s) => {
                let mut m = text("Metainfo, '");
                m.append(s.as_str());
                m.append("' not divisible by 20");
                m
            },
        }
    }
}

} // verus!

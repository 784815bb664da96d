//! A BitTorrent client library: bencode decoding, encoding and searching,
//! metainfo and tracker response extraction, and the peer wire messages.

pub mod bcodec;
pub mod commands;
pub mod connection;
pub mod constants;
pub mod created;
pub mod digest;
pub mod error;
pub mod frame;
pub mod handler;
pub mod messages;
pub mod metainfo;
pub mod peer;
pub mod peer_id;
pub mod progress_view;
pub mod random;
pub mod serializer;
pub mod session;
pub mod text;
pub mod torrent;
pub mod tracker;
pub mod tracker_resp;
pub mod utils;

pub use crate::bcodec::bdecoder::BDecoder;
pub use crate::bcodec::bencoder::BEncoder;
pub use crate::bcodec::bvalue::BValue;
pub use crate::error::Error;
pub use crate::bcodec::deep_finder::DeepFinder;
pub use crate::bcodec::raw_finder::RawFinder;
pub use crate::frame::Frame;
pub use crate::metainfo::{File, Metainfo, PiecePos};
pub use crate::peer::{Peer, Status};
pub use crate::session::Session;
pub use crate::tracker_resp::{PeerAddr, TrackerResp};

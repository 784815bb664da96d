use rdest::connection::parse_frame;
use rdest::messages::bitfield::Bitfield;
use rdest::messages::cancel::Cancel;
use rdest::messages::choke::Choke;
use rdest::messages::handshake::Handshake;
use rdest::messages::have::Have;
use rdest::messages::interested::Interested;
use rdest::messages::keep_alive::KeepAlive;
use rdest::messages::not_interested::NotInterested;
use rdest::messages::piece::Piece;
use rdest::messages::request::Request;
use rdest::messages::unchoke::Unchoke;
use rdest::serializer::Serializer;
use rdest::{Error, Frame};

#[test]
fn keep_alive_bytes_and_parse() {
    let data = KeepAlive::new().data();
    assert_eq!(data, vec![0, 0, 0, 0]);
    let (r, n) = Frame::parse(&data);
    assert!(matches!(r, Ok(Frame::KeepAlive(_))));
    assert_eq!(n, 4);
}

#[test]
fn choke_family_bytes_and_parse() {
    assert_eq!(Choke::new().data(), vec![0, 0, 0, 1, 0]);
    assert_eq!(Unchoke::new().data(), vec![0, 0, 0, 1, 1]);
    assert_eq!(Interested::new().data(), vec![0, 0, 0, 1, 2]);
    assert_eq!(NotInterested::new().data(), vec![0, 0, 0, 1, 3]);
    assert!(matches!(Frame::parse(&Choke::new().data()), (Ok(Frame::Choke(_)), 5)));
    assert!(matches!(Frame::parse(&Unchoke::new().data()), (Ok(Frame::Unchoke(_)), 5)));
    assert!(matches!(Frame::parse(&Interested::new().data()), (Ok(Frame::Interested(_)), 5)));
    assert!(matches!(
        Frame::parse(&NotInterested::new().data()),
        (Ok(Frame::NotInterested(_)), 5)
    ));
}

#[test]
fn have_roundtrip() {
    let data = Have::new(0x01020304).data();
    assert_eq!(data, vec![0, 0, 0, 5, 4, 1, 2, 3, 4]);
    match Frame::parse(&data) {
        (Ok(Frame::Have(h)), 9) => assert_eq!(h.piece_index(), 0x01020304),
        other => panic!("unexpected {:?}", other),
    }
}

#[test]
fn have_validate() {
    assert_eq!(Have::new(3).validate(4), Ok(()));
    assert_eq!(
        Have::new(4).validate(4),
        Err(Error::InvalidPieceIndex("Have".into()))
    );
}

#[test]
fn request_roundtrip() {
    let data = Request::new(1, 16384, 16384).data();
    assert_eq!(
        data,
        vec![0, 0, 0, 13, 6, 0, 0, 0, 1, 0, 0, 64, 0, 0, 0, 64, 0]
    );
    match Frame::parse(&data) {
        (Ok(Frame::Request(r)), 17) => {
            assert_eq!(r.piece_index(), 1);
            assert_eq!(r.block_begin(), 16384);
            assert_eq!(r.block_length(), 16384);
        }
        other => panic!("unexpected {:?}", other),
    }
}

#[test]
fn request_validate() {
    let r = Request::new(1, 0, 16384);
    assert_eq!(r.validate(1, 2, 32768), Ok(()));
    assert_eq!(
        r.validate(0, 2, 32768),
        Err(Error::InvalidPieceIndex("Request".into()))
    );
    assert_eq!(
        r.validate(1, 1, 32768),
        Err(Error::InvalidPieceIndex("Request".into()))
    );
    assert_eq!(
        Request::new(1, 0, 16385).validate(1, 2, 32768),
        Err(Error::InvalidLength("Request".into()))
    );
    assert_eq!(
        Request::new(1, 20000, 16384).validate(1, 2, 32768),
        Err(Error::InvalidLength("Request".into()))
    );
}

#[test]
fn cancel_roundtrip() {
    let data = Cancel::new(2, 3, 4).data();
    assert_eq!(data, vec![0, 0, 0, 13, 8, 0, 0, 0, 2, 0, 0, 0, 3, 0, 0, 0, 4]);
    match Frame::parse(&data) {
        (Ok(Frame::Cancel(c)), 17) => {
            assert_eq!(c.piece_index, 2);
            assert_eq!(c.block_begin, 3);
            assert_eq!(c.block_length, 4);
        }
        other => panic!("unexpected {:?}", other),
    }
}

#[test]
fn piece_roundtrip() {
    let data = Piece::new(5, 6, vec![9, 8, 7]).data();
    assert_eq!(data, vec![0, 0, 0, 12, 7, 0, 0, 0, 5, 0, 0, 0, 6, 9, 8, 7]);
    match Frame::parse(&data) {
        (Ok(Frame::Piece(p)), 16) => {
            assert_eq!(p.piece_index(), 5);
            assert_eq!(p.block_begin(), 6);
            assert_eq!(p.block_length(), 3);
            assert_eq!(p.block(), &vec![9, 8, 7]);
        }
        other => panic!("unexpected {:?}", other),
    }
}

#[test]
fn piece_validate() {
    let p = Piece::new(5, 6, vec![9, 8, 7]);
    assert_eq!(p.validate(5, 6, 3), Ok(()));
    assert_eq!(p.validate(4, 6, 3), Err(Error::InvalidPieceIndex("Piece".into())));
    assert_eq!(p.validate(5, 7, 3), Err(Error::InvalidPieceIndex("Piece".into())));
    assert_eq!(p.validate(5, 6, 4), Err(Error::InvalidLength("Piece".into())));
}

#[test]
fn bitfield_pack_and_unpack() {
    let flags = vec![true, false, true, true, false, false, false, true, true, false];
    let b = Bitfield::from_vec(&flags);
    assert_eq!(b.pieces_bytes, vec![0b1011_0001, 0b1000_0000]);
    assert_eq!(b.pieces_num, 10);
    assert_eq!(b.to_vec(), flags);
    assert_eq!(b.validate(), Ok(()));
}

#[test]
fn bitfield_roundtrip() {
    let b = Bitfield::from_vec(&vec![false, true, false, false, false, false, false, false]);
    let data = b.data();
    assert_eq!(data, vec![0, 0, 0, 2, 5, 0b0100_0000]);
    match Frame::parse(&data) {
        (Ok(Frame::Bitfield(f)), 6) => {
            assert_eq!(f.pieces_bytes, vec![0b0100_0000]);
            assert_eq!(f.pieces_num, 8);
        }
        other => panic!("unexpected {:?}", other),
    }
}

#[test]
fn bitfield_invalid_length() {
    let b = Bitfield { pieces_bytes: vec![0, 0], pieces_num: 8 };
    assert_eq!(b.validate(), Err(Error::InvalidLength("Bitfield".into())));
}

#[test]
fn handshake_roundtrip() {
    let hash = *b"AAAAABBBBBCCCCCDDDDD";
    let id = *b"-RD0001-123456789012";
    let data = Handshake::new(&hash, &id).data();
    assert_eq!(data.len(), 68);
    assert_eq!(data[0], 19);
    assert_eq!(&data[1..20], b"BitTorrent protocol");
    assert_eq!(&data[20..28], &[0u8; 8]);
    assert_eq!(&data[28..48], &hash);
    assert_eq!(&data[48..68], &id);
    match Frame::parse(&data) {
        (Ok(Frame::Handshake(h)), 68) => {
            assert_eq!(h.info_hash, hash);
            assert_eq!(h.peer_id(), &id);
            assert_eq!(h.validate(&hash, &Some(id)), Ok(()));
            assert_eq!(h.validate(&hash, &None), Ok(()));
            assert_eq!(
                h.validate(b"XXXXXBBBBBCCCCCDDDDD", &None),
                Err(Error::InvalidInfoHash)
            );
            assert_eq!(
                h.validate(&hash, &Some(*b"XXXXXXXXXXXXXXXXXXXX")),
                Err(Error::InvalidPeerId)
            );
        }
        other => panic!("unexpected {:?}", other),
    }
}

#[test]
fn handshake_invalid_protocol_id() {
    let mut data = Handshake::new(&[1; 20], &[2; 20]).data();
    data[0] = 18;
    assert!(matches!(Frame::parse(&data), (Err(Error::InvalidProtocolId), 0)));
}

#[test]
fn handshake_incomplete() {
    let data = Handshake::new(&[1; 20], &[2; 20]).data();
    assert!(matches!(
        Frame::parse(&data[..60]),
        (Err(Error::Incomplete(ref m)), 0) if m == "Handshake"
    ));
}

#[test]
fn frame_incomplete_headers() {
    assert_eq!(
        format!("{:?}", Frame::parse(&[0, 0]).0),
        format!("{:?}", Err::<(), Error>(Error::Incomplete("Message length getter".into())))
    );
    assert!(matches!(
        Frame::parse(&[0, 0, 0, 1]),
        (Err(Error::Incomplete(ref m)), 0) if m == "Message ID getter"
    ));
    assert!(matches!(
        Frame::parse(&[0, 0, 0, 5, 4, 0]),
        (Err(Error::Incomplete(ref m)), 0) if m == "Have"
    ));
    assert!(matches!(
        Frame::parse(&[0, 0, 0, 2, 0, 0]),
        (Err(Error::Incomplete(ref m)), 0) if m == "Choke"
    ));
}

#[test]
fn frame_unknown_id_and_too_large() {
    assert!(matches!(
        Frame::parse(&[0, 0, 0, 3, 20, 1, 2]),
        (Err(Error::UnknownId(20)), 7)
    ));
    assert!(matches!(
        Frame::parse(&[0, 1, 0, 1, 7]),
        (Err(Error::MsgToLarge), 0)
    ));
}

#[test]
fn connection_parse_frame() {
    let mut buf = Have::new(7).data();
    buf.extend_from_slice(&[0, 0, 0]);
    match parse_frame(&buf) {
        (Ok(Some(Frame::Have(h))), 9) => assert_eq!(h.piece_index(), 7),
        other => panic!("unexpected {:?}", other),
    }
    assert!(matches!(parse_frame(&[0, 0, 0, 5, 4]), (Ok(None), 0)));
    assert!(matches!(parse_frame(&[0, 0, 0, 1, 99]), (Ok(None), 5)));
    assert!(matches!(parse_frame(&[0, 1, 0, 1, 7]), (Err(Error::MsgToLarge), 0)));
}

#[test]
fn request_index() {
    assert_eq!(Request::new(9, 0, 1).index(), 9);
}

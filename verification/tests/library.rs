use rdest::bcodec::bdecoder::{decode_values, fault_error, fault_message, DecodeFault, FaultKind};
use rdest::handler::{take_block, BlockOutcome, Outbox, PieceRx, PieceTx, Stats};
use rdest::messages::piece::Piece;
use rdest::progress_view::{Animation, Direction};
use rdest::tracker::{announce_params, create_url};
use rdest::utils::hash_to_string;
use rdest::{BDecoder, BEncoder, BValue, Error, Metainfo, PeerAddr, TrackerResp};

fn one_file_metainfo() -> Metainfo {
    Metainfo::from_bencode(b"d8:announce3:URL4:infod4:name4:NAME12:piece lengthi111e6:pieces20:AAAAABBBBBCCCCCDDDDD6:lengthi222eee").unwrap()
}

#[test]
fn encoder_values() {
    let mut e = BEncoder::new();
    e.add_int(-42).add_byte_str(b"spam").add_list(&vec![BValue::Int(1), BValue::ByteStr(b"a".to_vec())]);
    assert_eq!(e.encode(), &b"i-42e4:spamli1e1:ae".to_vec());
}

#[test]
fn encoder_dict_sorted_and_last_wins() {
    let mut e = BEncoder::new();
    e.add_dict(&vec![
        (b"zz".to_vec(), BValue::Int(1)),
        (b"aa".to_vec(), BValue::Int(2)),
        (b"zz".to_vec(), BValue::Int(3)),
    ]);
    assert_eq!(e.encode(), &b"d2:aai2e2:zzi3ee".to_vec());
}

#[test]
fn decode_of_encode() {
    let v = BValue::Dict(vec![
        (b"list".to_vec(), BValue::List(vec![BValue::Int(0), BValue::Int(-7)])),
        (b"key".to_vec(), BValue::ByteStr(b"value".to_vec())),
    ]);
    let mut e = BEncoder::new();
    e.add_list(&vec![v]);
    let decoded = BDecoder::from_array(e.encode()).unwrap();
    assert_eq!(
        decoded,
        vec![BValue::List(vec![BValue::Dict(vec![
            (b"key".to_vec(), BValue::ByteStr(b"value".to_vec())),
            (b"list".to_vec(), BValue::List(vec![BValue::Int(0), BValue::Int(-7)])),
        ])])]
    );
}

#[test]
fn value_to_text() {
    assert_eq!(BValue::Int(-5).to_text(), "Int: -5");
    assert_eq!(BValue::ByteStr(b"abc".to_vec()).to_text(), "Str: abc");
    assert_eq!(BValue::ByteStr(vec![255, 1]).to_text(), "Str=[255, 1]");
    assert_eq!(
        BValue::List(vec![BValue::Int(1), BValue::ByteStr(b"x".to_vec())]).to_text(),
        "List: [Int: 1, Str: x, ]"
    );
    assert_eq!(
        BValue::Dict(vec![(b"k".to_vec(), BValue::Int(2))]).to_text(),
        "Dict: [Str: k => Int: 2, ]"
    );
}

#[test]
fn hash_in_hexadecimal() {
    let mut hash = [0u8; 20];
    hash[0] = 0xab;
    hash[1] = 0x01;
    hash[19] = 0xf0;
    assert_eq!(
        hash_to_string(&hash),
        "AB010000000000000000000000000000000000F0"
    );
}

#[test]
fn tracker_url_encodes_hash() {
    let m = one_file_metainfo();
    let url = create_url(&m);
    assert_eq!(
        url,
        "URL?info_hash=%DD%95%EC%87%7C%96%06I%EF%7D%2F%D5%CC%95VY%17%AF5%7C"
    );
}

#[test]
fn tracker_params() {
    let m = one_file_metainfo();
    let params = announce_params(b"-RD0001-000000000000", &m).unwrap();
    let expected: Vec<(String, String)> = vec![
        ("peer_id", "-RD0001-000000000000"),
        ("port", "6881"),
        ("uploaded", "0"),
        ("downloaded", "0"),
        ("left", "222"),
        ("event", "started"),
        ("numwant", "20"),
    ]
    .into_iter()
    .map(|(a, b)| (a.to_string(), b.to_string()))
    .collect();
    assert_eq!(params, expected);
    let mut bad = *b"-RD0001-000000000000";
    bad[3] = 0xff;
    assert_eq!(announce_params(&bad, &m), None);
}

#[test]
fn metainfo_pieces_and_positions() {
    let m = one_file_metainfo();
    assert_eq!(m.pieces_num(), 1);
    let ranges = m.file_piece_ranges();
    assert_eq!(ranges.len(), 1);
    assert_eq!(ranges[0].0, "");
    assert_eq!(ranges[0].1, "NAME");
    assert_eq!((ranges[0].2.file_index, ranges[0].2.byte_index), (0, 0));
    assert_eq!((ranges[0].3.file_index, ranges[0].3.byte_index), (2, 0));
}

#[test]
fn metainfo_multi_file_ranges() {
    let m = Metainfo::from_bencode(b"d8:announce3:URL4:infod4:name3:DIR12:piece lengthi10e6:pieces40:AAAAABBBBBCCCCCDDDDDEEEEEFFFFFGGGGGHHHHH5:filesld6:lengthi5e4:path1:aed6:lengthi7e4:path1:beeee").unwrap();
    assert_eq!(m.total_length(), 12);
    assert_eq!(m.piece_length(0), 10);
    assert_eq!(m.piece_length(1), 2);
    assert_eq!(m.piece_length(0) + m.piece_length(1), m.total_length() as usize);
    let ranges = m.file_piece_ranges();
    assert_eq!(ranges.len(), 2);
    assert_eq!((ranges[0].0.as_str(), ranges[0].1.as_str()), ("DIR", "a"));
    assert_eq!((ranges[0].2.file_index, ranges[0].2.byte_index), (0, 0));
    // The piece holding byte x is x / 10.
    assert_eq!((ranges[0].3.file_index, ranges[0].3.byte_index), (0, 5));
    assert_eq!((ranges[1].0.as_str(), ranges[1].1.as_str()), ("DIR", "b"));
    assert_eq!((ranges[1].2.file_index, ranges[1].2.byte_index), (0, 5));
    assert_eq!((ranges[1].3.file_index, ranges[1].3.byte_index), (1, 2));
}

#[test]
fn metainfo_create_bencode() {
    let data = b"0123456789";
    let encoded = Metainfo::create_bencode(data, "data.bin", "http://tracker/announce");
    let mut expected = b"d8:announce23:http://tracker/announce4:infod6:lengthi10e4:name8:data.bin12:piece lengthi262144e6:pieces20:".to_vec();
    // SHA-1 of the data.
    expected.extend_from_slice(&[
        135, 172, 236, 23, 205, 157, 205, 32, 167, 22, 204, 44, 246, 116, 23, 183, 28, 138, 112, 22,
    ]);
    expected.extend_from_slice(b"ee");
    assert_eq!(encoded, expected);
    // The created file reads back.
    let m = Metainfo::from_bencode(&encoded).unwrap();
    assert_eq!(m.tracker_url(), "http://tracker/announce");
    assert_eq!(m.name, "data.bin");
    assert_eq!(m.total_length(), 10);
    assert_eq!(m.pieces_num(), 1);
}

#[test]
fn metainfo_create_bencode_hashes_each_piece() {
    let data = vec![7u8; 262144 + 3];
    let encoded = Metainfo::create_bencode(&data, "sevens", "URL");
    let m = Metainfo::from_bencode(&encoded).unwrap();
    assert_eq!(m.pieces_num(), 2);
    assert_eq!(m.total_length(), 262147);
    assert_eq!(m.piece_length(0), 262144);
    assert_eq!(m.piece_length(1), 3);
    assert_eq!(
        m.piece(0),
        &[67, 177, 78, 56, 172, 4, 130, 8, 249, 29, 127, 246, 208, 128, 195, 193, 181, 163, 36, 249]
    );
    assert_eq!(
        m.piece(1),
        &[56, 26, 141, 146, 198, 150, 55, 235, 176, 73, 9, 220, 209, 219, 246, 15, 33, 123, 124, 69]
    );
}

#[test]
fn tracker_response_peers() {
    let resp = TrackerResp::from_bencode(
        b"d8:intervali900e5:peersld2:ip7:1.2.3.47:peer id20:AAAAABBBBBCCCCCDDDDD4:porti6881eeee",
    )
    .unwrap();
    assert_eq!(resp.interval, 900);
    assert_eq!(
        resp.peers,
        vec![PeerAddr {
            ip: "1.2.3.4".to_string(),
            peer_id: *b"AAAAABBBBBCCCCCDDDDD",
            port: 6881
        }]
    );
    assert_eq!(
        resp.peers(),
        vec![("1.2.3.4:6881".to_string(), *b"AAAAABBBBBCCCCCDDDDD")]
    );
}

#[test]
fn tracker_response_errors() {
    assert_eq!(TrackerResp::from_bencode(b""), Err(Error::TrackerBEncodeMissing));
    assert_eq!(TrackerResp::from_bencode(b"i1e"), Err(Error::TrackerDataMissing));
    assert_eq!(
        TrackerResp::from_bencode(b"d14:failure reason3:BADe"),
        Err(Error::TrackerRespFail("BAD".into()))
    );
    assert_eq!(
        TrackerResp::from_bencode(b"d5:peerslee"),
        Err(Error::TrackerIncorrectOrMissing("interval".into()))
    );
    assert_eq!(
        TrackerResp::from_bencode(b"d8:intervali1ee"),
        Err(Error::TrackerIncorrectOrMissing("peers".into()))
    );
}

#[test]
fn piece_download_flow() {
    let hash = [0u8; 20];
    let mut rx = PieceRx::new(3, 20000, &hash);
    assert_eq!(rx.left.iter().cloned().collect::<Vec<_>>(), vec![(0, 16384), (16384, 3616)]);
    assert_eq!(rx.next_request(), Some((0, 16384)));
    assert_eq!(rx.next_request(), Some((16384, 3616)));
    assert_eq!(rx.next_request(), None);
    assert!(!rx.is_complete());
    assert_eq!(
        rx.receive(&Piece::new(3, 100, vec![1; 10])),
        Err(Error::BlockNotRequested)
    );
    assert_eq!(rx.receive(&Piece::new(3, 16384, vec![7; 3616])), Ok(()));
    assert_eq!(rx.receive(&Piece::new(3, 0, vec![5; 16384])), Ok(()));
    assert!(rx.is_complete());
    assert_eq!(rx.buff[0], 5);
    assert_eq!(rx.buff[19999], 7);
    assert!(!rx.verify_hash());
}

#[test]
fn piece_hash_verified() {
    // SHA-1 of the empty input.
    let hash = [
        0xda, 0x39, 0xa3, 0xee, 0x5e, 0x6b, 0x4b, 0x0d, 0x32, 0x55, 0xbf, 0xef, 0x95, 0x60, 0x18,
        0x90, 0xaf, 0xd8, 0x07, 0x09,
    ];
    let rx = PieceRx::new(0, 0, &hash);
    assert!(rx.is_complete());
    assert!(rx.verify_hash());
}

#[test]
fn piece_upload_message() {
    let tx = PieceTx { index: 2, buff: vec![1, 2, 3, 4, 5] };
    let p = tx.piece_msg(1, 3);
    assert_eq!(p.piece_index(), 2);
    assert_eq!(p.block_begin(), 1);
    assert_eq!(p.block(), &vec![2, 3, 4]);
}

#[test]
fn stats_rates() {
    let mut s = Stats::new();
    s.update_downloaded(100);
    s.update_uploaded(10);
    assert_eq!(s.downloaded_rate(), None);
    s.shift();
    s.update_downloaded(50);
    s.update_rejected_piece();
    assert_eq!(s.rejected_piece, 1);
    assert_eq!(s.downloaded_rate(), Some(75));
    assert_eq!(s.uploaded_rate(), Some(5));
    s.shift();
    assert_eq!(s.rejected_piece, 0);
    assert_eq!(s.downloaded_rate(), Some(25));
}

#[test]
fn animation_moves_and_draws() {
    let mut a = Animation::new(3);
    assert_eq!(a.cells(), vec![255, 85, 63, 51, 0, 0, 0, 0, 0, 0]);
    a.step();
    assert_eq!(a.pos, 1);
    assert_eq!(a.cells(), vec![127, 255, 51, 0, 0, 0, 0, 0, 0, 0]);
    for _ in 0..8 {
        a.step();
    }
    assert_eq!(a.pos, 9);
    a.step();
    assert_eq!(a.direction, Direction::Left);
    assert_eq!(a.pos, 8);
    a.handle_have(1);
    a.handle_have(2);
    assert_eq!(a.downloaded(), 2);
}

#[test]
fn peer_id_is_alphanumeric() {
    let id = rdest::peer_id::generate();
    assert!(id.iter().all(|b| b.is_ascii_alphanumeric()));
}

#[test]
fn block_flow_counts_and_decides() {
    // SHA-1 of three zero bytes is not the expected all-zero digest.
    let mut rx = PieceRx::new(1, 3, &[0u8; 20]);
    let mut stats = Stats::new();
    assert_eq!(rx.next_request(), Some((0, 3)));
    assert_eq!(
        take_block(&mut rx, &mut stats, &Piece::new(2, 0, vec![1, 2, 3])),
        Err(Error::BlockNotRequested)
    );
    assert_eq!(stats.downloaded[0], 0);
    assert_eq!(
        take_block(&mut rx, &mut stats, &Piece::new(1, 0, vec![1, 2, 3])),
        Ok(BlockOutcome::Rejected)
    );
    assert_eq!(stats.downloaded[0], 3);
    assert_eq!(stats.rejected_piece, 1);
    assert_eq!(rx.buff, vec![1, 2, 3]);
}

#[test]
fn block_flow_complete_and_more() {
    // SHA-1 of "abc".
    let hash = [
        0xa9, 0x99, 0x3e, 0x36, 0x47, 0x06, 0x81, 0x6a, 0xba, 0x3e, 0x25, 0x71, 0x78, 0x50, 0xc2,
        0x6c, 0x9c, 0xd0, 0xd8, 0x9d,
    ];
    let mut rx = PieceRx::new(0, 16387, &hash);
    let mut stats = Stats::new();
    assert_eq!(rx.next_request(), Some((0, 16384)));
    assert_eq!(
        take_block(&mut rx, &mut stats, &Piece::new(0, 0, vec![0; 16384])),
        Ok(BlockOutcome::More)
    );
    let mut rx = PieceRx::new(0, 3, &hash);
    assert_eq!(rx.next_request(), Some((0, 3)));
    assert_eq!(
        take_block(&mut rx, &mut stats, &Piece::new(0, 0, b"abc".to_vec())),
        Ok(BlockOutcome::Complete)
    );
    assert_eq!(stats.downloaded[0], 16387);
    assert_eq!(stats.rejected_piece, 0);
}

#[test]
fn outbox_keeps_haves_while_choked() {
    let mut o = Outbox::new();
    assert_eq!(o.announce_have(3), None);
    assert_eq!(o.announce_have(1), None);
    assert_eq!(o.peer_unchoked(), vec![3, 1]);
    assert_eq!(o.announce_have(4), Some(4));
    o.peer_choked();
    assert_eq!(o.announce_have(5), None);
    assert_eq!(o.buffered, vec![5]);
}

#[test]
fn decoded_dictionary_in_key_order_and_reencoded() {
    let decoded = BDecoder::from_array(b"d1:bi1e1:ai2e1:bi3ee").unwrap();
    let d = vec![(b"a".to_vec(), BValue::Int(2)), (b"b".to_vec(), BValue::Int(3))];
    let d2 = vec![(b"a".to_vec(), BValue::Int(2)), (b"b".to_vec(), BValue::Int(3))];
    assert_eq!(decoded, vec![BValue::Dict(d2)]);
    let mut e = BEncoder::new();
    e.add_dict(&d);
    assert_eq!(e.encode(), &b"d1:ai2e1:bi3ee".to_vec());
    assert_eq!(BDecoder::from_array(e.encode()).unwrap(), decoded);
}

#[test]
fn encoded_values_then_more_bytes() {
    let mut e = BEncoder::new();
    e.add_list(&vec![BValue::Int(1)]).add_byte_str(b"xy");
    let mut bytes = e.encode().clone();
    bytes.extend_from_slice(b"i3e");
    assert_eq!(
        BDecoder::from_array(&bytes).unwrap(),
        vec![BValue::List(vec![BValue::Int(1)]), BValue::ByteStr(b"xy".to_vec()), BValue::Int(3)]
    );
    // Where the rest does not decode, neither does the whole.
    let mut bad = e.encode().clone();
    bad.extend_from_slice(b"x");
    assert!(BDecoder::from_array(&bad).is_err());
}

#[test]
fn decode_error_messages() {
    assert_eq!(
        Error::DecodeUnableConvert("parse_int:42".into(), "int".into(), 7).message(),
        "parse_int:42, unable convert to int at 7"
    );
    assert_eq!(
        Error::DecodeNotEnoughChars("parse_byte_str".into(), 0).message(),
        "parse_byte_str, not enough characters at 0"
    );
    assert_eq!(
        Error::DecodeUnexpectedChar("raw_values_vector".into(), 12).message(),
        "raw_values_vector, unexpected end character at 12"
    );
    assert_eq!(
        Error::DecodeIncorrectChar("values_vector".into(), 3).message(),
        "values_vector, incorrect character at 3"
    );
    assert_eq!(
        Error::DecodeMissingTerminalChars("parse_int".into(), 5).message(),
        "parse_int, missing terminate character at 5"
    );
    assert_eq!(
        Error::DecodeLeadingZero("parse_int".into(), 6).message(),
        "parse_int, leading zero at 6"
    );
    assert_eq!(
        Error::DecodeOddNumOfElements("parse_dict".into(), 0).message(),
        "parse_dict, odd number of elements at 0"
    );
    assert_eq!(
        Error::DecodeKeyNotString("parse_dict".into(), 10).message(),
        "parse_dict, key is not string at 10"
    );
    assert_eq!(
        Error::Decode("Int [0]: Leading zero".into()).message(),
        "Decode error: Int [0]: Leading zero"
    );
}

#[test]
fn metainfo_decode_faults() {
    let cases: Vec<(&[u8], Error)> = vec![
        (&b"x"[..], Error::DecodeIncorrectChar("values_vector".into(), 0)),
        (&b"4+3:spa"[..], Error::DecodeIncorrectChar("parse_byte_str".into(), 0)),
        (
            &b"99999999999999999999999:a"[..],
            Error::DecodeUnableConvert("parse_byte_str".into(), "int".into(), 0),
        ),
        (&b"4:spa"[..], Error::DecodeNotEnoughChars("parse_byte_str".into(), 0)),
        (&b"i+4e"[..], Error::DecodeIncorrectChar("parse_int".into(), 0)),
        (&b"i"[..], Error::DecodeMissingTerminalChars("parse_int".into(), 0)),
        (&b"i4ei01e"[..], Error::DecodeLeadingZero("parse_int".into(), 3)),
        (&b"ie"[..], Error::DecodeUnableConvert("parse_int".into(), "int".into(), 0)),
        (&b"d1:ae"[..], Error::DecodeOddNumOfElements("parse_dict".into(), 0)),
        (&b"li1ed i1ei2eee"[..], Error::DecodeIncorrectChar("values_vector".into(), 5)),
        (&b"li1edi1ei2eee"[..], Error::DecodeKeyNotString("parse_dict".into(), 4)),
    ];
    for (input, expected) in cases {
        assert_eq!(Metainfo::from_bencode(input), Err(expected));
    }
}

#[test]
fn decode_values_gives_fault() {
    let f = decode_values(b"i01e").unwrap_err();
    assert_eq!(f, DecodeFault { kind: FaultKind::IntLeadingZero, pos: 0 });
    assert_eq!(fault_message(f), "Int [0]: Leading zero");
    assert_eq!(fault_error(f), Error::DecodeLeadingZero("parse_int".into(), 0));
    assert_eq!(decode_values(b"i1e3:abc").unwrap(), vec![BValue::Int(1), BValue::ByteStr(b"abc".to_vec())]);
    assert_eq!(BValue::parse(b"3:ab"), Err("ByteStr [0]: Not enough characters".to_string()));
}

#[test]
fn add_list_round_trip_reads_dictionaries_as_maps() {
    // Keys out of order and repeated: the last value written for a key wins.
    let d = vec![
        (b"b".to_vec(), BValue::Int(1)),
        (b"a".to_vec(), BValue::Int(2)),
        (b"b".to_vec(), BValue::Int(3)),
    ];
    let l = vec![BValue::Int(7), BValue::Dict(d)];
    let mut e = BEncoder::new();
    e.add_list(&l);
    assert_eq!(e.encode(), &b"li7ed1:ai2e1:bi3eee".to_vec());
    assert_eq!(
        BDecoder::from_array(e.encode()),
        Ok(vec![BValue::List(vec![
            BValue::Int(7),
            BValue::Dict(vec![(b"a".to_vec(), BValue::Int(2)), (b"b".to_vec(), BValue::Int(3))]),
        ])])
    );
    // Followed by more values, the list still decodes first.
    let mut bytes = e.encode().clone();
    bytes.extend_from_slice(b"i1e");
    assert_eq!(BDecoder::from_array(&bytes).unwrap().len(), 2);
}

use rdest::torrent::{File, Torrent};
use rdest::BValue;

#[test]
fn get_announce_incorrect() {
    assert_eq!(
        Torrent::get_announce(&vec![(b"announce".to_vec(), BValue::Int(5))]),
        Err(String::from("Incorrect or missing 'announce' value"))
    );
}

#[test]
fn get_announce_ok() {
    assert_eq!(
        Torrent::get_announce(
            &vec![(b"announce".to_vec(), BValue::ByteStr(b"ANN".to_vec()))]
        ),
        Ok(format!("ANN"))
    );
}

#[test]
fn get_name_incorrect() {
    assert_eq!(
        Torrent::get_name(
            &vec![(b"info".to_vec(), BValue::Dict(vec![(b"name".to_vec(), BValue::Int(12))]))]
        ),
        Err(String::from("Incorrect or missing 'name' value"))
    );
}

#[test]
fn get_name_incorrect_info() {
    assert_eq!(
        Torrent::get_name(&vec![(b"info".to_vec(), BValue::Int(12))]),
        Err(String::from("Incorrect or missing 'info' value"))
    );
}

#[test]
fn get_name_ok() {
    assert_eq!(
        Torrent::get_name(
            &vec![(b"info".to_vec(), BValue::Dict(vec![(b"name".to_vec(), BValue::ByteStr(b"INFO".to_vec()))]))]
        ),
        Ok(format!("INFO"))
    );
}

#[test]
fn get_piece_length_incorrect() {
    assert_eq!(
        Torrent::get_piece_length(
            &vec![(b"info".to_vec(), BValue::Dict(vec![(b"piece length".to_vec(), BValue::ByteStr(b"BAD".to_vec()))]))]
        ),
        Err(String::from("Incorrect or missing 'piece length' value"))
    );
}

#[test]
fn get_piece_length_negative() {
    assert_eq!(
        Torrent::get_piece_length(
            &vec![(b"info".to_vec(), BValue::Dict(vec![(b"piece length".to_vec(), BValue::Int(-12))]))]
        ),
        Err(String::from("Can't convert 'piece length' to u64"))
    );
}

#[test]
fn get_piece_length_incorrect_info() {
    assert_eq!(
        Torrent::get_piece_length(&vec![(b"info".to_vec(), BValue::Int(12))]),
        Err(String::from("Incorrect or missing 'info' value"))
    );
}

#[test]
fn get_piece_length_ok() {
    assert_eq!(
        Torrent::get_piece_length(
            &vec![(b"info".to_vec(), BValue::Dict(vec![(b"piece length".to_vec(), BValue::Int(12))]))]
        ),
        Ok(12)
    );
}

#[test]
fn get_pieces_incorrect() {
    assert_eq!(
        Torrent::get_pieces(
            &vec![(b"info".to_vec(), BValue::Dict(vec![(b"pieces".to_vec(), BValue::Int(12))]))]
        ),
        Err(String::from("Incorrect or missing 'pieces' value"))
    );
}

#[test]
fn get_pieces_not_divisible() {
    assert_eq!(
        Torrent::get_pieces(
            &vec![(b"info".to_vec(), BValue::Dict(vec![(b"pieces".to_vec(), BValue::ByteStr(b"aaa".to_vec()))]))]
        ),
        Err(String::from("'pieces' not divisible by 20"))
    );
}

#[test]
fn get_pieces_incorrect_info() {
    assert_eq!(
        Torrent::get_pieces(&vec![(b"info".to_vec(), BValue::Int(12))]),
        Err(String::from("Incorrect or missing 'info' value"))
    );
}

#[test]
fn get_pieces_ok() {
    assert_eq!(
        Torrent::get_pieces(
            &vec![(b"info".to_vec(), BValue::Dict(vec![(b"pieces".to_vec(), BValue::ByteStr(b"aaaaabbbbbcccccdddddAAAAABBBBBCCCCCDDDDD".to_vec()))]))]
        ),
        Ok(vec![
            b"aaaaabbbbbcccccddddd".to_vec(),
            b"AAAAABBBBBCCCCCDDDDD".to_vec()
        ])
    );
}

#[test]
fn get_length_incorrect() {
    assert_eq!(
        Torrent::get_length(
            &vec![(b"info".to_vec(), BValue::Dict(vec![(b"length".to_vec(), BValue::ByteStr(b"BAD".to_vec()))]))]
        ),
        None
    );
}

#[test]
fn get_length_negative() {
    assert_eq!(
        Torrent::get_length(
            &vec![(b"info".to_vec(), BValue::Dict(vec![(b"length".to_vec(), BValue::Int(-12))]))]
        ),
        None
    );
}

#[test]
fn get_length_incorrect_info() {
    assert_eq!(
        Torrent::get_length(&vec![(b"info".to_vec(), BValue::Int(12))]),
        None
    );
}

#[test]
fn get_length_ok() {
    assert_eq!(
        Torrent::get_length(
            &vec![(b"info".to_vec(), BValue::Dict(vec![(b"length".to_vec(), BValue::Int(12))]))]
        ),
        Some(12)
    );
}

#[test]
fn get_files_incorrect() {
    assert_eq!(
        Torrent::get_files(
            &vec![(b"info".to_vec(), BValue::Dict(vec![(b"files".to_vec(), BValue::ByteStr(b"BAD".to_vec()))]))]
        ),
        None
    );
}

#[test]
fn get_files_empty_list() {
    assert_eq!(
        Torrent::get_files(
            &vec![(b"info".to_vec(), BValue::Dict(vec![(b"files".to_vec(), BValue::List(vec![]))]))]
        ),
        Some(vec![])
    );
}

#[test]
fn get_files_invalid_dict() {
    assert_eq!(
        Torrent::get_files(&vec![(b"info".to_vec(), BValue::Dict(vec![(b"files".to_vec(), BValue::List(vec![
                    BValue::Dict(vec![(b"a".to_vec(), BValue::Int(12)), (b"b".to_vec(), BValue::ByteStr(b"PATH".to_vec()))])
                ]))]))]),
        Some(vec![])
    );
}

#[test]
fn get_files_invalid_dict_length() {
    assert_eq!(
        Torrent::get_files(&vec![(b"info".to_vec(), BValue::Dict(vec![(b"files".to_vec(), BValue::List(vec![
                    BValue::Dict(vec![(b"length".to_vec(), BValue::Int(-12)), (b"path".to_vec(), BValue::ByteStr(b"PATH".to_vec()))])
                ]))]))]),
        Some(vec![])
    );
}

#[test]
fn get_files_invalid_dict_path() {
    assert_eq!(
        Torrent::get_files(&vec![(b"info".to_vec(), BValue::Dict(vec![(b"files".to_vec(), BValue::List(vec![
                    BValue::Dict(vec![(b"length".to_vec(), BValue::Int(1)), (b"path".to_vec(), BValue::Int(2))])
                ]))]))]),
        Some(vec![])
    );
}

#[test]
fn get_files_valid_and_invalid_dict() {
    assert_eq!(
        Torrent::get_files(&vec![(b"info".to_vec(), BValue::Dict(vec![(b"files".to_vec(), BValue::List(vec![
                    BValue::Dict(vec![(b"length".to_vec(), BValue::Int(1)), (b"path".to_vec(), BValue::Int(2))]),
                    BValue::Dict(vec![(b"length".to_vec(), BValue::Int(12)), (b"path".to_vec(), BValue::ByteStr(b"PATH".to_vec()))]),
                ]))]))]),
        Some(vec![File {
            length: 12,
            path: format!("PATH")
        }])
    );
}

#[test]
fn torrent_empty_input_incorrect() {
    assert_eq!(
        Torrent::from_bencode(b""),
        Err(String::from("Empty torrent"))
    );
}

#[test]
fn torrent_incorrect_bencode() {
    assert_eq!(
        Torrent::from_bencode(b"12"),
        Err(String::from("ByteStr [0]: Not enough characters"))
    );
}

#[test]
fn torrent_missing_announce() {
    assert_eq!(
        Torrent::from_bencode(b"d8:announcei1ee"),
        Err(String::from("Incorrect or missing 'announce' value"))
    );
}

#[test]
fn torrent_torrent_incorrect() {
    assert_eq!(
        Torrent::from_bencode(b"i12e"),
        Err(String::from("Missing data"))
    );
}

#[test]
fn torrent_torrent_correct() {
    assert_eq!(
        Torrent::from_bencode(b"d8:announce3:URL4:infod4:name4:NAME12:piece lengthi999e6:pieces20:AAAAABBBBBCCCCCDDDDD6:lengthi111eee"),
        Ok(Torrent {
            announce: "URL".to_string(),
            name : "NAME".to_string(),
            piece_length : 999,
            pieces : vec![b"AAAAABBBBBCCCCCDDDDD".to_vec()],
            length : Some(111),
            files: None,
        }));
}


#[test]
fn length_only() {
    let torrent = Torrent {
        announce: "URL".to_string(),
        name: "NAME".to_string(),
        piece_length: 999,
        pieces: vec![b"AAAAABBBBBCCCCCDDDDD".to_vec()],
        length: Some(111),
        files: None,
    };
    assert_eq!(torrent.is_valid(), true);
}

#[test]
fn missing_length_and_files() {
    let torrent = Torrent {
        announce: "URL".to_string(),
        name: "NAME".to_string(),
        piece_length: 999,
        pieces: vec![b"AAAAABBBBBCCCCCDDDDD".to_vec()],
        length: None,
        files: None,
    };
    assert_eq!(torrent.is_valid(), false);
}

#[test]
fn files_only() {
    let torrent = Torrent {
        announce: "URL".to_string(),
        name: "NAME".to_string(),
        piece_length: 999,
        pieces: vec![b"AAAAABBBBBCCCCCDDDDD".to_vec()],
        length: None,
        files: Some(vec![]),
    };
    assert_eq!(torrent.is_valid(), true);
}

#[test]
fn both_length_and_files() {
    let torrent = Torrent {
        announce: "URL".to_string(),
        name: "NAME".to_string(),
        piece_length: 999,
        pieces: vec![b"AAAAABBBBBCCCCCDDDDD".to_vec()],
        length: Some(111),
        files: Some(vec![]),
    };
    assert_eq!(torrent.is_valid(), false);
}

#[test]
fn metainfo_missing_announce() {
    assert_eq!(
        Torrent::from_bencode(b"d8:announcei1ee"),
        Err(String::from("Incorrect or missing 'announce' value"))
    );
}

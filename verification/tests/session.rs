use rdest::commands::{
    BitfieldCmd, BroadCmd, HaveCmd, InitCmd, NotInterestedCmd, PieceDoneCmd, RequestCmd,
    UnchokeCmd,
};
use rdest::messages::bitfield::Bitfield;
use rdest::session::KillAction;
use rdest::{Error, Metainfo, Peer, Session, Status};

const OWN_ID: [u8; 20] = *b"-RD0001-000000000000";
const PEER_ID: [u8; 20] = *b"-XX0001-111111111111";

// Two pieces of 111 bytes.
fn metainfo() -> Metainfo {
    Metainfo::from_bencode(b"d8:announce3:URL4:infod4:name4:NAME12:piece lengthi111e6:pieces40:AAAAABBBBBCCCCCDDDDDEEEEEFFFFFGGGGGHHHHH6:lengthi222eee").unwrap()
}

fn session_with_peer(addr: &str) -> Session {
    let mut s = Session::new(metainfo(), OWN_ID);
    assert!(s.accept_incoming(addr.to_string()));
    s
}

#[test]
fn session_new() {
    let s = Session::new(metainfo(), OWN_ID);
    assert_eq!(s.pieces_status, vec![Status::Missing, Status::Missing]);
    assert!(s.peers.is_empty());
    assert_eq!(s.round, 0);
    assert_eq!(s.conn_state_text(), "");
}

#[test]
fn peer_new_and_abbreviation() {
    let mut p = Peer::new(None, 3);
    assert_eq!(p.pieces, vec![false, false, false]);
    assert_eq!(p.status_abbreviation(), "cc");
    p.am_interested = true;
    p.interested = true;
    assert_eq!(p.status_abbreviation(), "CC");
    p.am_choked = false;
    p.choked = false;
    assert_eq!(p.status_abbreviation(), "UU");
    p.optimistic_unchoke = true;
    p.am_interested = false;
    assert_eq!(p.status_abbreviation(), "oU");
}

#[test]
fn peer_not_found() {
    let mut s = Session::new(metainfo(), OWN_ID);
    let addr = "1.1.1.1:1".to_string();
    assert!(matches!(s.handle_choke(&addr), Err(Error::PeerNotFound)));
    assert!(matches!(s.handle_unchoke(&addr), Err(Error::PeerNotFound)));
    assert!(matches!(s.handle_interested(&addr), Err(Error::PeerNotFound)));
    assert!(matches!(s.handle_have(&addr, 0), Err(Error::PeerNotFound)));
    assert!(matches!(s.handle_request(&addr, 0), Err(Error::PeerNotFound)));
    assert!(!s.kill_peer(&addr));
}

#[test]
fn init_sends_own_bitfield() {
    let addr = "1.2.3.4:6881".to_string();
    let mut s = session_with_peer(&addr);
    s.pieces_status[1] = Status::Have;
    match s.handle_init(&addr, PEER_ID) {
        Ok(InitCmd::SendBitfield { bitfield }) => {
            assert_eq!(bitfield.pieces_num, 2);
            assert_eq!(bitfield.to_vec(), vec![false, true]);
        }
        other => panic!("unexpected {:?}", other),
    }
    assert_eq!(s.peers[0].1.id, Some(PEER_ID));
}

#[test]
fn bitfield_then_unchoke_requests_a_piece() {
    let addr = "1.2.3.4:6881".to_string();
    let mut s = session_with_peer(&addr);
    let bitfield = Bitfield::from_vec(&vec![false, true]);
    match s.handle_bitfield(&addr, &bitfield) {
        Ok(BitfieldCmd::SendState { with_am_unchoked, am_interested }) => {
            assert!(with_am_unchoked);
            assert!(am_interested);
        }
        other => panic!("unexpected {:?}", other),
    }
    assert_eq!(s.peers[0].1.pieces, vec![false, true]);
    assert_eq!(s.choose_piece_index(&addr), Some(1));
    match s.handle_unchoke(&addr) {
        Ok(UnchokeCmd::SendRequest(req)) => {
            assert_eq!(req.index, 1);
            assert_eq!(req.piece_length, 111);
            assert_eq!(&req.piece_hash, b"EEEEEFFFFFGGGGGHHHHH");
        }
        other => panic!("unexpected {:?}", other),
    }
    assert_eq!(s.pieces_status, vec![Status::Missing, Status::Reserved]);
    assert_eq!(s.peers[0].1.piece_index, Some(1));
    assert!(!s.peers[0].1.choked);

    match s.handle_piece_done(&addr) {
        Ok((BroadCmd::SendHave { index }, PieceDoneCmd::PrepareKill)) => assert_eq!(index, 1),
        other => panic!("unexpected {:?}", other),
    }
    assert_eq!(s.pieces_status, vec![Status::Missing, Status::Have]);
    assert_eq!(s.peers[0].1.piece_index, None);
    assert!(!s.peers[0].1.am_interested);
}

#[test]
fn have_on_unchoked_peer_requests() {
    let addr = "1.2.3.4:6881".to_string();
    let mut s = session_with_peer(&addr);
    // Unchoked with nothing to ask for: nothing is sent.
    assert!(matches!(s.handle_unchoke(&addr), Ok(UnchokeCmd::Ignore)));
    match s.handle_have(&addr, 0) {
        Ok(HaveCmd::SendInterestedAndRequest(req)) => {
            assert_eq!(req.index, 0);
            assert_eq!(req.piece_length, 111);
            assert_eq!(&req.piece_hash, b"AAAAABBBBBCCCCCDDDDD");
        }
        other => panic!("unexpected {:?}", other),
    }
    assert_eq!(s.pieces_status, vec![Status::Reserved, Status::Missing]);
    // Already interested: another have is ignored.
    assert!(matches!(s.handle_have(&addr, 1), Ok(HaveCmd::Ignore)));
    assert_eq!(s.peers[0].1.pieces, vec![true, true]);
}

#[test]
fn have_on_choked_peer_sends_interested() {
    let addr = "1.2.3.4:6881".to_string();
    let mut s = session_with_peer(&addr);
    assert!(matches!(s.handle_have(&addr, 0), Ok(HaveCmd::SendInterested)));
    assert_eq!(s.pieces_status, vec![Status::Missing, Status::Missing]);
    assert!(s.peers[0].1.am_interested);
}

#[test]
fn choke_releases_reserved_piece() {
    let addr = "1.2.3.4:6881".to_string();
    let mut s = session_with_peer(&addr);
    assert!(matches!(s.handle_unchoke(&addr), Ok(UnchokeCmd::Ignore)));
    assert!(matches!(
        s.handle_have(&addr, 0),
        Ok(HaveCmd::SendInterestedAndRequest(_))
    ));
    assert_eq!(s.handle_choke(&addr), Ok(()));
    assert_eq!(s.pieces_status, vec![Status::Missing, Status::Missing]);
    assert!(s.peers[0].1.choked);
}

#[test]
fn piece_cancel_releases_piece() {
    let addr = "1.2.3.4:6881".to_string();
    let mut s = session_with_peer(&addr);
    assert!(matches!(s.handle_unchoke(&addr), Ok(UnchokeCmd::Ignore)));
    assert!(matches!(
        s.handle_have(&addr, 0),
        Ok(HaveCmd::SendInterestedAndRequest(_))
    ));
    match s.handle_piece_cancel(&addr) {
        // The peer has piece 0, which is missing again: it is asked again.
        Ok(PieceDoneCmd::SendRequest(req)) => assert_eq!(req.index, 0),
        other => panic!("unexpected {:?}", other),
    }
    assert_eq!(s.pieces_status, vec![Status::Reserved, Status::Missing]);
}

#[test]
fn interest_and_not_interested() {
    let addr = "1.2.3.4:6881".to_string();
    let mut s = session_with_peer(&addr);
    assert_eq!(s.handle_interested(&addr), Ok(()));
    assert!(s.peers[0].1.interested);
    assert!(matches!(
        s.handle_not_interested(&addr),
        Ok(NotInterestedCmd::PrepareKill)
    ));
    assert!(!s.peers[0].1.interested);
}

#[test]
fn request_answered_only_when_unchoked_and_have() {
    let addr = "1.2.3.4:6881".to_string();
    let mut s = session_with_peer(&addr);
    s.pieces_status[0] = Status::Have;
    assert!(matches!(s.handle_request(&addr, 0), Ok(RequestCmd::Ignore)));
    s.peers[0].1.am_choked = false;
    match s.handle_request(&addr, 0) {
        Ok(RequestCmd::LoadAndSendPiece { index, piece_hash }) => {
            assert_eq!(index, 0);
            assert_eq!(&piece_hash, b"AAAAABBBBBCCCCCDDDDD");
        }
        other => panic!("unexpected {:?}", other),
    }
    assert!(matches!(s.handle_request(&addr, 1), Ok(RequestCmd::Ignore)));
    assert!(matches!(s.handle_request(&addr, 2), Ok(RequestCmd::Ignore)));
}

#[test]
fn sync_stats_and_conn_state() {
    let addr = "1.2.3.4:6881".to_string();
    let mut s = session_with_peer(&addr);
    assert_eq!(s.conn_state_text(), "|cc|");
    // Not every peer reported: only the round moves on.
    assert!(matches!(s.timeout_change_conn_state(), Ok(None)));
    assert_eq!(s.round, 1);
    assert_eq!(s.handle_sync_stats(&addr, &Some(10), &Some(20)), Ok(()));
    assert_eq!(s.peers[0].1.download_rate, Some(10));
    assert_eq!(s.peers[0].1.uploaded_rate, Some(20));
    // The peer is not interested: it stays choked.
    match s.timeout_change_conn_state() {
        Ok(Some(BroadCmd::SendOwnState { am_choked_map })) => assert!(am_choked_map.is_empty()),
        other => panic!("unexpected {:?}", other),
    }
    assert_eq!(s.round, 2);
    // Interested now: at round 0 it is unchoked optimistically.
    assert_eq!(s.handle_interested(&addr), Ok(()));
    match s.timeout_change_conn_state() {
        Ok(Some(BroadCmd::SendOwnState { am_choked_map })) => {
            assert_eq!(am_choked_map, vec![(addr.clone(), false)]);
        }
        other => panic!("unexpected {:?}", other),
    }
    assert_eq!(s.round, 0);
    assert!(s.peers[0].1.optimistic_unchoke);
    assert!(!s.peers[0].1.am_choked);
    assert_eq!(s.conn_state_text(), "|oC|");
}

#[test]
fn change_conn_state_unchokes_best_interested() {
    let mut s = Session::new(metainfo(), OWN_ID);
    let addrs: Vec<String> = (0..12).map(|k| format!("10.0.0.{}:1", k)).collect();
    for a in addrs.iter() {
        s.peers.push((a.clone(), Peer::new(None, 2)));
    }
    for k in 0..12 {
        s.peers[k].1.interested = k != 3;
    }
    let mut rates: Vec<(String, u32)> = addrs.iter().enumerate().map(|(k, a)| (a.clone(), k as u32)).collect();
    match s.change_conn_state(&mut rates, &vec![]) {
        Ok(BroadCmd::SendOwnState { am_choked_map }) => {
            // The ten interested peers with the best rates: 11 down to 1, but not 3.
            assert_eq!(am_choked_map.len(), 10);
            assert!(am_choked_map.iter().all(|(_, choked)| !choked));
            // What is announced is what is set.
            for (a, choked) in am_choked_map.iter() {
                let peer = &s.peers.iter().find(|(b, _)| b == a).unwrap().1;
                assert_eq!(peer.am_choked, *choked);
            }
        }
        other => panic!("unexpected {:?}", other),
    }
    let rates_order: Vec<u32> = rates.iter().map(|(_, r)| *r).collect();
    assert_eq!(rates_order, vec![11, 10, 9, 8, 7, 6, 5, 4, 3, 2, 1, 0]);
    assert!(s.peers[0].1.am_choked);
    assert!(s.peers[3].1.am_choked);
    assert!(!s.peers[1].1.am_choked);
    assert!(!s.peers[11].1.am_choked);
    assert_eq!(s.unchoked_num(), 0);
}

#[test]
fn change_conn_state_unknown_peer() {
    let mut s = Session::new(metainfo(), OWN_ID);
    let mut rates = vec![("9.9.9.9:9".to_string(), 1u32)];
    assert!(matches!(
        s.change_conn_state(&mut rates, &vec![]),
        Err(Error::PeerNotFound)
    ));
}

#[test]
fn candidates_and_kill() {
    let mut s = Session::new(metainfo(), OWN_ID);
    let n = s.add_candidates(&vec![("1.1.1.1:1".to_string(), PEER_ID), ("2.2.2.2:2".to_string(), PEER_ID)]);
    assert_eq!(n, 11);
    assert_eq!(s.candidates.len(), 2);
    assert_eq!(s.next_candidate(), Some(("2.2.2.2:2".to_string(), PEER_ID)));
    assert_eq!(s.peers.len(), 1);
    assert_eq!(s.peers[0].1.id, Some(PEER_ID));
    assert_eq!(s.handle_kill_req(&"2.2.2.2:2".to_string()), KillAction::SpawnPeer);
    assert!(s.peers.is_empty());
    assert_eq!(s.next_candidate(), Some(("1.1.1.1:1".to_string(), PEER_ID)));
    assert_eq!(s.next_candidate(), None);
    assert_eq!(s.handle_kill_req(&"1.1.1.1:1".to_string()), KillAction::SpawnTracker);
    s.pieces_status = vec![Status::Have, Status::Have];
    assert_eq!(s.handle_kill_req(&"1.1.1.1:1".to_string()), KillAction::SpawnExtractor);
    assert!(s.files_extracted);
    assert_eq!(s.handle_kill_req(&"1.1.1.1:1".to_string()), KillAction::Idle);
}

#[test]
fn kill_peer_releases_piece() {
    let addr = "1.2.3.4:6881".to_string();
    let mut s = session_with_peer(&addr);
    assert!(matches!(s.handle_unchoke(&addr), Ok(UnchokeCmd::Ignore)));
    assert!(matches!(s.handle_have(&addr, 1), Ok(HaveCmd::SendInterestedAndRequest(_))));
    assert_eq!(s.pieces_status, vec![Status::Missing, Status::Reserved]);
    assert!(s.kill_peer(&addr));
    assert_eq!(s.pieces_status, vec![Status::Missing, Status::Missing]);
    assert!(s.peers.is_empty());
}

#[test]
fn accept_incoming_limit() {
    let mut s = Session::new(metainfo(), OWN_ID);
    for k in 0..4 {
        assert!(s.accept_incoming(format!("10.0.0.{}:1", k)));
    }
    assert!(!s.accept_incoming("10.0.0.9:1".to_string()));
    assert_eq!(s.peers.len(), 4);
}

#[test]
fn optimistic_choice_among_choked_interested() {
    let mut s = Session::new(metainfo(), OWN_ID);
    s.peers.push(("a".to_string(), Peer::new(None, 2)));
    s.peers.push(("b".to_string(), Peer::new(None, 2)));
    assert!(s.new_optimistic_peers().is_empty());
    s.peers[1].1.interested = true;
    assert_eq!(s.new_optimistic_peers(), vec!["b".to_string()]);
}

#[test]
fn timeout_unchokes_at_most_best_and_one_optimistic() {
    let mut s = Session::new(metainfo(), OWN_ID);
    for k in 0..14 {
        let mut p = Peer::new(None, 2);
        p.interested = true;
        p.download_rate = Some(k);
        p.uploaded_rate = Some(100 + k);
        s.peers.push((format!("10.0.0.{}:1", k), p));
    }
    // Round 1, then 2: no optimistic peer; the ten best uploaders are unchoked.
    assert!(matches!(s.timeout_change_conn_state(), Ok(Some(_))));
    assert!(matches!(s.timeout_change_conn_state(), Ok(Some(_))));
    let unchoked: Vec<usize> = (0..14).filter(|k| !s.peers[*k].1.am_choked).collect();
    assert_eq!(unchoked, vec![4, 5, 6, 7, 8, 9, 10, 11, 12, 13]);
    // Round 0: one more, chosen among the choked interested peers.
    assert!(matches!(s.timeout_change_conn_state(), Ok(Some(_))));
    let unchoked = (0..14).filter(|k| !s.peers[*k].1.am_choked).count();
    assert_eq!(unchoked, 11);
    assert_eq!(s.unchoked_num(), 1);
}

#[test]
fn timeout_chokes_peers_not_interested() {
    let mut s = Session::new(metainfo(), OWN_ID);
    for k in 0..3 {
        let mut p = Peer::new(None, 2);
        p.am_choked = false;
        p.interested = k == 1;
        p.download_rate = Some(1);
        p.uploaded_rate = Some(k);
        s.peers.push((format!("10.0.0.{}:1", k), p));
    }
    assert!(matches!(s.timeout_change_conn_state(), Ok(Some(_))));
    for (_, p) in s.peers.iter() {
        assert!(p.am_choked || p.interested);
    }
    assert!(!s.peers[1].1.am_choked);
    assert!(s.peers[0].1.am_choked && s.peers[2].1.am_choked);
}

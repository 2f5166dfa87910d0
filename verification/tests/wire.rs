use bittorrent_starter_rust::bitmap::BitMap;
use bittorrent_starter_rust::peer::encode_message;
use bittorrent_starter_rust::peer::parse_message;
use bittorrent_starter_rust::peer::ConnectionState;
use bittorrent_starter_rust::peer::Handshake;
use bittorrent_starter_rust::peer::next_block;
use bittorrent_starter_rust::peer::piece_size;
use bittorrent_starter_rust::peer::Peer;
use bittorrent_starter_rust::peer::PeerMessage;

fn frame_round_trip(m: PeerMessage) -> PeerMessage {
    let frame = encode_message(&m);
    let len = u32::from_be_bytes([frame[0], frame[1], frame[2], frame[3]]) as usize;
    assert_eq!(frame.len(), 4 + len);
    parse_message(&frame[4..]).unwrap()
}

#[test]
fn framing_round_trip_every_message() {
    assert_eq!(frame_round_trip(PeerMessage::KeepAlive), PeerMessage::KeepAlive);
    assert_eq!(frame_round_trip(PeerMessage::Choke), PeerMessage::Choke);
    assert_eq!(frame_round_trip(PeerMessage::Unchoke), PeerMessage::Unchoke);
    assert_eq!(frame_round_trip(PeerMessage::Interested), PeerMessage::Interested);
    assert_eq!(frame_round_trip(PeerMessage::NotInterested), PeerMessage::NotInterested);
    assert_eq!(frame_round_trip(PeerMessage::Have(7)), PeerMessage::Have(7));
    assert_eq!(
        frame_round_trip(PeerMessage::Bitfield(vec![0xde, 0xad])),
        PeerMessage::Bitfield(vec![0xde, 0xad])
    );
    assert_eq!(
        frame_round_trip(PeerMessage::Request(1, 16384, 16384)),
        PeerMessage::Request(1, 16384, 16384)
    );
    assert_eq!(
        frame_round_trip(PeerMessage::Piece(3, 32768, vec![9, 8, 7])),
        PeerMessage::Piece(3, 32768, vec![9, 8, 7])
    );
    assert_eq!(
        frame_round_trip(PeerMessage::Cancel(1, 2, 3)),
        PeerMessage::Cancel(1, 2, 3)
    );
}

#[test]
fn framing_wire_shape() {
    let frame = encode_message(&PeerMessage::Request(1, 2, 3));
    assert_eq!(
        frame,
        vec![0, 0, 0, 13, 6, 0, 0, 0, 1, 0, 0, 0, 2, 0, 0, 0, 3]
    );
    assert_eq!(encode_message(&PeerMessage::KeepAlive), vec![0, 0, 0, 0]);
    assert_eq!(encode_message(&PeerMessage::Unchoke), vec![0, 0, 0, 1, 1]);
}

#[test]
fn framing_rejects_bad_bodies() {
    assert!(parse_message(&[9]).is_err());
    assert!(parse_message(&[4, 0, 0]).is_err());
    assert!(parse_message(&[6, 0, 0, 0, 1]).is_err());
    assert!(parse_message(&[7, 0, 0, 0, 1]).is_err());
    assert_eq!(parse_message(&[]).unwrap(), PeerMessage::KeepAlive);
}

#[test]
fn handshake_round_trip() {
    let info_hash: Vec<u8> = (0u8..20).collect();
    let peer_id = "00112233445566778899".to_string();
    let hs = Handshake::new(info_hash.clone(), peer_id.clone());
    let bytes = hs.to_bytes();
    assert_eq!(bytes.len(), 68);
    assert_eq!(bytes[0], 19);
    assert_eq!(&bytes[1..20], "BitTorrent protocol".as_bytes());
    let parsed = Handshake::from_buf(&bytes).unwrap();
    assert_eq!(parsed.info_hash, info_hash);
    assert_eq!(parsed.peer_id, hex::encode(peer_id.as_bytes()));
}

#[test]
fn handshake_rejects_bad_length_byte() {
    let mut bytes = Handshake::new((0u8..20).collect(), "00112233445566778899".to_string())
        .to_bytes();
    bytes[0] = 18;
    assert!(Handshake::from_buf(&bytes).is_err());
}

#[test]
fn connection_state_reaches_ready() {
    let mut state = ConnectionState::new();
    assert!(state.am_choking());
    assert!(!state.am_interested());
    assert!(state.peer_choking());
    assert!(!state.peer_interested());
    // send interested, then receive unchoke
    state.set_am_interested(true);
    assert!(state.am_interested());
    assert!(state.peer_choking());
    state.set_peer_choking(false);
    assert!(!state.peer_choking());
    assert!(state.am_interested());
    // the other two flags never moved
    assert!(state.am_choking());
    assert!(!state.peer_interested());
    state.set_am_choking(false);
    state.set_peer_interested(true);
    assert!(!state.am_choking());
    assert!(state.peer_interested());
}

#[test]
fn bitmap_set_get_unset() {
    let mut bm = BitMap::new();
    bm.set(0);
    bm.set(9);
    assert!(bm.get(0));
    assert!(!bm.get(1));
    assert!(bm.get(9));
    assert!(!bm.get(8));
    bm.unset(9);
    assert!(!bm.get(9));
    assert!(bm.get(0));
    bm.unset(100);
    assert!(bm.get(0));
}

#[test]
fn peer_to_url() {
    let peer = Peer::new([192, 168, 0, 17], 6881);
    assert_eq!(peer.to_url(), "192.168.0.17:6881");
}

#[test]
fn block_layout_covers_a_piece() {
    // total 100000, piece length 65536: piece 1 is the short tail.
    assert_eq!(piece_size(100000, 65536, 0), 65536);
    assert_eq!(piece_size(100000, 65536, 1), 100000 - 65536);
    let psize = piece_size(100000, 65536, 0) as u32;
    let mut received = 0u32;
    let mut blocks = vec![];
    while let Some((begin, len)) = next_block(psize, received) {
        blocks.push((begin, len));
        received += len;
    }
    assert_eq!(blocks.len(), 4);
    assert_eq!(blocks[0], (0, 16384));
    assert_eq!(blocks[3], (49152, 16384));
    assert_eq!(received, psize);
    let tail = piece_size(100000, 65536, 1) as u32;
    let mut received = 0u32;
    let mut total = 0u64;
    while let Some((begin, len)) = next_block(tail, received) {
        assert_eq!(begin, received);
        received += len;
        total += len as u64;
    }
    assert_eq!(total, tail as u64);
}

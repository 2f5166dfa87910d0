use bittorrent_starter_rust::torrent::Torrent;
use bittorrent_starter_rust::tracker::hex_chars;
use bittorrent_starter_rust::tracker::percent_encode;
use bittorrent_starter_rust::tracker::TrackerRequest;
use bittorrent_starter_rust::tracker::TrackerResponse;
use bittorrent_starter_rust::de::from_bytes;

#[test]
fn percent_encode_all_bytes() {
    // Per-byte law over the whole byte range, against the rule itself.
    for b in 0u8..=255 {
        let got = percent_encode(&[b]);
        let unreserved = b.is_ascii_alphanumeric() || b == b'-' || b == b'_' || b == b'.'
            || b == b'~';
        if unreserved {
            assert_eq!(got, (b as char).to_string());
        } else {
            let expected = format!("%{:02X}", b);
            assert_eq!(got, expected);
        }
    }
}

#[test]
fn percent_encode_sample() {
    assert_eq!(percent_encode(&[0x12, 0x34, 0xAB, 0x7E, 0xAF]), "%124%AB~%AF");
    assert_eq!(percent_encode("AZaz09-_.~".as_bytes()), "AZaz09-_.~");
}

#[test]
fn hex_chars_uppercase() {
    assert_eq!(hex_chars(0), '0');
    assert_eq!(hex_chars(9), '9');
    assert_eq!(hex_chars(10), 'A');
    assert_eq!(hex_chars(15), 'F');
}

#[test]
fn tracker_request_url() {
    let input = "d8:announce25:http://tracker.example/tr4:infod6:lengthi20e4:name1:f12:piece lengthi20e6:pieces20:aaaaaaaaaaaaaaaaaaaaee";
    let torrent = Torrent::from_str(input).unwrap();
    let request = TrackerRequest::new(&torrent);
    assert_eq!(request.port, 6881);
    assert_eq!(request.left, 20);
    assert_eq!(request.compact, 1);
    let url = request.to_url(&torrent.announce);
    let expected = format!(
        "http://tracker.example/tr?info_hash={}&peer_id=00112233445566778899&port=6881&uploaded=0&downloaded=0&left=20&compact=1",
        percent_encode(&torrent.info_hash())
    );
    assert_eq!(url, expected);
}

#[test]
fn tracker_response_peers() {
    // interval 1800, two peers: 10.0.0.1:6881 and 192.168.1.2:51413
    let mut body = "d8:intervali1800e5:peers12:".as_bytes().to_vec();
    body.extend_from_slice(&[10, 0, 0, 1, 0x1a, 0xe1, 192, 168, 1, 2, 0xc8, 0xd5]);
    body.push(b'e');
    let v = from_bytes(&body).unwrap();
    let response = TrackerResponse::from_bencode(&v).unwrap();
    assert_eq!(response.interval, 1800);
    assert!(response.peers_ok());
    let peers = response.get_peers();
    assert_eq!(peers.len(), 2);
    assert_eq!(peers[0].to_url(), "10.0.0.1:6881");
    assert_eq!(peers[1].to_url(), "192.168.1.2:51413");
}

#[test]
fn tracker_response_interval_defaults_to_zero() {
    let mut body = "d5:peers6:".as_bytes().to_vec();
    body.extend_from_slice(&[1, 2, 3, 4, 0, 80]);
    body.push(b'e');
    let v = from_bytes(&body).unwrap();
    let response = TrackerResponse::from_bencode(&v).unwrap();
    assert_eq!(response.interval, 0);
    assert_eq!(response.get_peers()[0].to_url(), "1.2.3.4:80");
}

#[test]
fn tracker_response_requires_peers() {
    let v = from_bytes("d8:intervali1800ee".as_bytes()).unwrap();
    assert!(TrackerResponse::from_bencode(&v).is_err());
}

#[test]
fn tracker_response_partial_record_detected() {
    let mut body = "d5:peers7:".as_bytes().to_vec();
    body.extend_from_slice(&[1, 2, 3, 4, 0, 80, 9]);
    body.push(b'e');
    let v = from_bytes(&body).unwrap();
    let response = TrackerResponse::from_bencode(&v).unwrap();
    assert!(!response.peers_ok());
}

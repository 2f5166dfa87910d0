use bittorrent_starter_rust::de::DecodeError;
use bittorrent_starter_rust::torrent::Info;
use bittorrent_starter_rust::torrent::Torrent;
use sha1::Digest;

#[test]
fn test_de_torrent() {
    let input = "d8:announce39:http://torrent.ubuntu.com:6969/announce4:infod6:lengthi282334976e4:name28:ubuntu-20.04.1-desktop-amd6412:piece lengthi20e6:pieces22:0123456789abcdef012345ee";
    let torrent = Torrent::from_str(input).unwrap();
    assert_eq!(torrent.announce, "http://torrent.ubuntu.com:6969/announce");
    assert_eq!(torrent.info.name, "ubuntu-20.04.1-desktop-amd64");
    assert_eq!(torrent.info.piece_length, 20);
    assert_eq!(torrent.info.pieces.len(), 22);
}

#[test]
fn test_de_info() {
    let input = "d6:lengthi282334976e4:name28:ubuntu-20.04.1-desktop-amd6412:piece lengthi20e6:pieces22:0123456789abcdef012345e";
    let info = Info::from_str(input).unwrap();
    assert_eq!(info.length, 282334976);
    assert_eq!(info.name, "ubuntu-20.04.1-desktop-amd64");
    assert_eq!(info.piece_length, 20);
    assert_eq!(info.pieces.len(), 22);
}

#[test]
fn info_reencoding_is_canonical() {
    let input = "d6:lengthi282334976e4:name28:ubuntu-20.04.1-desktop-amd6412:piece lengthi20e6:pieces22:0123456789abcdef012345e";
    let info = Info::from_str(input).unwrap();
    assert_eq!(info.bencode_bytes(), input.as_bytes().to_vec());
}

#[test]
fn info_hash_matches_direct_sha1() {
    let input = "d8:announce39:http://torrent.ubuntu.com:6969/announce4:infod6:lengthi282334976e4:name28:ubuntu-20.04.1-desktop-amd6412:piece lengthi20e6:pieces22:0123456789abcdef012345ee";
    let torrent = Torrent::from_str(input).unwrap();
    let encoded = torrent.info.bencode_bytes();
    let mut hasher = sha1::Sha1::new();
    hasher.update(&encoded);
    let expected = hasher.finalize().to_vec();
    assert_eq!(torrent.info_hash(), expected);
}

#[test]
fn info_hash_ignores_source_field_order() {
    // The same info dictionary with its keys listed in another order
    // in the source bytes yields the same hash after parsing.
    let sorted = "d6:lengthi64e4:name4:file12:piece lengthi32e6:pieces20:aaaaaaaaaaaaaaaaaaaae";
    let shuffled = "d4:name4:file6:pieces20:aaaaaaaaaaaaaaaaaaaa12:piece lengthi32e6:lengthi64ee";
    let a = Info::from_str(sorted).unwrap();
    let b = Info::from_str(shuffled).unwrap();
    assert_eq!(a.bencode_bytes(), b.bencode_bytes());
    let ta = Torrent {
        announce: "http://tracker.example/announce".to_string(),
        info: a,
    };
    let tb = Torrent {
        announce: "http://other.example/announce".to_string(),
        info: b,
    };
    assert_eq!(ta.info_hash(), tb.info_hash());
}

#[test]
fn torrent_missing_announce_is_rejected() {
    let input = "d4:infod6:lengthi1e4:name1:a12:piece lengthi1e6:pieces20:aaaaaaaaaaaaaaaaaaaaee";
    assert_eq!(Torrent::from_str(input).unwrap_err(), DecodeError::MissingField);
}

#[test]
fn info_name_must_be_utf8() {
    // A name holding the lone byte 0xff is not UTF-8.
    let mut input = "d6:lengthi1e4:name1:".as_bytes().to_vec();
    input.push(0xff);
    input.extend_from_slice("12:piece lengthi1e6:pieces20:aaaaaaaaaaaaaaaaaaaae".as_bytes());
    assert_eq!(Info::from_bytes(&input).unwrap_err(), DecodeError::InvalidUtf8);
}

#[test]
fn piece_hashes_are_hex_lines() {
    let input = "d6:lengthi40e4:name1:f12:piece lengthi20e6:pieces40:abcdefghijklmnopqrstABCDEFGHIJKLMNOPQRSTe";
    let info = Info::from_str(input).unwrap();
    let lines = info.piece_hashes();
    assert_eq!(lines.len(), 2);
    assert_eq!(lines[0], hex::encode("abcdefghijklmnopqrst"));
    assert_eq!(lines[1], hex::encode("ABCDEFGHIJKLMNOPQRST"));
    assert_eq!(lines[0], "6162636465666768696a6b6c6d6e6f7071727374");
}

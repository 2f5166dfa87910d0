use bittorrent_starter_rust::hashing::check_piece;
use bittorrent_starter_rust::scheduler::DownloadState;
use sha1::Digest;

fn digest(data: &[u8]) -> Vec<u8> {
    let mut hasher = sha1::Sha1::new();
    hasher.update(data);
    hasher.finalize().to_vec()
}

#[test]
fn check_piece_accepts_only_the_right_digest() {
    let data = b"some piece bytes";
    let good = digest(data);
    assert!(check_piece(data, &good));
    let mut bad = good.clone();
    bad[0] ^= 1;
    assert!(!check_piece(data, &bad));
}

#[test]
fn download_assembles_verified_pieces() {
    // 10 bytes in pieces of 4: two full pieces and a short tail.
    let content: Vec<Vec<u8>> = vec![
        b"abcd".to_vec(),
        b"efgh".to_vec(),
        b"ij".to_vec(),
    ];
    let mut pieces = Vec::new();
    for c in &content {
        pieces.extend_from_slice(&digest(c));
    }
    let mut state = DownloadState::new(10, 4, pieces).unwrap();

    // the queue hands the work out from the back
    assert_eq!(state.take_work(), Some(2));
    assert!(state.complete_piece(2, &content[2]));
    assert_eq!(state.take_work(), Some(1));
    // a failed piece goes back on the queue
    state.requeue(1);
    assert_eq!(state.take_work(), Some(1));
    assert!(!state.is_complete());
    assert!(state.complete_piece(1, &content[1]));
    assert_eq!(state.take_work(), Some(0));
    assert!(state.complete_piece(0, &content[0]));
    assert_eq!(state.take_work(), None);
    assert!(state.is_complete());
    assert_eq!(state.into_buffer(), b"abcdefghij".to_vec());
}

#[test]
fn download_rejects_corrupt_piece() {
    let content = b"abcd".to_vec();
    let mut pieces = Vec::new();
    pieces.extend_from_slice(&digest(&content));
    let mut state = DownloadState::new(4, 4, pieces).unwrap();
    assert!(!state.complete_piece(0, b"abce"));
    assert!(!state.is_complete());
    assert!(!state.complete_piece(0, b"abc"));
    assert!(state.complete_piece(0, &content));
    assert!(state.is_complete());
    assert_eq!(state.into_buffer(), content);
}

#[test]
fn download_state_rejects_wrong_piece_count() {
    // 10 bytes with piece length 4 needs 3 digests, not 2.
    let pieces = vec![0u8; 40];
    assert!(DownloadState::new(10, 4, pieces).is_none());
    // length 0 with no pieces is fine
    assert!(DownloadState::new(0, 4, Vec::new()).is_some());
    // digest bytes not a multiple of 20
    assert!(DownloadState::new(4, 4, vec![0u8; 21]).is_none());
    // piece length zero
    assert!(DownloadState::new(4, 0, vec![0u8; 20]).is_none());
}

//! A verified core for a single-file BitTorrent leecher: a bencode
//! codec proved to round-trip, the metainfo model with its re-encoded
//! `info` digest, the tracker announce pieces, the peer wire framing,
//! and the piece download state whose invariant guarantees that every
//! stored piece hashes to its entry in the metainfo. Network and file
//! I/O live outside the library and drive it with plain values.

pub mod bencode;
pub mod bitmap;
pub mod cli;
pub mod de;
pub mod hashing;
pub mod peer;
pub mod render;
pub mod scheduler;
pub mod ser;
pub mod text;
pub mod torrent;
pub mod tracker;

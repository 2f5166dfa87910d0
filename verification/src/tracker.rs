use vstd::prelude::*;

use crate::bencode::dict_find;
use crate::bencode::dict_get;
use crate::bencode::spec_enc;
use crate::bencode::BencodeValue;
use crate::bencode::SpecValue;
use crate::de::DecodeError;
use crate::hashing::sha1_of;
use crate::peer::Peer;
use crate::text::ascii_chars;
use crate::text::ascii_string;
use crate::text::dec_chars;
use crate::text::u64_string;
use crate::torrent::info_value;
use crate::torrent::Torrent;
use vstd::string::StringExecFns;

verus! {

/// A byte that percent-encoding passes through unchanged: letters,
/// digits, `-`, `_`, `.`, `~`.
pub open spec fn is_unreserved(b: u8) -> bool {
    (65 <= b <= 90) || (97 <= b <= 122) || (48 <= b <= 57) || b == 45 || b == 95 || b == 46 || b
        == 126
}

/// The uppercase hex digit for a value below 16, as a byte.
pub open spec fn hex_upper(n: u8) -> u8 {
    if n < 10 {
        (48 + n) as u8
    } else {
        (55 + n) as u8
    }
}

/// Percent-encoding of one byte: itself when unreserved, else `%` and
/// two uppercase hex digits.
pub open spec fn pct_byte(b: u8) -> Seq<u8> {
    if is_unreserved(b) {
        seq![b]
    } else {
        seq![37u8, hex_upper(b / 16), hex_upper(b % 16)]
    }
}

/// Percent-encoding of a byte string, byte by byte in order.
pub open spec fn pct_bytes(s: Seq<u8>) -> Seq<u8>
    decreases s,
{
    if s.len() == 0 {
        Seq::empty()
    } else {
        pct_byte(s[0]) + pct_bytes(s.drop_first())
    }
}

/// Appending one byte extends the percent-encoding at the end.
pub proof fn lemma_pct_push(a: Seq<u8>, x: u8)
    ensures
        pct_bytes(a.push(x)) =~= pct_bytes(a) + pct_byte(x),
    decreases a,
{
    if a.len() == 0 {
        assert(a.push(x)[0] == x);
        assert(a.push(x).drop_first() =~= Seq::<u8>::empty());
        assert(pct_bytes(Seq::<u8>::empty()) == Seq::<u8>::empty());
    } else {
        assert(a.push(x)[0] == a[0]);
        assert(a.push(x).drop_first() =~= a.drop_first().push(x));
        lemma_pct_push(a.drop_first(), x);
    }
}

/// Percent-encoding law, per byte: an unreserved byte passes through
/// alone; any other byte becomes `%` and two uppercase hex digits.
pub proof fn lemma_percent_encode_byte(b: u8)
    ensures
        is_unreserved(b) ==> pct_byte(b) == seq![b],
        !is_unreserved(b) ==> {
            &&& pct_byte(b).len() == 3
            &&& pct_byte(b)[0] == 37
            &&& pct_byte(b)[1] == hex_upper(b / 16)
            &&& pct_byte(b)[2] == hex_upper(b % 16)
        },
        forall|n: u8|
            n < 16 ==> (48 <= hex_upper(n) <= 57 || 65 <= #[trigger] hex_upper(n) <= 70),
{
}

/// The uppercase hex digit for a value below 16, as a character.
pub fn hex_chars(byte: u8) -> (r: char)
    requires
        byte < 16,
    ensures
        r == hex_upper(byte) as char,
{
    if byte < 10 {
        (byte + 48) as char
    } else {
        (byte - 10 + 65) as char
    }
}

/// Percent-encode a byte string for a URL query value: unreserved
/// bytes pass through, every other byte becomes `%XX` with uppercase
/// hex. This is byte-wise on purpose: the value being encoded is a raw
/// digest, not text.
#[verifier::loop_isolation(false)]
pub fn percent_encode(input: &[u8]) -> (r: String)
    ensures
        r@ == ascii_chars(pct_bytes(input@)),
{
    let mut out: Vec<u8> = Vec::new();
    let mut i: usize = 0;
    proof {
        assert(input@.take(0) =~= Seq::<u8>::empty());
    }
    while i < input.len()
        invariant
            i <= input@.len(),
            out@ == pct_bytes(input@.take(i as int)),
            forall|j: int| 0 <= j < out@.len() ==> #[trigger] out@[j] < 128,
        decreases input@.len() - i,
    {
        let b = input[i];
        proof {
            lemma_pct_push(input@.take(i as int), b);
            assert(input@.take(i as int).push(b) =~= input@.take(i as int + 1));
        }
        if (65 <= b && b <= 90) || (97 <= b && b <= 122) || (48 <= b && b <= 57) || b == 45 || b
            == 95 || b == 46 || b == 126 {
            out.push(b);
        } else {
            out.push(37);
            out.push(if b / 16 < 10 {
                b / 16 + 48
            } else {
                b / 16 + 55
            });
            out.push(if b % 16 < 10 {
                b % 16 + 48
            } else {
                b % 16 + 55
            });
        }
        i = i + 1;
    }
    proof {
        assert(input@.take(input@.len() as int) =~= input@);
    }
    ascii_string(out.as_slice())
}

/// The announce request: what the client tells the tracker.
#[derive(Debug)]
pub struct TrackerRequest {
    pub info_hash: Vec<u8>,
    pub peer_id: String,
    pub port: u16,
    pub uploaded: u64,
    pub downloaded: u64,
    pub left: u64,
    pub compact: u8,
}

impl TrackerRequest {
    /// The fixed request for a fresh download of `torrent`: the
    /// torrent's info hash, this client's fixed id, port 6881, nothing
    /// transferred yet, everything still left.
    pub fn new(torrent: &Torrent) -> (r: TrackerRequest)
        requires
            torrent.info.length >= 0,
        ensures
            r.info_hash@ == sha1_of(spec_enc(info_value(torrent.info))),
            r.info_hash@.len() == 20,
            r.peer_id@ == "00112233445566778899"@,
            r.port == 6881,
            r.uploaded == 0,
            r.downloaded == 0,
            r.left == torrent.info.length,
            r.compact == 1,
    {
        TrackerRequest {
            info_hash: torrent.info_hash(),
            peer_id: "00112233445566778899".to_owned(),
            port: 6881,
            uploaded: 0,
            downloaded: 0,
            left: torrent.info.length as u64,
            compact: 1,
        }
    }

    /// Assemble the announce URL: the tracker address, then each
    /// request field as a query parameter, with the info hash
    /// percent-encoded byte-wise.
    pub fn to_url(&self, tracker: &str) -> (r: String)
        ensures
            r@ == tracker@ + "?info_hash="@ + ascii_chars(pct_bytes(self.info_hash@))
                + "&peer_id="@ + self.peer_id@ + "&port="@ + dec_chars(self.port as nat)
                + "&uploaded="@ + dec_chars(self.uploaded as nat) + "&downloaded="@ + dec_chars(
                self.downloaded as nat,
            ) + "&left="@ + dec_chars(self.left as nat) + "&compact="@ + dec_chars(
                self.compact as nat,
            ),
    {
        let mut url = tracker.to_owned();
        url.append("?info_hash=");
        let hash = percent_encode(self.info_hash.as_slice());
        url.append(hash.as_str());
        url.append("&peer_id=");
        url.append(self.peer_id.as_str());
        url.append("&port=");
        let port = u64_string(self.port as u64);
        url.append(port.as_str());
        url.append("&uploaded=");
        let uploaded = u64_string(self.uploaded);
        url.append(uploaded.as_str());
        url.append("&downloaded=");
        let downloaded = u64_string(self.downloaded);
        url.append(downloaded.as_str());
        url.append("&left=");
        let left = u64_string(self.left);
        url.append(left.as_str());
        url.append("&compact=");
        let compact = u64_string(self.compact as u64);
        url.append(compact.as_str());
        url
    }
}

/// The bytes of the dictionary key `interval`.
pub open spec fn key_interval() -> Seq<u8> {
    seq![105u8, 110u8, 116u8, 101u8, 114u8, 118u8, 97u8, 108u8]
}

/// The bytes of the dictionary key `peers`.
pub open spec fn key_peers() -> Seq<u8> {
    seq![112u8, 101u8, 101u8, 114u8, 115u8]
}

/// What a tracker answers: a poll interval and the compact peer list,
/// six bytes per peer.
#[derive(Debug)]
pub struct TrackerResponse {
    pub interval: u64,
    pub peers: Vec<u8>,
}

/// The fields a decoded tracker answer carries: the interval (absent
/// means zero) and the compact peer bytes.
pub open spec fn spec_tracker_fields(sv: SpecValue) -> Option<(int, Seq<u8>)> {
    match sv {
        SpecValue::Dict(prs) => {
            let iv = match dict_get(prs, key_interval()) {
                Some(SpecValue::Int(n)) => Some(n),
                None => Some(0int),
                _ => None,
            };
            match (iv, dict_get(prs, key_peers())) {
                (Some(n), Some(SpecValue::Bytes(pb))) => if 0 <= n {
                    Some((n, pb))
                } else {
                    None
                },
                _ => None,
            }
        },
        _ => None,
    }
}

impl TrackerResponse {
    /// Read a decoded tracker answer. The `peers` byte string is
    /// required; a missing `interval` reads as zero; a negative
    /// interval or a mistyped field is an error.
    pub fn from_bencode(v: &BencodeValue) -> (r: Result<TrackerResponse, DecodeError>)
        ensures
            match r {
                Ok(t) => spec_tracker_fields(v@) == Some((t.interval as int, t.peers@)),
                Err(_) => spec_tracker_fields(v@) is None,
            },
    {
        let ki: [u8; 8] = [105, 110, 116, 101, 114, 118, 97, 108];
        let kp: [u8; 5] = [112, 101, 101, 114, 115];
        proof {
            assert(ki@ =~= key_interval());
            assert(kp@ =~= key_peers());
        }
        let pairs = match v {
            BencodeValue::Dictionary(pairs) => pairs,
            _ => {
                return Err(DecodeError::InvalidType);
            },
        };
        let interval: u64 = match dict_find(pairs, ki.as_slice()) {
            Some(BencodeValue::Integer(n)) => {
                if *n < 0 {
                    return Err(DecodeError::InvalidType);
                }
                *n as u64
            },
            Some(_) => {
                return Err(DecodeError::InvalidType);
            },
            None => 0,
        };
        let peers = match dict_find(pairs, kp.as_slice()) {
            Some(BencodeValue::String(pb)) => vstd::slice::slice_to_vec(pb.as_slice()),
            Some(_) => {
                return Err(DecodeError::InvalidType);
            },
            None => {
                return Err(DecodeError::MissingField);
            },
        };
        Ok(TrackerResponse { interval, peers })
    }

    /// Whether the compact peer list has a whole number of six-byte
    /// records.
    pub fn peers_ok(&self) -> (r: bool)
        ensures
            r == (self.peers@.len() % 6 == 0),
    {
        self.peers.len() % 6 == 0
    }

    /// Split the compact peer list into addresses: each six-byte
    /// record is four IPv4 octets and a big-endian port.
    #[verifier::loop_isolation(false)]
    pub fn get_peers(&self) -> (r: Vec<Peer>)
        requires
            self.peers@.len() % 6 == 0,
        ensures
            r@.len() == self.peers@.len() / 6,
            forall|k: int|
                0 <= k < r@.len() ==> {
                    &&& (#[trigger] r@[k]).spec_ip() =~= self.peers@.subrange(6 * k, 6 * k + 4)
                    &&& r@[k].spec_port() == (self.peers@[6 * k + 4] as int) * 256 + (self.peers@[6
                        * k + 5] as int)
                },
    {
        let mut result: Vec<Peer> = Vec::new();
        let count = self.peers.len() / 6;
        let mut k: usize = 0;
        while k < count
            invariant
                k <= count,
                result@.len() == k,
                forall|j: int|
                    0 <= j < k ==> {
                        &&& (#[trigger] result@[j]).spec_ip() =~= self.peers@.subrange(
                            6 * j,
                            6 * j + 4,
                        )
                        &&& result@[j].spec_port() == (self.peers@[6 * j + 4] as int) * 256 + (
                        self.peers@[6 * j + 5] as int)
                    },
            decreases count - k,
        {
            let base = 6 * k;
            let ip: [u8; 4] = [
                self.peers[base],
                self.peers[base + 1],
                self.peers[base + 2],
                self.peers[base + 3],
            ];
            let port = (self.peers[base + 4] as u16) * 256 + (self.peers[base + 5] as u16);
            let peer = Peer::new(ip, port);
            proof {
                assert(ip@ =~= self.peers@.subrange(6 * k as int, 6 * k as int + 4));
            }
            result.push(peer);
            k = k + 1;
        }
        result
    }
}

} // verus!

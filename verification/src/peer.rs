use vstd::prelude::*;

use crate::bitmap::spec_bit;
use crate::bitmap::BitMap;
use crate::text::hex_chars_of;
use crate::text::hex_encode;
use crate::text::dec_chars;
use crate::text::u64_string;
use vstd::string::StringExecFns;

verus! {

/// A peer wire message after the handshake. On the wire each message
/// is framed as a 4-byte big-endian length, then (when the length is
/// not zero) a one-byte type id and a payload.
#[derive(Debug, PartialEq, Eq)]
pub enum PeerMessage {
    KeepAlive,
    Choke,
    Unchoke,
    Interested,
    NotInterested,
    Have(u32),
    Bitfield(Vec<u8>),
    Request(u32, u32, u32),
    Piece(u32, u32, Vec<u8>),
    Cancel(u32, u32, u32),
}

/// The mathematical model of a peer wire message.
pub enum SpecMessage {
    KeepAlive,
    Choke,
    Unchoke,
    Interested,
    NotInterested,
    Have(u32),
    Bitfield(Seq<u8>),
    Request(u32, u32, u32),
    Piece(u32, u32, Seq<u8>),
    Cancel(u32, u32, u32),
}

/// The model of a `PeerMessage`.
pub open spec fn msg_view(m: PeerMessage) -> SpecMessage {
    match m {
        PeerMessage::KeepAlive => SpecMessage::KeepAlive,
        PeerMessage::Choke => SpecMessage::Choke,
        PeerMessage::Unchoke => SpecMessage::Unchoke,
        PeerMessage::Interested => SpecMessage::Interested,
        PeerMessage::NotInterested => SpecMessage::NotInterested,
        PeerMessage::Have(p) => SpecMessage::Have(p),
        PeerMessage::Bitfield(b) => SpecMessage::Bitfield(b@),
        PeerMessage::Request(i, b, l) => SpecMessage::Request(i, b, l),
        PeerMessage::Piece(i, b, d) => SpecMessage::Piece(i, b, d@),
        PeerMessage::Cancel(i, b, l) => SpecMessage::Cancel(i, b, l),
    }
}

impl View for PeerMessage {
    type V = SpecMessage;

    open spec fn view(&self) -> SpecMessage {
        msg_view(*self)
    }
}

/// A 32-bit value as four big-endian bytes.
pub open spec fn be32(n: u32) -> Seq<u8> {
    seq![
        (n / 0x1000000) as u8,
        ((n / 0x10000) % 0x100) as u8,
        ((n / 0x100) % 0x100) as u8,
        (n % 0x100) as u8,
    ]
}

/// The value of four big-endian bytes.
pub open spec fn be32_val(s: Seq<u8>) -> int {
    (s[0] as int) * 0x1000000 + (s[1] as int) * 0x10000 + (s[2] as int) * 0x100 + (s[3] as int)
}

/// Big-endian byte order round-trips through its value.
pub proof fn lemma_be32_round(n: u32)
    ensures
        be32_val(be32(n)) == n,
{
    let x = n as int;
    vstd::arithmetic::div_mod::lemma_fundamental_div_mod(x, 0x100);
    vstd::arithmetic::div_mod::lemma_fundamental_div_mod(x / 0x100, 0x100);
    vstd::arithmetic::div_mod::lemma_fundamental_div_mod(x / 0x100 / 0x100, 0x100);
    vstd::arithmetic::div_mod::lemma_div_denominator(x, 0x100, 0x100);
    vstd::arithmetic::div_mod::lemma_div_denominator(x, 0x10000, 0x100);
    vstd::arithmetic::div_mod::lemma_div_denominator(x / 0x100, 0x100, 0x100);
}

/// The body of a message: the type id byte followed by the payload.
/// A keep-alive has no body at all.
pub open spec fn spec_msg_body(m: SpecMessage) -> Seq<u8> {
    match m {
        SpecMessage::KeepAlive => Seq::empty(),
        SpecMessage::Choke => seq![0u8],
        SpecMessage::Unchoke => seq![1u8],
        SpecMessage::Interested => seq![2u8],
        SpecMessage::NotInterested => seq![3u8],
        SpecMessage::Have(p) => seq![4u8] + be32(p),
        SpecMessage::Bitfield(b) => seq![5u8] + b,
        SpecMessage::Request(i, b, l) => seq![6u8] + be32(i) + be32(b) + be32(l),
        SpecMessage::Piece(i, b, d) => seq![7u8] + be32(i) + be32(b) + d,
        SpecMessage::Cancel(i, b, l) => seq![8u8] + be32(i) + be32(b) + be32(l),
    }
}

/// The full frame: big-endian body length, then the body.
pub open spec fn spec_frame(m: SpecMessage) -> Seq<u8> {
    be32(spec_msg_body(m).len() as u32) + spec_msg_body(m)
}

/// Read a message back from its body bytes. Exactly the bodies that
/// [`spec_msg_body`] produces are accepted.
pub open spec fn spec_parse_body(p: Seq<u8>) -> Option<SpecMessage> {
    if p.len() == 0 {
        Some(SpecMessage::KeepAlive)
    } else if p[0] == 0 && p.len() == 1 {
        Some(SpecMessage::Choke)
    } else if p[0] == 1 && p.len() == 1 {
        Some(SpecMessage::Unchoke)
    } else if p[0] == 2 && p.len() == 1 {
        Some(SpecMessage::Interested)
    } else if p[0] == 3 && p.len() == 1 {
        Some(SpecMessage::NotInterested)
    } else if p[0] == 4 && p.len() == 5 {
        Some(SpecMessage::Have(be32_val(p.subrange(1, 5)) as u32))
    } else if p[0] == 5 {
        Some(SpecMessage::Bitfield(p.subrange(1, p.len() as int)))
    } else if p[0] == 6 && p.len() == 13 {
        Some(
            SpecMessage::Request(
                be32_val(p.subrange(1, 5)) as u32,
                be32_val(p.subrange(5, 9)) as u32,
                be32_val(p.subrange(9, 13)) as u32,
            ),
        )
    } else if p[0] == 7 && p.len() >= 9 {
        Some(
            SpecMessage::Piece(
                be32_val(p.subrange(1, 5)) as u32,
                be32_val(p.subrange(5, 9)) as u32,
                p.subrange(9, p.len() as int),
            ),
        )
    } else if p[0] == 8 && p.len() == 13 {
        Some(
            SpecMessage::Cancel(
                be32_val(p.subrange(1, 5)) as u32,
                be32_val(p.subrange(5, 9)) as u32,
                be32_val(p.subrange(9, 13)) as u32,
            ),
        )
    } else {
        None
    }
}

/// Framing round trip: reading the body of any encoded message yields
/// that message back, and the length prefix counts exactly the body.
pub proof fn lemma_frame_round_trip(m: SpecMessage)
    requires
        spec_msg_body(m).len() <= 0xffff_ffff,
    ensures
        be32_val(spec_frame(m).subrange(0, 4)) == spec_msg_body(m).len(),
        spec_frame(m).subrange(4, spec_frame(m).len() as int) =~= spec_msg_body(m),
        spec_parse_body(spec_msg_body(m)) == Some(m),
{
    let body = spec_msg_body(m);
    lemma_be32_round(body.len() as u32);
    assert(spec_frame(m).subrange(0, 4) =~= be32(body.len() as u32));
    match m {
        SpecMessage::KeepAlive => {},
        SpecMessage::Choke => {},
        SpecMessage::Unchoke => {},
        SpecMessage::Interested => {},
        SpecMessage::NotInterested => {},
        SpecMessage::Have(p) => {
            assert(body.subrange(1, 5) =~= be32(p));
            lemma_be32_round(p);
        },
        SpecMessage::Bitfield(b) => {
            assert(body.subrange(1, body.len() as int) =~= b);
        },
        SpecMessage::Request(i, b, l) => {
            assert(body.subrange(1, 5) =~= be32(i));
            assert(body.subrange(5, 9) =~= be32(b));
            assert(body.subrange(9, 13) =~= be32(l));
            lemma_be32_round(i);
            lemma_be32_round(b);
            lemma_be32_round(l);
        },
        SpecMessage::Piece(i, b, d) => {
            assert(body.subrange(1, 5) =~= be32(i));
            assert(body.subrange(5, 9) =~= be32(b));
            assert(body.subrange(9, body.len() as int) =~= d);
            lemma_be32_round(i);
            lemma_be32_round(b);
        },
        SpecMessage::Cancel(i, b, l) => {
            assert(body.subrange(1, 5) =~= be32(i));
            assert(body.subrange(5, 9) =~= be32(b));
            assert(body.subrange(9, 13) =~= be32(l));
            lemma_be32_round(i);
            lemma_be32_round(b);
            lemma_be32_round(l);
        },
    }
}

/// Append a 32-bit value as four big-endian bytes.
fn push_be32(out: &mut Vec<u8>, n: u32)
    ensures
        final(out)@ == old(out)@ + be32(n),
{
    out.push((n / 0x1000000) as u8);
    out.push(((n / 0x10000) % 0x100) as u8);
    out.push(((n / 0x100) % 0x100) as u8);
    out.push((n % 0x100) as u8);
    assert(final(out)@ =~= old(out)@ + be32(n));
}

/// Read four big-endian bytes starting at `at`.
fn read_be32(buf: &[u8], at: usize) -> (r: u32)
    requires
        at + 4 <= buf@.len(),
    ensures
        r == be32_val(buf@.subrange(at as int, at + 4)),
{
    let b0 = buf[at] as u32;
    let b1 = buf[at + 1] as u32;
    let b2 = buf[at + 2] as u32;
    let b3 = buf[at + 3] as u32;
    b0 * 0x1000000 + b1 * 0x10000 + b2 * 0x100 + b3
}

/// Serialize a message into its full frame: length prefix, type id,
/// payload.
pub fn encode_message(m: &PeerMessage) -> (r: Vec<u8>)
    requires
        m matches PeerMessage::Bitfield(b) ==> b@.len() + 1 <= 0xffff_ffff,
        m matches PeerMessage::Piece(i, o, d) ==> d@.len() + 9 <= 0xffff_ffff,
    ensures
        r@ == spec_frame(m@),
{
    let mut body: Vec<u8> = Vec::new();
    match m {
        PeerMessage::KeepAlive => {},
        PeerMessage::Choke => {
            body.push(0);
        },
        PeerMessage::Unchoke => {
            body.push(1);
        },
        PeerMessage::Interested => {
            body.push(2);
        },
        PeerMessage::NotInterested => {
            body.push(3);
        },
        PeerMessage::Have(p) => {
            body.push(4);
            push_be32(&mut body, *p);
        },
        PeerMessage::Bitfield(b) => {
            body.push(5);
            body.extend_from_slice(b.as_slice());
        },
        PeerMessage::Request(i, b, l) => {
            body.push(6);
            push_be32(&mut body, *i);
            push_be32(&mut body, *b);
            push_be32(&mut body, *l);
        },
        PeerMessage::Piece(i, b, d) => {
            body.push(7);
            push_be32(&mut body, *i);
            push_be32(&mut body, *b);
            body.extend_from_slice(d.as_slice());
        },
        PeerMessage::Cancel(i, b, l) => {
            body.push(8);
            push_be32(&mut body, *i);
            push_be32(&mut body, *b);
            push_be32(&mut body, *l);
        },
    }
    assert(body@ =~= spec_msg_body(m@));
    let mut frame: Vec<u8> = Vec::new();
    push_be32(&mut frame, body.len() as u32);
    frame.extend_from_slice(body.as_slice());
    assert(frame@ =~= spec_frame(m@));
    frame
}

/// Parse a message from its body (everything after the length prefix;
/// empty for a keep-alive). Fails exactly on bodies that no message
/// has: an unknown type id or a payload of the wrong size.
pub fn parse_message(body: &[u8]) -> (r: Result<PeerMessage, WireError>)
    ensures
        match r {
            Ok(m) => spec_parse_body(body@) == Some(m@),
            Err(_) => spec_parse_body(body@) is None,
        },
{
    let n = body.len();
    if n == 0 {
        return Ok(PeerMessage::KeepAlive);
    }
    let id = body[0];
    if id == 0 && n == 1 {
        Ok(PeerMessage::Choke)
    } else if id == 1 && n == 1 {
        Ok(PeerMessage::Unchoke)
    } else if id == 2 && n == 1 {
        Ok(PeerMessage::Interested)
    } else if id == 3 && n == 1 {
        Ok(PeerMessage::NotInterested)
    } else if id == 4 && n == 5 {
        Ok(PeerMessage::Have(read_be32(body, 1)))
    } else if id == 5 {
        let bits = vstd::slice::slice_to_vec(vstd::slice::slice_subrange(body, 1, n));
        Ok(PeerMessage::Bitfield(bits))
    } else if id == 6 && n == 13 {
        Ok(PeerMessage::Request(read_be32(body, 1), read_be32(body, 5), read_be32(body, 9)))
    } else if id == 7 && n >= 9 {
        let data = vstd::slice::slice_to_vec(vstd::slice::slice_subrange(body, 9, n));
        Ok(PeerMessage::Piece(read_be32(body, 1), read_be32(body, 5), data))
    } else if id == 8 && n == 13 {
        Ok(PeerMessage::Cancel(read_be32(body, 1), read_be32(body, 5), read_be32(body, 9)))
    } else if id > 8 {
        Err(WireError::UnknownId)
    } else {
        Err(WireError::BadPayload)
    }
}


/// A remote peer's IPv4 address and port.
#[derive(Debug, Clone, Copy)]
pub struct Peer {
    ip: [u8; 4],
    port: u16,
}

impl Peer {
    /// The four address octets.
    pub closed spec fn spec_ip(&self) -> Seq<u8> {
        self.ip@
    }

    /// The TCP port.
    pub closed spec fn spec_port(&self) -> u16 {
        self.port
    }

    pub fn new(ip: [u8; 4], port: u16) -> (r: Peer)
        ensures
            r.spec_ip() == ip@,
            r.spec_port() == port,
    {
        Peer { ip, port }
    }

    /// The address as `a.b.c.d:port` text.
    pub fn to_url(self) -> (r: String)
        ensures
            r@ == dec_chars(self.spec_ip()[0] as nat) + seq!['.'] + dec_chars(
                self.spec_ip()[1] as nat,
            ) + seq!['.'] + dec_chars(self.spec_ip()[2] as nat) + seq!['.'] + dec_chars(
                self.spec_ip()[3] as nat,
            ) + seq![':'] + dec_chars(self.spec_port() as nat),
    {
        let mut url = u64_string(self.ip[0] as u64);
        url.append(".");
        let o1 = u64_string(self.ip[1] as u64);
        url.append(o1.as_str());
        url.append(".");
        let o2 = u64_string(self.ip[2] as u64);
        url.append(o2.as_str());
        url.append(".");
        let o3 = u64_string(self.ip[3] as u64);
        url.append(o3.as_str());
        url.append(":");
        let pt = u64_string(self.port as u64);
        url.append(pt.as_str());
        proof {
            reveal_strlit(".");
            reveal_strlit(":");
        }
        url
    }
}


/// A failure of the peer wire layer. Each one is fatal for its
/// session, never for the download.
#[derive(Debug, Clone, Copy, PartialEq, Eq, Structural)]
pub enum WireError {
    /// A message carried a type id no message has.
    UnknownId,
    /// A message payload had the wrong size for its type id.
    BadPayload,
    /// A received handshake did not open with the protocol name
    /// length 19.
    InvalidHandshake,
}

/// The 19 bytes of the protocol name `BitTorrent protocol`.
pub open spec fn protocol_bytes() -> Seq<u8> {
    seq![
        66u8, 105u8, 116u8, 84u8, 111u8, 114u8, 114u8, 101u8, 110u8, 116u8, 32u8, 112u8, 114u8,
        111u8, 116u8, 111u8, 99u8, 111u8, 108u8,
    ]
}

/// The 68 handshake bytes: the protocol name length and name, eight
/// reserved zero bytes, the info hash, the peer id.
pub open spec fn spec_handshake(info_hash: Seq<u8>, peer_id: Seq<u8>) -> Seq<u8> {
    seq![19u8] + protocol_bytes() + seq![0u8, 0u8, 0u8, 0u8, 0u8, 0u8, 0u8, 0u8] + info_hash
        + peer_id
}

/// The opening exchange of a peer connection.
pub struct Handshake {
    pub info_hash: Vec<u8>,
    pub peer_id: String,
}

impl Handshake {
    pub fn new(info_hash: Vec<u8>, peer_id: String) -> (r: Handshake)
        ensures
            r.info_hash@ == info_hash@,
            r.peer_id@ == peer_id@,
    {
        Handshake { info_hash, peer_id }
    }

    /// The 68 bytes sent on connect.
    pub fn to_bytes(&self) -> (r: Vec<u8>)
        requires
            self.info_hash@.len() == 20,
            vstd::utf8::encode_utf8(self.peer_id@).len() == 20,
        ensures
            r@ == spec_handshake(self.info_hash@, vstd::utf8::encode_utf8(self.peer_id@)),
            r@.len() == 68,
    {
        let name: [u8; 19] = [
            66, 105, 116, 84, 111, 114, 114, 101, 110, 116, 32, 112, 114, 111, 116, 111, 99, 111,
            108,
        ];
        let mut buf: Vec<u8> = Vec::new();
        buf.push(19);
        buf.extend_from_slice(name.as_slice());
        let reserved: [u8; 8] = [0, 0, 0, 0, 0, 0, 0, 0];
        buf.extend_from_slice(reserved.as_slice());
        buf.extend_from_slice(self.info_hash.as_slice());
        buf.extend_from_slice(self.peer_id.as_str().as_bytes());
        proof {
            assert(name@ =~= protocol_bytes());
            assert(reserved@ =~= seq![0u8, 0u8, 0u8, 0u8, 0u8, 0u8, 0u8, 0u8]);
            assert(buf@ =~= spec_handshake(
                self.info_hash@,
                vstd::utf8::encode_utf8(self.peer_id@),
            ));
        }
        buf
    }

    /// Read a received handshake. It is valid exactly when its first
    /// byte is 19; the remote peer id comes out as 40 hex characters.
    pub fn from_buf(buf: &[u8]) -> (r: Result<Handshake, WireError>)
        requires
            buf@.len() == 68,
        ensures
            match r {
                Ok(h) => {
                    &&& buf@[0] == 19
                    &&& h.info_hash@ == buf@.subrange(28, 48)
                    &&& h.peer_id@ == hex_chars_of(buf@.subrange(48, 68))
                },
                Err(_) => buf@[0] != 19,
            },
    {
        if buf[0] != 19 {
            return Err(WireError::InvalidHandshake);
        }
        let info_hash = vstd::slice::slice_to_vec(vstd::slice::slice_subrange(buf, 28, 48));
        let peer_id = hex_encode(vstd::slice::slice_subrange(buf, 48, 68));
        Ok(Handshake { info_hash, peer_id })
    }
}

/// The four per-connection flow-control flags, packed in one byte of a
/// bit map: bit 0 is am-choking, bit 1 am-interested, bit 2
/// peer-choking, bit 3 peer-interested.
pub struct ConnectionState {
    pub inner: BitMap,
}

impl ConnectionState {
    /// The flag byte exists.
    pub open spec fn wf(&self) -> bool {
        self.inner@.len() >= 1
    }

    pub open spec fn spec_am_choking(&self) -> bool {
        spec_bit(self.inner@, 0)
    }

    pub open spec fn spec_am_interested(&self) -> bool {
        spec_bit(self.inner@, 1)
    }

    pub open spec fn spec_peer_choking(&self) -> bool {
        spec_bit(self.inner@, 2)
    }

    pub open spec fn spec_peer_interested(&self) -> bool {
        spec_bit(self.inner@, 3)
    }

    /// A fresh connection: both sides choking, neither interested.
    pub fn new() -> (r: ConnectionState)
        ensures
            r.wf(),
            r.spec_am_choking(),
            !r.spec_am_interested(),
            r.spec_peer_choking(),
            !r.spec_peer_interested(),
    {
        let mut inner = BitMap::new();
        inner.set(0);
        inner.set(2);
        ConnectionState { inner }
    }

    pub fn am_choking(&self) -> (r: bool)
        requires
            self.wf(),
        ensures
            r == self.spec_am_choking(),
    {
        self.inner.get(0)
    }

    pub fn am_interested(&self) -> (r: bool)
        requires
            self.wf(),
        ensures
            r == self.spec_am_interested(),
    {
        self.inner.get(1)
    }

    pub fn peer_choking(&self) -> (r: bool)
        requires
            self.wf(),
        ensures
            r == self.spec_peer_choking(),
    {
        self.inner.get(2)
    }

    pub fn peer_interested(&self) -> (r: bool)
        requires
            self.wf(),
        ensures
            r == self.spec_peer_interested(),
    {
        self.inner.get(3)
    }

    pub fn set_am_choking(&mut self, value: bool)
        requires
            old(self).wf(),
        ensures
            final(self).wf(),
            final(self).spec_am_choking() == value,
            final(self).spec_am_interested() == old(self).spec_am_interested(),
            final(self).spec_peer_choking() == old(self).spec_peer_choking(),
            final(self).spec_peer_interested() == old(self).spec_peer_interested(),
    {
        if value {
            self.inner.set(0);
        } else {
            self.inner.unset(0);
        }
    }

    pub fn set_am_interested(&mut self, value: bool)
        requires
            old(self).wf(),
        ensures
            final(self).wf(),
            final(self).spec_am_interested() == value,
            final(self).spec_am_choking() == old(self).spec_am_choking(),
            final(self).spec_peer_choking() == old(self).spec_peer_choking(),
            final(self).spec_peer_interested() == old(self).spec_peer_interested(),
    {
        if value {
            self.inner.set(1);
        } else {
            self.inner.unset(1);
        }
    }

    pub fn set_peer_choking(&mut self, value: bool)
        requires
            old(self).wf(),
        ensures
            final(self).wf(),
            final(self).spec_peer_choking() == value,
            final(self).spec_am_choking() == old(self).spec_am_choking(),
            final(self).spec_am_interested() == old(self).spec_am_interested(),
            final(self).spec_peer_interested() == old(self).spec_peer_interested(),
    {
        if value {
            self.inner.set(2);
        } else {
            self.inner.unset(2);
        }
    }

    pub fn set_peer_interested(&mut self, value: bool)
        requires
            old(self).wf(),
        ensures
            final(self).wf(),
            final(self).spec_peer_interested() == value,
            final(self).spec_am_choking() == old(self).spec_am_choking(),
            final(self).spec_am_interested() == old(self).spec_am_interested(),
            final(self).spec_peer_choking() == old(self).spec_peer_choking(),
    {
        if value {
            self.inner.set(3);
        } else {
            self.inner.unset(3);
        }
    }
}

/// A block request covers at most 16 KiB.
pub open spec fn block_limit() -> int {
    16384
}

/// The size of piece `index`: the nominal piece length, except for the
/// final piece, which covers only what remains of the file.
pub open spec fn spec_piece_size(total: int, piece_len: int, index: int) -> int {
    if (index + 1) * piece_len <= total {
        piece_len
    } else {
        total - index * piece_len
    }
}

/// Compute a piece's size; the piece must start inside the file.
pub fn piece_size(total: u64, piece_len: u64, index: u32) -> (r: u64)
    requires
        piece_len >= 1,
        (index as int) * (piece_len as int) < total,
    ensures
        r == spec_piece_size(total as int, piece_len as int, index as int),
        1 <= r <= piece_len,
{
    let start = (index as u64) * piece_len;
    proof {
        assert((index as int + 1) * (piece_len as int) == (index as int) * (piece_len as int)
            + piece_len) by (nonlinear_arith);
    }
    let rest = total - start;
    if rest < piece_len {
        rest
    } else {
        piece_len
    }
}

/// The next block request within a piece, given how many bytes have
/// already arrived: the offset to ask at and the size to ask for, or
/// nothing when the piece is complete. Requests are sequential; each
/// asks for at most 16 KiB.
pub fn next_block(piece_size: u32, received: u32) -> (r: Option<(u32, u32)>)
    requires
        received <= piece_size,
    ensures
        match r {
            Some((begin, len)) => {
                &&& received < piece_size
                &&& begin == received
                &&& len == if piece_size - received < block_limit() {
                    piece_size - received
                } else {
                    block_limit()
                }
                &&& 1 <= len
                &&& begin + len <= piece_size
            },
            None => received == piece_size,
        },
{
    if received == piece_size {
        None
    } else {
        let rem = piece_size - received;
        let len = if rem < 16384 {
            rem
        } else {
            16384
        };
        Some((received, len))
    }
}

} // verus!

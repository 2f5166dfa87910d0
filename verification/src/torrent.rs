use vstd::prelude::*;

use crate::bencode::dict_find;
use crate::bencode::dict_get;
use crate::bencode::lemma_lex_lt_at;
use crate::bencode::spec_dec;
use crate::bencode::spec_enc;
use crate::bencode::spec_keys_ascending;
use crate::bencode::spec_wf;
use crate::bencode::BencodeValue;
use crate::bencode::spec_enc_bytes;
use crate::bencode::spec_enc_pairs;
use crate::bencode::SpecValue;
use crate::hashing::sha1_digest;
use crate::hashing::sha1_of;
use crate::de::DecodeError;
use crate::ser::Serializer;
use crate::text::is_utf8;
use crate::text::utf8_string;
use vstd::string::StringSliceAdditionalSpecFns;
use vstd::utf8::encode_utf8;

verus! {

/// The metainfo of a single-file torrent.
#[derive(Debug)]
pub struct Torrent {
    pub announce: String,
    pub info: Info,
}

/// The `info` sub-dictionary of a metainfo file.
#[derive(Debug)]
pub struct Info {
    pub length: i64,
    pub name: String,
    pub piece_length: i64,
    pub pieces: Vec<u8>,
}

/// The bytes of the dictionary key `length`.
pub open spec fn key_length() -> Seq<u8> {
    seq![108u8, 101u8, 110u8, 103u8, 116u8, 104u8]
}

/// The bytes of the dictionary key `name`.
pub open spec fn key_name() -> Seq<u8> {
    seq![110u8, 97u8, 109u8, 101u8]
}

/// The bytes of the dictionary key `piece length` (with the space).
pub open spec fn key_piece_length() -> Seq<u8> {
    seq![112u8, 105u8, 101u8, 99u8, 101u8, 32u8, 108u8, 101u8, 110u8, 103u8, 116u8, 104u8]
}

/// The bytes of the dictionary key `pieces`.
pub open spec fn key_pieces() -> Seq<u8> {
    seq![112u8, 105u8, 101u8, 99u8, 101u8, 115u8]
}

/// The bencode value of an `info` dictionary: its four fields under
/// their wire keys, in ascending key order.
pub open spec fn info_value(info: Info) -> SpecValue {
    SpecValue::Dict(
        seq![
            (key_length(), SpecValue::Int(info.length as int)),
            (key_name(), SpecValue::Bytes(encode_utf8(info.name@))),
            (key_piece_length(), SpecValue::Int(info.piece_length as int)),
            (key_pieces(), SpecValue::Bytes(info.pieces@)),
        ],
    )
}

impl Info {
    /// Re-encode the dictionary in canonical form: the four fields
    /// under sorted keys. This is the byte string whose SHA-1 digest
    /// identifies the torrent.
    pub fn bencode_bytes(&self) -> (r: Vec<u8>)
        ensures
            r@ == spec_enc(info_value(*self)),
    {
        let kl: [u8; 6] = [108, 101, 110, 103, 116, 104];
        let kn: [u8; 4] = [110, 97, 109, 101];
        let kp: [u8; 12] = [112, 105, 101, 99, 101, 32, 108, 101, 110, 103, 116, 104];
        let ks: [u8; 6] = [112, 105, 101, 99, 101, 115];
        let mut ser = Serializer::new();
        ser.push(&[100u8]);
        ser.serialize_bytes(kl.as_slice());
        ser.serialize_integer(self.length);
        ser.serialize_bytes(kn.as_slice());
        ser.serialize_bytes(self.name.as_str().as_bytes());
        ser.serialize_bytes(kp.as_slice());
        ser.serialize_integer(self.piece_length);
        ser.serialize_bytes(ks.as_slice());
        ser.serialize_bytes(self.pieces.as_slice());
        ser.push(&[101u8]);
        proof {
            assert(kl@ =~= key_length());
            assert(kn@ =~= key_name());
            assert(kp@ =~= key_piece_length());
            assert(ks@ =~= key_pieces());
            let prs = info_value(*self)->Dict_0;
            reveal_with_fuel(crate::bencode::spec_enc_pairs, 6);
            assert(prs.drop_first()[0] == prs[1]);
            assert(prs.drop_first().drop_first()[0] == prs[2]);
            assert(prs.drop_first().drop_first().drop_first()[0] == prs[3]);
            assert(prs.drop_first().drop_first().drop_first().drop_first().len() == 0);
            let p3 = prs.drop_first().drop_first().drop_first();
            let p2 = prs.drop_first().drop_first();
            let p1 = prs.drop_first();
            assert(spec_enc_pairs(p3) =~= spec_enc_bytes(key_pieces()) + spec_enc(
                SpecValue::Bytes(self.pieces@),
            ));
            assert(spec_enc_pairs(p2) =~= spec_enc_bytes(key_piece_length()) + spec_enc(
                SpecValue::Int(self.piece_length as int),
            ) + spec_enc_pairs(p3));
            assert(spec_enc_pairs(p1) =~= spec_enc_bytes(key_name()) + spec_enc(
                SpecValue::Bytes(encode_utf8(self.name@)),
            ) + spec_enc_pairs(p2));
            assert(spec_enc_pairs(prs) =~= spec_enc_bytes(key_length()) + spec_enc(
                SpecValue::Int(self.length as int),
            ) + spec_enc_pairs(p1));
            assert(ser@ =~= spec_enc(info_value(*self)));
        }
        ser.into_vec()
    }
}

impl Info {
    /// The expected digest of each piece, as 40 hex characters each,
    /// in piece order.
    #[verifier::loop_isolation(false)]
    pub fn piece_hashes(&self) -> (r: Vec<String>)
        requires
            self.pieces@.len() % 20 == 0,
        ensures
            r@.len() == self.pieces@.len() as int / 20,
            forall|k: int|
                0 <= k < r@.len() ==> (#[trigger] r@[k])@ == crate::text::hex_chars_of(
                    self.pieces@.subrange(20 * k, 20 * k + 20),
                ),
    {
        let mut out: Vec<String> = Vec::new();
        let n = self.pieces.len() / 20;
        proof {
            vstd::arithmetic::div_mod::lemma_fundamental_div_mod(self.pieces@.len() as int, 20);
        }
        let mut k: usize = 0;
        while k < n
            invariant
                k <= n,
                out@.len() == k,
                forall|j: int|
                    0 <= j < k ==> (#[trigger] out@[j])@ == crate::text::hex_chars_of(
                        self.pieces@.subrange(20 * j, 20 * j + 20),
                    ),
            decreases n - k,
        {
            let line = crate::text::hex_encode(
                vstd::slice::slice_subrange(self.pieces.as_slice(), 20 * k, 20 * k + 20),
            );
            out.push(line);
            k = k + 1;
        }
        out
    }
}

impl Torrent {
    /// The torrent's identity: the SHA-1 digest of the canonical
    /// re-encoding of its `info` dictionary. It depends on the four
    /// `info` fields alone, never on the order a source listed them in.
    pub fn info_hash(&self) -> (r: Vec<u8>)
        ensures
            r@ == sha1_of(spec_enc(info_value(self.info))),
            r@.len() == 20,
    {
        let encoded = self.info.bencode_bytes();
        sha1_digest(encoded.as_slice())
    }
}


/// The bytes of the dictionary key `announce`.
pub open spec fn key_announce() -> Seq<u8> {
    seq![97u8, 110u8, 110u8, 111u8, 117u8, 110u8, 99u8, 101u8]
}

/// The bytes of the dictionary key `info`.
pub open spec fn key_info() -> Seq<u8> {
    seq![105u8, 110u8, 102u8, 111u8]
}

/// The four `info` fields as a dictionary value holds them: length,
/// name bytes, piece length, pieces bytes.
pub open spec fn spec_info_fields(sv: SpecValue) -> Option<(int, Seq<u8>, int, Seq<u8>)> {
    match sv {
        SpecValue::Dict(prs) => match (
            dict_get(prs, key_length()),
            dict_get(prs, key_name()),
            dict_get(prs, key_piece_length()),
            dict_get(prs, key_pieces()),
        ) {
            (
                Some(SpecValue::Int(l)),
                Some(SpecValue::Bytes(nb)),
                Some(SpecValue::Int(pl)),
                Some(SpecValue::Bytes(pb)),
            ) => Some((l, nb, pl, pb)),
            _ => None,
        },
        _ => None,
    }
}

/// A dictionary value carries a readable `info`: all four fields are
/// present with their required shapes and the name is text.
pub open spec fn spec_info_ok(sv: SpecValue) -> bool {
    spec_info_fields(sv) matches Some((l, nb, pl, pb)) && is_utf8(nb)
}

/// `info` holds exactly the fields the dictionary value carries.
pub open spec fn spec_info_matches(sv: SpecValue, info: Info) -> bool {
    spec_info_fields(sv) == Some(
        (
            info.length as int,
            vstd::utf8::encode_utf8(info.name@),
            info.piece_length as int,
            info.pieces@,
        ),
    )
}

/// The `announce` URL bytes and the `info` sub-value of a metainfo
/// dictionary.
pub open spec fn spec_torrent_fields(sv: SpecValue) -> Option<(Seq<u8>, SpecValue)> {
    match sv {
        SpecValue::Dict(prs) => match (dict_get(prs, key_announce()), dict_get(prs, key_info())) {
            (Some(SpecValue::Bytes(ab)), Some(iv)) => Some((ab, iv)),
            _ => None,
        },
        _ => None,
    }
}

/// A dictionary value carries a readable metainfo.
pub open spec fn spec_torrent_ok(sv: SpecValue) -> bool {
    spec_torrent_fields(sv) matches Some((ab, iv)) && is_utf8(ab) && spec_info_ok(iv)
}

/// `t` holds exactly what the dictionary value carries.
pub open spec fn spec_torrent_matches(sv: SpecValue, t: Torrent) -> bool {
    &&& spec_torrent_fields(sv) matches Some((ab, iv)) && vstd::utf8::encode_utf8(t.announce@)
        == ab && spec_info_matches(iv, t.info)
}

impl Info {
    /// Read the four fields out of a decoded dictionary. Unknown keys
    /// are ignored; a missing or mistyped field, or a name that is not
    /// UTF-8, is an error.
    pub fn from_bencode(v: &BencodeValue) -> (r: Result<Info, DecodeError>)
        ensures
            match r {
                Ok(info) => spec_info_matches(v@, info),
                Err(_) => !spec_info_ok(v@),
            },
    {
        let kl: [u8; 6] = [108, 101, 110, 103, 116, 104];
        let kn: [u8; 4] = [110, 97, 109, 101];
        let kp: [u8; 12] = [112, 105, 101, 99, 101, 32, 108, 101, 110, 103, 116, 104];
        let ks: [u8; 6] = [112, 105, 101, 99, 101, 115];
        proof {
            assert(kl@ =~= key_length());
            assert(kn@ =~= key_name());
            assert(kp@ =~= key_piece_length());
            assert(ks@ =~= key_pieces());
        }
        let pairs = match v {
            BencodeValue::Dictionary(pairs) => pairs,
            _ => {
                return Err(DecodeError::InvalidType);
            },
        };
        let length = match dict_find(pairs, kl.as_slice()) {
            Some(BencodeValue::Integer(l)) => *l,
            Some(_) => {
                return Err(DecodeError::InvalidType);
            },
            None => {
                return Err(DecodeError::MissingField);
            },
        };
        let name_bytes = match dict_find(pairs, kn.as_slice()) {
            Some(BencodeValue::String(nb)) => nb,
            Some(_) => {
                return Err(DecodeError::InvalidType);
            },
            None => {
                return Err(DecodeError::MissingField);
            },
        };
        let piece_length = match dict_find(pairs, kp.as_slice()) {
            Some(BencodeValue::Integer(pl)) => *pl,
            Some(_) => {
                return Err(DecodeError::InvalidType);
            },
            None => {
                return Err(DecodeError::MissingField);
            },
        };
        let pieces = match dict_find(pairs, ks.as_slice()) {
            Some(BencodeValue::String(pb)) => vstd::slice::slice_to_vec(pb.as_slice()),
            Some(_) => {
                return Err(DecodeError::InvalidType);
            },
            None => {
                return Err(DecodeError::MissingField);
            },
        };
        let name = match utf8_string(name_bytes.as_slice()) {
            Some(s) => s,
            None => {
                return Err(DecodeError::InvalidUtf8);
            },
        };
        Ok(Info { length, name, piece_length, pieces })
    }

    /// Decode a whole byte string as an `info` dictionary.
    pub fn from_bytes(b: &[u8]) -> (r: Result<Info, DecodeError>)
        ensures
            match r {
                Ok(info) => spec_dec(b@, 0) matches Some((sv, n)) && n == b@.len()
                    && spec_info_matches(sv, info),
                Err(_) => !(spec_dec(b@, 0) matches Some((sv, n)) && n == b@.len()
                    && spec_info_ok(sv)),
            },
    {
        let v = match crate::de::from_bytes(b) {
            Ok(v) => v,
            Err(e) => {
                return Err(e);
            },
        };
        Info::from_bencode(&v)
    }

    /// Decode a whole string as an `info` dictionary.
    pub fn from_str(input: &str) -> (r: Result<Info, DecodeError>)
        ensures
            match r {
                Ok(info) => spec_dec(input.spec_bytes(), 0) matches Some((sv, n)) && n
                    == input.spec_bytes().len() && spec_info_matches(sv, info),
                Err(_) => !(spec_dec(input.spec_bytes(), 0) matches Some((sv, n)) && n
                    == input.spec_bytes().len() && spec_info_ok(sv)),
            },
    {
        Info::from_bytes(input.as_bytes())
    }
}

impl Torrent {
    /// Read `announce` and `info` out of a decoded metainfo
    /// dictionary.
    pub fn from_bencode(v: &BencodeValue) -> (r: Result<Torrent, DecodeError>)
        ensures
            match r {
                Ok(t) => spec_torrent_matches(v@, t),
                Err(_) => !spec_torrent_ok(v@),
            },
    {
        let ka: [u8; 8] = [97, 110, 110, 111, 117, 110, 99, 101];
        let ki: [u8; 4] = [105, 110, 102, 111];
        proof {
            assert(ka@ =~= key_announce());
            assert(ki@ =~= key_info());
        }
        let pairs = match v {
            BencodeValue::Dictionary(pairs) => pairs,
            _ => {
                return Err(DecodeError::InvalidType);
            },
        };
        let announce_bytes = match dict_find(pairs, ka.as_slice()) {
            Some(BencodeValue::String(ab)) => ab,
            Some(_) => {
                return Err(DecodeError::InvalidType);
            },
            None => {
                return Err(DecodeError::MissingField);
            },
        };
        let info_value_ref = match dict_find(pairs, ki.as_slice()) {
            Some(iv) => iv,
            None => {
                return Err(DecodeError::MissingField);
            },
        };
        let info = match Info::from_bencode(info_value_ref) {
            Ok(info) => info,
            Err(e) => {
                return Err(e);
            },
        };
        let announce = match utf8_string(announce_bytes.as_slice()) {
            Some(s) => s,
            None => {
                return Err(DecodeError::InvalidUtf8);
            },
        };
        Ok(Torrent { announce, info })
    }

    /// Decode a whole byte string as a metainfo dictionary.
    pub fn from_bytes(b: &[u8]) -> (r: Result<Torrent, DecodeError>)
        ensures
            match r {
                Ok(t) => spec_dec(b@, 0) matches Some((sv, n)) && n == b@.len()
                    && spec_torrent_matches(sv, t),
                Err(_) => !(spec_dec(b@, 0) matches Some((sv, n)) && n == b@.len()
                    && spec_torrent_ok(sv)),
            },
    {
        let v = match crate::de::from_bytes(b) {
            Ok(v) => v,
            Err(e) => {
                return Err(e);
            },
        };
        Torrent::from_bencode(&v)
    }

    /// Decode a whole string as a metainfo dictionary.
    pub fn from_str(input: &str) -> (r: Result<Torrent, DecodeError>)
        ensures
            match r {
                Ok(t) => spec_dec(input.spec_bytes(), 0) matches Some((sv, n)) && n
                    == input.spec_bytes().len() && spec_torrent_matches(sv, t),
                Err(_) => !(spec_dec(input.spec_bytes(), 0) matches Some((sv, n)) && n
                    == input.spec_bytes().len() && spec_torrent_ok(sv)),
            },
    {
        Torrent::from_bytes(input.as_bytes())
    }
}

/// Hash stability: the canonical `info` encoding is well-formed — its
/// keys stand in strictly ascending byte order — so the digest depends
/// on the four field values alone, not on any ordering a source chose.
pub proof fn lemma_info_value_wf(info: Info)
    ensures
        spec_wf(info_value(info)),
{
    let prs = info_value(info)->Dict_0;
    lemma_lex_lt_at(key_length(), key_name(), 0);
    lemma_lex_lt_at(key_name(), key_piece_length(), 0);
    lemma_lex_lt_at(key_piece_length(), key_pieces(), 5);
    reveal_with_fuel(spec_keys_ascending, 5);
    assert(prs.drop_first()[0] == prs[1]);
    assert(prs.drop_first()[1] == prs[2]);
    assert(prs.drop_first().drop_first()[0] == prs[2]);
    assert(prs.drop_first().drop_first()[1] == prs[3]);
    assert(prs.drop_first().drop_first().drop_first()[0] == prs[3]);
    assert(prs.drop_first().drop_first().drop_first().len() == 1);
    assert(spec_keys_ascending(prs));
    assert forall|i: int| 0 <= i < prs.len() implies spec_wf(#[trigger] prs[i].1) by {
        assert(prs[0].1 is Int && prs[1].1 is Bytes && prs[2].1 is Int && prs[3].1 is Bytes);
    }
}

} // verus!

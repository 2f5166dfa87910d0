use vstd::prelude::*;
use vstd::utf8::encode_utf8;

use crate::bencode::lemma_spec_digits;
use crate::bencode::spec_digits;

verus! {

/// The lowercase hex digit for a value below 16.
pub open spec fn hex_lower(n: u8) -> char {
    if n < 10 {
        (48 + n) as char
    } else {
        (87 + n) as char
    }
}

/// Two lowercase hex digits per byte, in input order.
pub open spec fn hex_chars_of(b: Seq<u8>) -> Seq<char> {
    Seq::new(
        b.len() * 2,
        |i: int|
            if i % 2 == 0 {
                hex_lower(b[i / 2] / 16)
            } else {
                hex_lower(b[i / 2] % 16)
            },
    )
}

/// Relies on hex::encode: two lowercase hex digits for each byte, in
/// input order.
#[verifier::external_body]
pub fn hex_encode(data: &[u8]) -> (r: String)
    ensures
        r@ == hex_chars_of(data@),
{
    hex::encode(data)
}

/// ASCII bytes read as the characters they encode.
pub open spec fn ascii_chars(b: Seq<u8>) -> Seq<char> {
    b.map_values(|x: u8| x as char)
}

/// Read ASCII bytes as a string: each byte becomes the character it
/// encodes.
pub fn ascii_string(data: &[u8]) -> (r: String)
    requires
        forall|i: int| 0 <= i < data@.len() ==> data@[i] < 128,
    ensures
        r@ == ascii_chars(data@),
{
    match utf8_string(data) {
        Some(s) => s,
        None => {
            proof {
                assert(false);
            }
            String::new()
        },
    }
}

/// Append the decimal digits of `n`, most significant first.
pub fn push_decimal(out: &mut Vec<u8>, n: u64)
    ensures
        final(out)@ == old(out)@ + spec_digits(n as nat),
    decreases n,
{
    if n < 10 {
        out.push(48 + n as u8);
    } else {
        push_decimal(out, n / 10);
        out.push(48 + (n % 10) as u8);
        assert(final(out)@ == old(out)@ + spec_digits(n as nat / 10).push(
            (48 + n as nat % 10) as u8,
        ));
    }
}

/// The decimal digits of `n` as characters.
pub open spec fn dec_chars(n: nat) -> Seq<char> {
    ascii_chars(spec_digits(n))
}

/// Format an unsigned value in decimal.
pub fn u64_string(n: u64) -> (r: String)
    ensures
        r@ == dec_chars(n as nat),
{
    let mut digits: Vec<u8> = Vec::new();
    push_decimal(&mut digits, n);
    proof {
        lemma_spec_digits(n as nat);
    }
    ascii_string(digits.as_slice())
}


/// A byte string is valid UTF-8 when some character sequence encodes
/// to it.
pub open spec fn is_utf8(b: Seq<u8>) -> bool {
    exists|t: Seq<char>| encode_utf8(t) == b
}

/// Relies on String::from_utf8: on success the result's bytes are
/// exactly the input; it fails exactly on byte strings that encode no
/// character sequence; ASCII bytes always succeed and come through as
/// the characters they encode.
#[verifier::external_body]
pub fn utf8_string(data: &[u8]) -> (r: Option<String>)
    ensures
        r matches Some(s) ==> encode_utf8(s@) == data@,
        r is None ==> forall|t: Seq<char>| encode_utf8(t) != data@,
        r matches Some(s) ==> ((forall|i: int| 0 <= i < data@.len() ==> data@[i] < 128) ==> s@
            == ascii_chars(data@)),
        r is None ==> exists|i: int| 0 <= i < data@.len() && data@[i] >= 128,
{
    match String::from_utf8(data.to_vec()) {
        Ok(s) => Some(s),
        Err(_) => None,
    }
}

} // verus!

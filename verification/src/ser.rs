use vstd::prelude::*;

use crate::bencode::lemma_dict_view_props;
use crate::bencode::lemma_enc_items_push;
use crate::bencode::lemma_enc_pairs_push;
use crate::bencode::lemma_list_view_props;
use crate::bencode::spec_digits;
use crate::bencode::spec_enc;
use crate::bencode::spec_enc_bytes;
use crate::bencode::spec_enc_int;
use crate::bencode::spec_enc_items;
use crate::bencode::spec_enc_pairs;
use crate::bencode::BencodeValue;
use crate::bencode::SpecValue;

verus! {

/// A bencode encoder accumulating its output bytes. Its view is the
/// byte sequence written so far.
pub struct Serializer {
    output: Vec<u8>,
}

impl View for Serializer {
    type V = Seq<u8>;

    closed spec fn view(&self) -> Seq<u8> {
        self.output@
    }
}

impl Serializer {
    pub fn new() -> (r: Serializer)
        ensures
            r@ == Seq::<u8>::empty(),
    {
        Serializer { output: Vec::new() }
    }

    pub fn into_vec(self) -> (r: Vec<u8>)
        ensures
            r@ == self@,
    {
        self.output
    }

    /// Append raw bytes to the output.
    pub fn push(&mut self, token: &[u8])
        ensures
            final(self)@ == old(self)@ + token@,
    {
        self.output.extend_from_slice(token);
    }

    fn push_byte(&mut self, b: u8)
        ensures
            final(self)@ == old(self)@ + seq![b],
    {
        self.output.push(b);
    }

    /// Append the decimal digits of `n`, most significant first.
    fn push_decimal(&mut self, n: u64)
        ensures
            final(self)@ == old(self)@ + spec_digits(n as nat),
        decreases n,
    {
        if n < 10 {
            self.push_byte(48 + n as u8);
        } else {
            self.push_decimal(n / 10);
            self.push_byte(48 + (n % 10) as u8);
            assert(final(self)@ == old(self)@ + spec_digits(n as nat / 10).push(
                (48 + n as nat % 10) as u8,
            ));
        }
    }

    /// Append the wire form of a signed 64-bit integer: `i`, the
    /// decimal value, `e`.
    pub fn serialize_integer(&mut self, v: i64)
        ensures
            final(self)@ == old(self)@ + spec_enc(SpecValue::Int(v as int)),
    {
        self.push_byte(105);
        if v < 0 {
            self.push_byte(45);
            let m: u64 = if v == i64::MIN {
                0x8000_0000_0000_0000u64
            } else {
                (-v) as u64
            };
            assert(m as nat == (-(v as int)) as nat);
            self.push_decimal(m);
        } else {
            self.push_decimal(v as u64);
        }
        self.push_byte(101);
        assert(final(self)@ == old(self)@ + (seq![105u8] + spec_enc_int(v as int) + seq![101u8]));
    }

    /// Append the wire form of a byte string: decimal length, `:`, the
    /// bytes.
    pub fn serialize_bytes(&mut self, v: &[u8])
        ensures
            final(self)@ == old(self)@ + spec_enc_bytes(v@),
    {
        self.push_decimal(v.len() as u64);
        self.push_byte(58);
        self.push(v);
        assert(final(self)@ == old(self)@ + (spec_digits(v@.len()) + seq![58u8] + v@));
    }

    /// Append the wire form of a value. Dictionary pairs are emitted in
    /// their stored order.
    #[verifier::loop_isolation(false)]
    pub fn serialize_value(&mut self, v: &BencodeValue)
        ensures
            final(self)@ == old(self)@ + spec_enc(v@),
        decreases v,
    {
        match v {
            BencodeValue::String(s) => {
                self.serialize_bytes(s.as_slice());
            },
            BencodeValue::Integer(i) => {
                self.serialize_integer(*i);
            },
            BencodeValue::List(l) => {
                proof {
                    lemma_list_view_props(l@);
                }
                self.push_byte(108);
                let ghost base = self@;
                let ghost views = crate::bencode::list_view(l@);
                let mut idx: usize = 0;
                while idx < l.len()
                    invariant
                        idx <= l.len(),
                        views == crate::bencode::list_view(l@),
                        views.len() == l@.len(),
                        forall|i: int| 0 <= i < l@.len() ==> #[trigger] views[i] == crate::bencode::value_view(l@[i]),
                        self@ == base + spec_enc_items(views.take(idx as int)),
                    decreases l.len() - idx,
                {
                    proof {
                        lemma_enc_items_push(views.take(idx as int), views[idx as int]);
                        assert(views.take(idx as int).push(views[idx as int]) =~= views.take(
                            idx as int + 1,
                        ));
                    }
                    proof {
                        assert(decreases_to!(*v => *l));
                        assert(decreases_to!(*l => l@[idx as int]));
                    }
                    self.serialize_value(&l[idx]);
                    idx = idx + 1;
                }
                proof {
                    assert(views.take(l@.len() as int) =~= views);
                }
                self.push_byte(101);
                assert(final(self)@ == old(self)@ + (seq![108u8] + spec_enc_items(views)
                    + seq![101u8]));
            },
            BencodeValue::Dictionary(d) => {
                proof {
                    lemma_dict_view_props(d@);
                }
                self.push_byte(100);
                let ghost base = self@;
                let ghost views = crate::bencode::dict_view(d@);
                let mut idx: usize = 0;
                while idx < d.len()
                    invariant
                        idx <= d.len(),
                        views == crate::bencode::dict_view(d@),
                        views.len() == d@.len(),
                        forall|i: int|
                            0 <= i < d@.len() ==> #[trigger] views[i] == (
                                d@[i].0@,
                                crate::bencode::value_view(d@[i].1),
                            ),
                        self@ == base + spec_enc_pairs(views.take(idx as int)),
                    decreases d.len() - idx,
                {
                    proof {
                        lemma_enc_pairs_push(
                            views.take(idx as int),
                            views[idx as int].0,
                            views[idx as int].1,
                        );
                        assert(views.take(idx as int).push(views[idx as int]) =~= views.take(
                            idx as int + 1,
                        ));
                    }
                    proof {
                        assert(decreases_to!(*v => *d));
                        assert(decreases_to!(*d => d@[idx as int]));
                        assert(decreases_to!(d@[idx as int] => d@[idx as int].1));
                    }
                    self.serialize_bytes(d[idx].0.as_slice());
                    self.serialize_value(&d[idx].1);
                    idx = idx + 1;
                }
                proof {
                    assert(views.take(d@.len() as int) =~= views);
                }
                self.push_byte(101);
                assert(final(self)@ == old(self)@ + (seq![100u8] + spec_enc_pairs(views)
                    + seq![101u8]));
            },
        }
    }
}

/// Encode a value and read the result as lossy text, for display and
/// tests; the wire form itself is [`to_bytes`].
pub fn to_string(v: &BencodeValue) -> (r: String)
    ensures
        r@ == crate::render::lossy_chars(spec_enc(v@)),
{
    let bytes = to_bytes(v);
    crate::render::lossy_string(bytes.as_slice())
}

/// Encode a value to bytes: the executable form of [`spec_enc`].
pub fn to_bytes(v: &BencodeValue) -> (r: Vec<u8>)
    ensures
        r@ == spec_enc(v@),
{
    let mut ser = Serializer::new();
    ser.serialize_value(v);
    ser.into_vec()
}

} // verus!

use vstd::prelude::*;
use vstd::string::StringSliceAdditionalSpecFns;

use crate::bencode::digit_run_end;
use crate::bencode::digits_val;
use crate::bencode::is_digit;
use crate::bencode::lemma_digit_run;
use crate::bencode::lemma_digit_run_props;
use crate::bencode::list_view;
use crate::bencode::dict_view;
use crate::bencode::spec_dec;
use crate::bencode::spec_dec_bytes;
use crate::bencode::spec_dec_int;
use crate::bencode::spec_dec_items;
use crate::bencode::spec_dec_pairs;
use crate::bencode::value_view;
use crate::bencode::BencodeValue;
use crate::bencode::SpecValue;

verus! {

/// A decoding failure. Every failure is fatal for the decode at hand.
#[derive(Debug, Clone, Copy, PartialEq, Eq, Structural)]
pub enum DecodeError {
    /// The input ended where more bytes were required.
    UnexpectedEof,
    /// An integer did not open with `i`.
    ExpectedInteger,
    /// A decimal digit was required.
    ExpectedDigit,
    /// A byte string length was not followed by `:`.
    ExpectedColon,
    /// A value was not closed by `e`, or digits continued past a
    /// leading zero.
    ExpectedEnd,
    /// The wire held `-0`, which no integer encodes to.
    NegativeZero,
    /// An integer does not fit a signed 64-bit value.
    IntegerOverflow,
    /// A byte string length ran past the end of the input.
    LengthOverrun,
    /// A value opened with a byte that starts no bencode shape.
    InvalidType,
    /// Input remained after the top-level value.
    TrailingBytes,
    /// A required dictionary key was absent.
    MissingField,
    /// A field that must be text held bytes that are not UTF-8.
    InvalidUtf8,
}

/// A bencode decoder over a borrowed byte slice, advancing a cursor.
pub struct Deserializer<'de> {
    input: &'de [u8],
    pos: usize,
}

impl<'de> Deserializer<'de> {
    /// The whole input being decoded.
    pub closed spec fn bytes(&self) -> Seq<u8> {
        self.input@
    }

    /// The cursor: how many bytes are already consumed.
    pub closed spec fn position(&self) -> int {
        self.pos as int
    }

    pub fn from_str(input: &'de str) -> (r: Deserializer<'de>)
        ensures
            r.bytes() == input.spec_bytes(),
            r.position() == 0,
    {
        Deserializer { input: input.as_bytes(), pos: 0 }
    }

    pub fn from_bytes(input: &'de [u8]) -> (r: Deserializer<'de>)
        ensures
            r.bytes() == input@,
            r.position() == 0,
    {
        Deserializer { input, pos: 0 }
    }

    /// Look at the next byte without consuming it.
    pub fn peek_byte(&self) -> (r: Result<u8, DecodeError>)
        ensures
            match r {
                Ok(b) => self.position() < self.bytes().len() && b == self.bytes()[self.position()],
                Err(e) => self.position() >= self.bytes().len() && e == DecodeError::UnexpectedEof,
            },
    {
        if self.pos < self.input.len() {
            Ok(self.input[self.pos])
        } else {
            Err(DecodeError::UnexpectedEof)
        }
    }

    /// Consume and return the next byte.
    pub fn next_byte(&mut self) -> (r: Result<u8, DecodeError>)
        ensures
            final(self).bytes() == old(self).bytes(),
            match r {
                Ok(b) => {
                    &&& old(self).position() < old(self).bytes().len()
                    &&& b == old(self).bytes()[old(self).position()]
                    &&& final(self).position() == old(self).position() + 1
                },
                Err(e) => {
                    &&& old(self).position() >= old(self).bytes().len()
                    &&& final(self).position() == old(self).position()
                    &&& e == DecodeError::UnexpectedEof
                },
            },
    {
        if self.pos < self.input.len() {
            let b = self.input[self.pos];
            self.pos = self.pos + 1;
            Ok(b)
        } else {
            Err(DecodeError::UnexpectedEof)
        }
    }
}

impl<'de> Deserializer<'de> {
    /// Parse a full integer token `i ... e` at the cursor, strictly:
    /// no superfluous leading zero, no `-0`, value within `i64`.
    #[verifier::loop_isolation(false)]
    pub fn parse_signed(&mut self) -> (r: Result<i64, DecodeError>)
        ensures
            final(self).bytes() == old(self).bytes(),
            ({
                let s = old(self).bytes();
                let p = old(self).position();
                if 0 <= p < s.len() && s[p] == 105 {
                    match r {
                        Ok(v) => {
                            &&& spec_dec_int(s, p) == Some(
                                (SpecValue::Int(v as int), final(self).position()),
                            )
                            &&& p < final(self).position() <= s.len()
                        },
                        Err(_) => spec_dec_int(s, p) is None,
                    }
                } else {
                    r is Err
                }
            }),
    {
        let ghost s = self.bytes();
        let ghost p = self.position();
        let b0 = match self.next_byte() {
            Ok(b) => b,
            Err(e) => {
                return Err(e);
            },
        };
        if b0 != 105 {
            return Err(DecodeError::ExpectedInteger);
        }
        let neg = match self.peek_byte() {
            Ok(b) => b == 45,
            Err(e) => {
                proof {
                    assert(digit_run_end(s, p + 1) == p + 1);
                }
                return Err(e);
            },
        };
        if neg {
            let _ = self.next_byte();
        }
        let ghost dstart = self.position();
        let d0 = match self.peek_byte() {
            Ok(b) => b,
            Err(e) => {
                proof {
                    assert(digit_run_end(s, dstart) == dstart);
                }
                return Err(e);
            },
        };
        if !(48 <= d0 && d0 <= 57) {
            proof {
                assert(digit_run_end(s, dstart) == dstart);
            }
            return Err(DecodeError::ExpectedDigit);
        }
        let _ = self.next_byte();
        if d0 == 48 {
            // A leading zero is only the number zero itself.
            if neg {
                proof {
                    lemma_digit_run_props(s, dstart);
                    let dend = digit_run_end(s, dstart);
                    if dend < s.len() && s[dend] == 101 && crate::bencode::canonical_digits(
                        s,
                        dstart,
                        dend,
                    ) {
                        assert(s.subrange(dstart, dend) =~= seq![48u8]);
                        assert(s.subrange(dstart, dend).drop_last() =~= Seq::<u8>::empty());
                        reveal_with_fuel(digits_val, 2);
                    }
                }
                return Err(DecodeError::NegativeZero);
            }
            let e = match self.peek_byte() {
                Ok(b) => b,
                Err(e) => {
                    proof {
                        lemma_digit_run_props(s, dstart);
                    }
                    return Err(e);
                },
            };
            proof {
                lemma_digit_run_props(s, dstart);
            }
            if e == 101 {
                let _ = self.next_byte();
                proof {
                    lemma_digit_run(s, dstart, 1);
                    assert(s.subrange(dstart, dstart + 1) =~= seq![48u8]);
                    assert(s.subrange(dstart, dstart + 1).drop_last() =~= Seq::<u8>::empty());
                    reveal_with_fuel(digits_val, 2);
                }
                return Ok(0i64);
            } else if 48 <= e && e <= 57 {
                // digits past a leading zero: not canonical
                proof {
                    lemma_digit_run_props(s, dstart + 2);
                    assert(digit_run_end(s, dstart) == digit_run_end(s, dstart + 1));
                    assert(digit_run_end(s, dstart + 1) == digit_run_end(s, dstart + 2));
                    assert(!crate::bencode::canonical_digits(s, dstart, digit_run_end(s, dstart)));
                }
                return Err(DecodeError::ExpectedEnd);
            } else {
                proof {
                    lemma_digit_run(s, dstart, 1);
                }
                return Err(DecodeError::ExpectedEnd);
            }
        }
        let max_m: u64 = if neg {
            0x8000_0000_0000_0000u64
        } else {
            0x7fff_ffff_ffff_ffffu64
        };
        let mut m: u64 = (d0 - 48) as u64;
        proof {
            assert(s.subrange(dstart, dstart + 1) =~= seq![s[dstart]]);
            assert(s.subrange(dstart, dstart + 1).drop_last() =~= Seq::<u8>::empty());
            reveal_with_fuel(digits_val, 2);
        }
        loop
            invariant
                self.bytes() == s,
                dstart < self.position() <= s.len(),
                p + 1 <= dstart,
                0 <= p < s.len() && s[p] == 105,
                dstart == if neg {
                    p + 2
                } else {
                    p + 1
                },
                neg ==> dstart - 1 < s.len() && s[dstart - 1] == 45,
                forall|i: int| dstart <= i < self.position() ==> is_digit(#[trigger] s[i]),
                s[dstart] != 48,
                m == digits_val(s.subrange(dstart, self.position())),
                1 <= m <= max_m,
                max_m == if neg {
                    0x8000_0000_0000_0000u64
                } else {
                    0x7fff_ffff_ffff_ffffu64
                },
            decreases s.len() - self.position(),
        {
            let ghost cur = self.position();
            let b = match self.peek_byte() {
                Ok(b) => b,
                Err(e) => {
                    proof {
                        lemma_digit_run_props(s, dstart);
                        lemma_digit_run(s, dstart, (cur - dstart) as nat);
                    }
                    return Err(e);
                },
            };
            if 48 <= b && b <= 57 {
                let wide: u128 = (m as u128) * 10 + ((b - 48) as u128);
                if wide > max_m as u128 {
                    proof {
                        lemma_digit_run_props(s, dstart);
                        let dend = digit_run_end(s, dstart);
                        assert(is_digit(s[cur]));
                        assert(dend >= cur + 1) by {
                            if dend < cur + 1 {
                                lemma_digit_run(s, dstart, (cur + 1 - dstart) as nat);
                            }
                        }
                        lemma_digits_val_step(s, dstart, cur);
                        lemma_digits_val_extend(s, dstart, cur + 1, dend);
                        assert(digits_val(s.subrange(dstart, dend)) > max_m);
                    }
                    return Err(DecodeError::IntegerOverflow);
                }
                let _ = self.next_byte();
                proof {
                    lemma_digits_val_step(s, dstart, cur);
                }
                m = wide as u64;
            } else if b == 101 {
                let _ = self.next_byte();
                proof {
                    lemma_digit_run(s, dstart, (cur - dstart) as nat);
                }
                let v: i64 = if neg {
                    if m == 0x8000_0000_0000_0000u64 {
                        i64::MIN
                    } else {
                        -(m as i64)
                    }
                } else {
                    m as i64
                };
                return Ok(v);
            } else {
                proof {
                    lemma_digit_run(s, dstart, (cur - dstart) as nat);
                }
                return Err(DecodeError::ExpectedEnd);
            }
        }
    }
}

impl<'de> Deserializer<'de> {
    /// Parse a byte string token at the cursor: a strictly canonical
    /// decimal length, `:`, then exactly that many raw bytes.
    #[verifier::loop_isolation(false)]
    pub fn parse_bytes(&mut self) -> (r: Result<Vec<u8>, DecodeError>)
        ensures
            final(self).bytes() == old(self).bytes(),
            ({
                let s = old(self).bytes();
                let p = old(self).position();
                match r {
                    Ok(b) => {
                        &&& spec_dec_bytes(s, p) == Some((b@, final(self).position()))
                        &&& p < final(self).position() <= s.len()
                    },
                    Err(_) => spec_dec_bytes(s, p) is None,
                }
            }),
    {
        let ghost s = self.bytes();
        let ghost p = self.position();
        let d0 = match self.peek_byte() {
            Ok(b) => b,
            Err(e) => {
                proof {
                    assert(digit_run_end(s, p) == p);
                }
                return Err(e);
            },
        };
        if !(48 <= d0 && d0 <= 57) {
            proof {
                assert(digit_run_end(s, p) == p);
            }
            return Err(DecodeError::ExpectedDigit);
        }
        let _ = self.next_byte();
        if d0 == 48 {
            // A leading zero is only the empty string's length.
            let b1 = match self.peek_byte() {
                Ok(b) => b,
                Err(e) => {
                    proof {
                        lemma_digit_run(s, p, 1);
                    }
                    return Err(e);
                },
            };
            if 48 <= b1 && b1 <= 57 {
                proof {
                    lemma_digit_run_props(s, p + 2);
                    assert(digit_run_end(s, p) == digit_run_end(s, p + 1));
                    assert(digit_run_end(s, p + 1) == digit_run_end(s, p + 2));
                    assert(!crate::bencode::canonical_digits(s, p, digit_run_end(s, p)));
                }
                return Err(DecodeError::ExpectedEnd);
            }
            proof {
                lemma_digit_run(s, p, 1);
            }
            if b1 != 58 {
                return Err(DecodeError::ExpectedColon);
            }
            let _ = self.next_byte();
            proof {
                assert(s.subrange(p, p + 1) =~= seq![48u8]);
                assert(s.subrange(p, p + 1).drop_last() =~= Seq::<u8>::empty());
                reveal_with_fuel(digits_val, 2);
                assert(s.subrange(p + 2, p + 2) =~= Seq::<u8>::empty());
            }
            return Ok(Vec::new());
        }
        let s_len: usize = self.input.len();
        let mut m: u64 = (d0 - 48) as u64;
        proof {
            assert(s.subrange(p, p + 1) =~= seq![s[p]]);
            assert(s.subrange(p, p + 1).drop_last() =~= Seq::<u8>::empty());
            reveal_with_fuel(digits_val, 2);
        }
        loop
            invariant
                self.bytes() == s,
                p < self.position() <= s.len(),
                forall|i: int| p <= i < self.position() ==> is_digit(#[trigger] s[i]),
                0 <= p < s.len(),
                s[p] != 48,
                m == digits_val(s.subrange(p, self.position())),
                1 <= m,
                m <= s_len || m < 10,
                s_len == s.len(),
            decreases s.len() - self.position(),
        {
            let ghost cur = self.position();
            let b = match self.peek_byte() {
                Ok(b) => b,
                Err(e) => {
                    proof {
                        lemma_digit_run(s, p, (cur - p) as nat);
                    }
                    return Err(e);
                },
            };
            if 48 <= b && b <= 57 {
                let wide: u128 = (m as u128) * 10 + ((b - 48) as u128);
                if wide > s_len as u128 {
                    proof {
                        lemma_digit_run_props(s, p);
                        let dend = digit_run_end(s, p);
                        assert(is_digit(s[cur]));
                        assert(dend >= cur + 1) by {
                            if dend < cur + 1 {
                                lemma_digit_run(s, p, (cur + 1 - p) as nat);
                            }
                        }
                        lemma_digits_val_step(s, p, cur);
                        lemma_digits_val_extend(s, p, cur + 1, dend);
                        assert(digits_val(s.subrange(p, dend)) > s.len());
                    }
                    return Err(DecodeError::LengthOverrun);
                }
                let _ = self.next_byte();
                proof {
                    lemma_digits_val_step(s, p, cur);
                }
                m = wide as u64;
            } else if b == 58 {
                proof {
                    lemma_digit_run(s, p, (cur - p) as nat);
                }
                let n = m as usize;
                let start = self.pos + 1;
                if n > s_len - start {
                    return Err(DecodeError::LengthOverrun);
                }
                let _ = self.next_byte();
                let content = vstd::slice::slice_subrange(self.input, start, start + n);
                let out = vstd::slice::slice_to_vec(content);
                self.pos = start + n;
                proof {
                    assert(out@ == s.subrange(cur + 1, cur + 1 + m as int));
                }
                return Ok(out);
            } else {
                proof {
                    lemma_digit_run(s, p, (cur - p) as nat);
                }
                return Err(DecodeError::ExpectedColon);
            }
        }
    }
}

/// Prefix a decoded tail with already-decoded elements.
spec fn items_join(acc: Seq<SpecValue>, r: Option<(Seq<SpecValue>, int)>) -> Option<
    (Seq<SpecValue>, int),
> {
    match r {
        Option::None => None,
        Option::Some((rest, end)) => Some((acc + rest, end)),
    }
}

/// Prefix a decoded tail with already-decoded pairs.
spec fn pairs_join(
    acc: Seq<(Seq<u8>, SpecValue)>,
    r: Option<(Seq<(Seq<u8>, SpecValue)>, int)>,
) -> Option<(Seq<(Seq<u8>, SpecValue)>, int)> {
    match r {
        Option::None => None,
        Option::Some((rest, end)) => Some((acc + rest, end)),
    }
}

impl<'de> Deserializer<'de> {
    /// Parse one full value at the cursor. On success the cursor stands
    /// on the first byte after the value; the result is exactly what
    /// [`spec_dec`] gives, and the call fails exactly when it gives
    /// nothing.
    #[verifier::loop_isolation(false)]
    pub fn parse_value(&mut self) -> (r: Result<BencodeValue, DecodeError>)
        ensures
            final(self).bytes() == old(self).bytes(),
            ({
                let s = old(self).bytes();
                let p = old(self).position();
                match r {
                    Ok(v) => {
                        &&& spec_dec(s, p) == Some((value_view(v), final(self).position()))
                        &&& p < final(self).position() <= s.len()
                    },
                    Err(_) => spec_dec(s, p) is None,
                }
            }),
        decreases self.bytes().len() - self.position(),
    {
        let ghost s = self.bytes();
        let ghost p = self.position();
        let b0 = match self.peek_byte() {
            Ok(b) => b,
            Err(e) => {
                return Err(e);
            },
        };
        if b0 == 105 {
            match self.parse_signed() {
                Ok(v) => Ok(BencodeValue::Integer(v)),
                Err(e) => Err(e),
            }
        } else if b0 == 108 {
            let _ = self.next_byte();
            let mut elems: Vec<BencodeValue> = Vec::new();
            let ghost pos0 = p + 1;
            proof {
                assert(list_view(elems@) =~= Seq::<SpecValue>::empty());
            }
            loop
                invariant
                    self.bytes() == s,
                    pos0 <= self.position() <= s.len(),
                    p + 1 == pos0,
                    0 <= p < s.len() && s[p] == 108,
                    spec_dec_items(s, pos0) == items_join(
                        list_view(elems@),
                        spec_dec_items(s, self.position()),
                    ),
                decreases s.len() - self.position(),
            {
                let ghost cur = self.position();
                let ghost acc = list_view(elems@);
                let b = match self.peek_byte() {
                    Ok(b) => b,
                    Err(e) => {
                        return Err(e);
                    },
                };
                if b == 101 {
                    let _ = self.next_byte();
                    proof {
                        assert(spec_dec_items(s, cur) == Some(
                            (Seq::<SpecValue>::empty(), cur + 1),
                        ));
                        assert(acc + Seq::<SpecValue>::empty() =~= acc);
                    }
                    return Ok(BencodeValue::List(elems));
                }
                let v = match self.parse_value() {
                    Ok(v) => v,
                    Err(e) => {
                        proof {
                            assert(spec_dec_items(s, cur) is None);
                        }
                        return Err(e);
                    },
                };
                let ghost mid = self.position();
                proof {
                    assert(spec_dec_items(s, cur) == items_join(
                        seq![value_view(v)],
                        spec_dec_items(s, mid),
                    ));
                    crate::bencode::lemma_list_view_push(elems@, v);
                    if spec_dec_items(s, mid) is Some {
                        let (rest, end) = spec_dec_items(s, mid)->Some_0;
                        assert(acc + (seq![value_view(v)] + rest) =~= acc.push(value_view(v))
                            + rest);
                    }
                }
                elems.push(v);
            }
        } else if b0 == 100 {
            let _ = self.next_byte();
            let mut pairs: Vec<(Vec<u8>, BencodeValue)> = Vec::new();
            let ghost pos0 = p + 1;
            proof {
                assert(dict_view(pairs@) =~= Seq::<(Seq<u8>, SpecValue)>::empty());
            }
            loop
                invariant
                    self.bytes() == s,
                    pos0 <= self.position() <= s.len(),
                    p + 1 == pos0,
                    0 <= p < s.len() && s[p] == 100,
                    spec_dec_pairs(s, pos0) == pairs_join(
                        dict_view(pairs@),
                        spec_dec_pairs(s, self.position()),
                    ),
                decreases s.len() - self.position(),
            {
                let ghost cur = self.position();
                let ghost acc = dict_view(pairs@);
                let b = match self.peek_byte() {
                    Ok(b) => b,
                    Err(e) => {
                        return Err(e);
                    },
                };
                if b == 101 {
                    let _ = self.next_byte();
                    proof {
                        assert(spec_dec_pairs(s, cur) == Some(
                            (Seq::<(Seq<u8>, SpecValue)>::empty(), cur + 1),
                        ));
                        assert(acc + Seq::<(Seq<u8>, SpecValue)>::empty() =~= acc);
                    }
                    return Ok(BencodeValue::Dictionary(pairs));
                }
                let key = match self.parse_bytes() {
                    Ok(k) => k,
                    Err(e) => {
                        proof {
                            assert(spec_dec_pairs(s, cur) is None);
                        }
                        return Err(e);
                    },
                };
                let ghost midk = self.position();
                let v = match self.parse_value() {
                    Ok(v) => v,
                    Err(e) => {
                        proof {
                            assert(spec_dec_pairs(s, cur) is None);
                        }
                        return Err(e);
                    },
                };
                let ghost mid = self.position();
                proof {
                    assert(spec_dec_pairs(s, cur) == pairs_join(
                        seq![(key@, value_view(v))],
                        spec_dec_pairs(s, mid),
                    ));
                    crate::bencode::lemma_dict_view_push(pairs@, key, v);
                    if spec_dec_pairs(s, mid) is Some {
                        let (rest, end) = spec_dec_pairs(s, mid)->Some_0;
                        assert(acc + (seq![(key@, value_view(v))] + rest) =~= acc.push(
                            (key@, value_view(v)),
                        ) + rest);
                    }
                }
                pairs.push((key, v));
            }
        } else if 48 <= b0 && b0 <= 57 {
            match self.parse_bytes() {
                Ok(b) => Ok(BencodeValue::String(b)),
                Err(e) => Err(e),
            }
        } else {
            Err(DecodeError::InvalidType)
        }
    }
}

/// Decode one value from the front of `value`, returning it with the
/// number of bytes consumed.
pub fn decode(value: &[u8]) -> (r: Result<(BencodeValue, usize), DecodeError>)
    ensures
        match r {
            Ok((v, n)) => spec_dec(value@, 0) == Some((value_view(v), n as int)) && n <= value@.len(),
            Err(_) => spec_dec(value@, 0) is None,
        },
{
    let mut de = Deserializer::from_bytes(value);
    match de.parse_value() {
        Ok(v) => Ok((v, de.pos)),
        Err(e) => Err(e),
    }
}

/// Decode a whole byte slice as one value; trailing bytes are an error.
pub fn from_bytes(b: &[u8]) -> (r: Result<BencodeValue, DecodeError>)
    ensures
        match r {
            Ok(v) => spec_dec(b@, 0) == Some((value_view(v), b@.len() as int)),
            Err(_) => !(spec_dec(b@, 0) matches Some((v, n)) && n == b@.len()),
        },
{
    let mut de = Deserializer::from_bytes(b);
    match de.parse_value() {
        Ok(v) => {
            if de.pos == b.len() {
                Ok(v)
            } else {
                Err(DecodeError::TrailingBytes)
            }
        },
        Err(e) => Err(e),
    }
}

/// Decode a whole string as one value; trailing bytes are an error.
pub fn from_str(input: &str) -> (r: Result<BencodeValue, DecodeError>)
    ensures
        match r {
            Ok(v) => spec_dec(input.spec_bytes(), 0) == Some(
                (value_view(v), input.spec_bytes().len() as int),
            ),
            Err(_) => !(spec_dec(input.spec_bytes(), 0) matches Some((v, n)) && n
                == input.spec_bytes().len()),
        },
{
    from_bytes(input.as_bytes())
}

proof fn lemma_digits_val_step(s: Seq<u8>, a: int, c: int)
    requires
        0 <= a <= c < s.len(),
        is_digit(s[c]),
    ensures
        digits_val(s.subrange(a, c + 1)) == digits_val(s.subrange(a, c)) * 10 + (s[c] - 48),
{
    assert(s.subrange(a, c + 1).drop_last() =~= s.subrange(a, c));
    assert(s.subrange(a, c + 1).last() == s[c]);
}

/// Extending a digit run never shrinks its value.
proof fn lemma_digits_val_extend(s: Seq<u8>, a: int, c: int, r: int)
    requires
        0 <= a <= c <= r <= s.len(),
        forall|i: int| a <= i < r ==> is_digit(#[trigger] s[i]),
    ensures
        digits_val(s.subrange(a, r)) >= digits_val(s.subrange(a, c)),
    decreases r - c,
{
    if r > c {
        lemma_digits_val_extend(s, a, c, r - 1);
        lemma_digits_val_step(s, a, r - 1);
    }
}

} // verus!

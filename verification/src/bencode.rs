use vstd::prelude::*;

verus! {

/// An untyped bencode value: one of the four shapes of the format.
///
/// A byte string is raw bytes of a known length (not necessarily text).
/// A dictionary is a sequence of key/value pairs; the encoder emits the
/// pairs in the order stored, and a well-formed value keeps its keys in
/// strictly ascending byte-wise order (see [`spec_wf`]).
#[derive(Debug, PartialEq, Eq)]
pub enum BencodeValue {
    String(Vec<u8>),
    Integer(i64),
    List(Vec<BencodeValue>),
    Dictionary(Vec<(Vec<u8>, BencodeValue)>),
}

/// The mathematical model of a bencode value, used by all contracts.
pub enum SpecValue {
    Bytes(Seq<u8>),
    Int(int),
    List(Seq<SpecValue>),
    Dict(Seq<(Seq<u8>, SpecValue)>),
}

/// The model of a `BencodeValue`.
pub open spec fn value_view(v: BencodeValue) -> SpecValue
    decreases v,
{
    match v {
        BencodeValue::String(s) => SpecValue::Bytes(s@),
        BencodeValue::Integer(i) => SpecValue::Int(i as int),
        BencodeValue::List(l) => SpecValue::List(list_view(l@)),
        BencodeValue::Dictionary(d) => SpecValue::Dict(dict_view(d@)),
    }
}

/// The model of a sequence of values.
pub open spec fn list_view(l: Seq<BencodeValue>) -> Seq<SpecValue>
    decreases l,
{
    if l.len() == 0 {
        Seq::empty()
    } else {
        seq![value_view(l[0])] + list_view(l.drop_first())
    }
}

/// The model of a sequence of dictionary pairs.
pub open spec fn dict_view(d: Seq<(Vec<u8>, BencodeValue)>) -> Seq<(Seq<u8>, SpecValue)>
    decreases d,
{
    if d.len() == 0 {
        Seq::empty()
    } else {
        seq![(d[0].0@, value_view(d[0].1))] + dict_view(d.drop_first())
    }
}

impl View for BencodeValue {
    type V = SpecValue;

    open spec fn view(&self) -> SpecValue {
        value_view(*self)
    }
}

/// The decimal digits of `n`, most significant first, with no leading
/// zero except for the single digit of zero itself.
pub open spec fn spec_digits(n: nat) -> Seq<u8>
    decreases n,
{
    if n < 10 {
        seq![(48 + n) as u8]
    } else {
        spec_digits(n / 10).push((48 + n % 10) as u8)
    }
}

/// The wire form of an integer: decimal digits, with a leading `-` when
/// negative.
pub open spec fn spec_enc_int(i: int) -> Seq<u8> {
    if i < 0 {
        seq![45u8] + spec_digits((-i) as nat)
    } else {
        spec_digits(i as nat)
    }
}

/// The wire form of a byte string: decimal length, `:`, then the bytes.
pub open spec fn spec_enc_bytes(b: Seq<u8>) -> Seq<u8> {
    spec_digits(b.len()) + seq![58u8] + b
}

/// The wire form of a value. Dictionaries are emitted pair by pair in
/// their stored order; a well-formed value therefore emits its keys in
/// ascending order.
pub open spec fn spec_enc(v: SpecValue) -> Seq<u8>
    decreases v,
{
    match v {
        SpecValue::Bytes(b) => spec_enc_bytes(b),
        SpecValue::Int(i) => seq![105u8] + spec_enc_int(i) + seq![101u8],
        SpecValue::List(items) => seq![108u8] + spec_enc_items(items) + seq![101u8],
        SpecValue::Dict(prs) => seq![100u8] + spec_enc_pairs(prs) + seq![101u8],
    }
}

/// The concatenated wire forms of the elements of a list.
pub open spec fn spec_enc_items(items: Seq<SpecValue>) -> Seq<u8>
    decreases items,
{
    if items.len() == 0 {
        Seq::empty()
    } else {
        spec_enc(items[0]) + spec_enc_items(items.drop_first())
    }
}

/// The concatenated wire forms of the pairs of a dictionary.
pub open spec fn spec_enc_pairs(prs: Seq<(Seq<u8>, SpecValue)>) -> Seq<u8>
    decreases prs,
{
    if prs.len() == 0 {
        Seq::empty()
    } else {
        spec_enc_bytes(prs[0].0) + spec_enc(prs[0].1) + spec_enc_pairs(prs.drop_first())
    }
}

/// Strict byte-wise lexicographic order on byte strings.
pub open spec fn spec_lex_lt(a: Seq<u8>, b: Seq<u8>) -> bool
    decreases a,
{
    if b.len() == 0 {
        false
    } else if a.len() == 0 {
        true
    } else if a[0] < b[0] {
        true
    } else if a[0] > b[0] {
        false
    } else {
        spec_lex_lt(a.drop_first(), b.drop_first())
    }
}

/// Neighbouring keys stand in strictly ascending byte-wise
/// lexicographic order.
pub open spec fn spec_keys_ascending(prs: Seq<(Seq<u8>, SpecValue)>) -> bool
    decreases prs,
{
    prs.len() <= 1 || (spec_lex_lt(prs[0].0, prs[1].0) && spec_keys_ascending(prs.drop_first()))
}

/// Well-formedness: every dictionary in the value keeps its keys in
/// strictly ascending byte-wise lexicographic order. The format demands
/// this of every encoded dictionary.
pub open spec fn spec_wf(v: SpecValue) -> bool
    decreases v,
{
    match v {
        SpecValue::Bytes(_) => true,
        SpecValue::Int(_) => true,
        SpecValue::List(items) => forall|i: int|
            0 <= i < items.len() ==> spec_wf(#[trigger] items[i]),
        SpecValue::Dict(prs) => {
            &&& forall|i: int| 0 <= i < prs.len() ==> spec_wf(#[trigger] prs[i].1)
            &&& spec_keys_ascending(prs)
        },
    }
}

pub open spec fn is_digit(b: u8) -> bool {
    48 <= b <= 57
}

/// The first position at or after `pos` that does not hold a decimal
/// digit (or the end of the input).
pub open spec fn digit_run_end(s: Seq<u8>, pos: int) -> int
    decreases s.len() - pos,
{
    if pos < 0 || pos >= s.len() {
        pos
    } else if is_digit(s[pos]) {
        digit_run_end(s, pos + 1)
    } else {
        pos
    }
}

/// The value of a string of decimal digits, most significant first.
pub open spec fn digits_val(s: Seq<u8>) -> nat
    decreases s,
{
    if s.len() == 0 {
        0
    } else {
        (digits_val(s.drop_last()) * 10 + (s.last() - 48)) as nat
    }
}

/// A digit run starting at `pos` is canonical when it does not start
/// with a superfluous zero.
pub open spec fn canonical_digits(s: Seq<u8>, pos: int, end: int) -> bool {
    end - pos == 1 || s[pos] != 48
}

/// Decode an integer at `pos` (which must hold `i`): an optional `-`,
/// one or more digits with no superfluous leading zero and no `-0`,
/// then `e`. The value must fit a signed 64-bit integer.
pub open spec fn spec_dec_int(s: Seq<u8>, pos: int) -> Option<(SpecValue, int)> {
    let neg = pos + 1 < s.len() && s[pos + 1] == 45;
    let dstart = if neg {
        pos + 2
    } else {
        pos + 1
    };
    let dend = digit_run_end(s, dstart);
    if dend == dstart || dend >= s.len() || s[dend] != 101 || !canonical_digits(s, dstart, dend) {
        None
    } else {
        let m = digits_val(s.subrange(dstart, dend)) as int;
        let i = if neg {
            -m
        } else {
            m
        };
        if (neg && m == 0) || i < -0x8000_0000_0000_0000 || i > 0x7fff_ffff_ffff_ffff {
            None
        } else {
            Some((SpecValue::Int(i), dend + 1))
        }
    }
}

/// Decode a byte string at `pos`: a canonical decimal length, `:`, then
/// exactly that many bytes.
pub open spec fn spec_dec_bytes(s: Seq<u8>, pos: int) -> Option<(Seq<u8>, int)> {
    let dend = digit_run_end(s, pos);
    if dend == pos || dend >= s.len() || s[dend] != 58 || !canonical_digits(s, pos, dend) {
        None
    } else {
        let n = digits_val(s.subrange(pos, dend)) as int;
        if dend + 1 + n > s.len() {
            None
        } else {
            Some((s.subrange(dend + 1, dend + 1 + n), dend + 1 + n))
        }
    }
}

/// Decode one value at `pos`, returning the value and the position just
/// past it. The decoder accepts exactly the canonical wire forms that
/// [`spec_enc`] produces (dictionaries in any stored key order).
pub open spec fn spec_dec(s: Seq<u8>, pos: int) -> Option<(SpecValue, int)>
    decreases s.len() - pos, 0int,
{
    if pos < 0 || pos >= s.len() {
        None
    } else if s[pos] == 105 {
        spec_dec_int(s, pos)
    } else if s[pos] == 108 {
        match spec_dec_items(s, pos + 1) {
            Option::None => None,
            Option::Some((items, end)) => Some((SpecValue::List(items), end)),
        }
    } else if s[pos] == 100 {
        match spec_dec_pairs(s, pos + 1) {
            Option::None => None,
            Option::Some((prs, end)) => Some((SpecValue::Dict(prs), end)),
        }
    } else if is_digit(s[pos]) {
        match spec_dec_bytes(s, pos) {
            Option::None => None,
            Option::Some((b, end)) => Some((SpecValue::Bytes(b), end)),
        }
    } else {
        None
    }
}

/// Decode list elements from `pos` up to and including the closing `e`.
pub open spec fn spec_dec_items(s: Seq<u8>, pos: int) -> Option<(Seq<SpecValue>, int)>
    decreases s.len() - pos, 1int,
{
    if pos < 0 || pos >= s.len() {
        None
    } else if s[pos] == 101 {
        Some((Seq::empty(), pos + 1))
    } else {
        match spec_dec(s, pos) {
            Option::None => None,
            Option::Some((v, mid)) => {
                if pos < mid <= s.len() {
                    match spec_dec_items(s, mid) {
                        Option::None => None,
                        Option::Some((rest, end)) => Some((seq![v] + rest, end)),
                    }
                } else {
                    None
                }
            },
        }
    }
}

/// Decode dictionary pairs from `pos` up to and including the closing
/// `e`, preserving their order.
pub open spec fn spec_dec_pairs(s: Seq<u8>, pos: int) -> Option<(Seq<(Seq<u8>, SpecValue)>, int)>
    decreases s.len() - pos, 1int,
{
    if pos < 0 || pos >= s.len() {
        None
    } else if s[pos] == 101 {
        Some((Seq::empty(), pos + 1))
    } else {
        match spec_dec_bytes(s, pos) {
            Option::None => None,
            Option::Some((k, mid)) => {
                if pos < mid <= s.len() {
                    match spec_dec(s, mid) {
                        Option::None => None,
                        Option::Some((v, mid2)) => {
                            if mid < mid2 <= s.len() {
                                match spec_dec_pairs(s, mid2) {
                                    Option::None => None,
                                    Option::Some((rest, end)) => Some(
                                        (seq![(k, v)] + rest, end),
                                    ),
                                }
                            } else {
                                None
                            }
                        },
                    }
                } else {
                    None
                }
            },
        }
    }
}

/// Integers of the model that fit the signed 64-bit wire integers, at
/// every depth of the value.
pub open spec fn spec_int_bounded(v: SpecValue) -> bool
    decreases v,
{
    match v {
        SpecValue::Bytes(_) => true,
        SpecValue::Int(i) => -0x8000_0000_0000_0000 <= i <= 0x7fff_ffff_ffff_ffff,
        SpecValue::List(items) => forall|i: int|
            0 <= i < items.len() ==> spec_int_bounded(#[trigger] items[i]),
        SpecValue::Dict(prs) => forall|i: int|
            0 <= i < prs.len() ==> spec_int_bounded(#[trigger] prs[i].1),
    }
}

proof fn lemma_index_of_eq(s: Seq<u8>, pos: int, e: Seq<u8>, a: int)
    requires
        0 <= pos,
        pos + e.len() <= s.len(),
        s.subrange(pos, pos + e.len() as int) == e,
        0 <= a < e.len(),
    ensures
        s[pos + a] == e[a],
{
    assert(s.subrange(pos, pos + e.len() as int)[a] == e[a]);
}

proof fn lemma_slice_of_eq(s: Seq<u8>, pos: int, e: Seq<u8>, a: int, b: int)
    requires
        0 <= pos,
        pos + e.len() <= s.len(),
        s.subrange(pos, pos + e.len() as int) == e,
        0 <= a <= b <= e.len(),
    ensures
        s.subrange(pos + a, pos + b) =~= e.subrange(a, b),
{
    assert forall|i: int| 0 <= i < b - a implies s.subrange(pos + a, pos + b)[i] == e.subrange(
        a,
        b,
    )[i] by {
        assert(s.subrange(pos, pos + e.len() as int)[a + i] == e[a + i]);
    }
}

pub proof fn lemma_spec_digits(n: nat)
    ensures
        spec_digits(n).len() >= 1,
        forall|i: int| 0 <= i < spec_digits(n).len() ==> is_digit(#[trigger] spec_digits(n)[i]),
        digits_val(spec_digits(n)) == n,
        n >= 1 ==> spec_digits(n)[0] != 48,
        n < 10 ==> spec_digits(n).len() == 1,
    decreases n,
{
    if n < 10 {
        let d = spec_digits(n);
        assert(d.drop_last() =~= Seq::<u8>::empty());
        reveal_with_fuel(digits_val, 2);
    } else {
        lemma_spec_digits(n / 10);
        vstd::arithmetic::div_mod::lemma_fundamental_div_mod(n as int, 10);
        assert(spec_digits(n).drop_last() =~= spec_digits(n / 10));
        assert(digits_val(spec_digits(n)) == digits_val(spec_digits(n / 10)) * 10 + (48 + n % 10
            - 48));
    }
}

proof fn lemma_digits_val_zero(d: Seq<u8>)
    requires
        forall|i: int| 0 <= i < d.len() ==> is_digit(#[trigger] d[i]),
        digits_val(d) == 0,
    ensures
        forall|i: int| 0 <= i < d.len() ==> #[trigger] d[i] == 48,
    decreases d.len(),
{
    if d.len() > 0 {
        assert(is_digit(d.last()));
        assert(digits_val(d.drop_last()) * 10 + (d.last() - 48) == 0);
        assert(digits_val(d.drop_last()) == 0) by {
            if digits_val(d.drop_last()) >= 1 {
                assert(digits_val(d.drop_last()) * 10 >= 10) by (nonlinear_arith)
                    requires
                        digits_val(d.drop_last()) >= 1,
                ;
            }
        }
        lemma_digits_val_zero(d.drop_last());
        assert forall|i: int| 0 <= i < d.len() implies #[trigger] d[i] == 48 by {
            if i < d.len() - 1 {
                assert(d.drop_last()[i] == 48);
            }
        }
    }
}

/// A canonical digit string is recovered from its value: decimal
/// printing and reading are mutually inverse.
proof fn lemma_digits_canonical(d: Seq<u8>)
    requires
        d.len() >= 1,
        forall|i: int| 0 <= i < d.len() ==> is_digit(#[trigger] d[i]),
        d.len() == 1 || d[0] != 48,
    ensures
        spec_digits(digits_val(d)) =~= d,
    decreases d.len(),
{
    if d.len() == 1 {
        assert(d.drop_last() =~= Seq::<u8>::empty());
        reveal_with_fuel(digits_val, 2);
        assert(digits_val(d) == (d[0] - 48) as nat);
        assert(is_digit(d[0]));
    } else {
        let dd = d.drop_last();
        let n = digits_val(d);
        assert(is_digit(d.last()));
        assert(n == digits_val(dd) * 10 + (d.last() - 48));
        assert(digits_val(dd) >= 1) by {
            if digits_val(dd) == 0 {
                lemma_digits_val_zero(dd);
                assert(dd[0] == 48);
                assert(d[0] == 48);
            }
        }
        assert(n >= 10) by (nonlinear_arith)
            requires
                n == digits_val(dd) * 10 + (d.last() - 48),
                digits_val(dd) >= 1,
                d.last() >= 48,
        ;
        vstd::arithmetic::div_mod::lemma_fundamental_div_mod_converse(
            n as int,
            10,
            digits_val(dd) as int,
            (d.last() - 48) as int,
        );
        assert(dd.len() == 1 || dd[0] != 48);
        lemma_digits_canonical(dd);
        assert(spec_digits(n) =~= spec_digits(digits_val(dd)).push((48 + n % 10) as u8));
        assert((48 + n % 10) as u8 == d.last());
        assert(spec_digits(n) =~= dd.push(d.last()));
        assert(dd.push(d.last()) =~= d);
    }
}

pub proof fn lemma_digit_run(s: Seq<u8>, pos: int, k: nat)
    requires
        0 <= pos,
        pos + k <= s.len(),
        forall|i: int| pos <= i < pos + k ==> is_digit(#[trigger] s[i]),
        pos + k == s.len() || !is_digit(s[pos + k]),
    ensures
        digit_run_end(s, pos) == pos + k,
    decreases k,
{
    if k != 0 {
        lemma_digit_run(s, pos + 1, (k - 1) as nat);
    }
}

/// Every encoding is at least two bytes long and starts with `i`, `l`,
/// `d` or a digit; in particular never with the terminator `e`.
proof fn lemma_enc_shape(v: SpecValue)
    ensures
        spec_enc(v).len() >= 2,
        spec_enc(v)[0] == 105 || spec_enc(v)[0] == 108 || spec_enc(v)[0] == 100 || is_digit(
            spec_enc(v)[0],
        ),
        spec_enc(v)[0] != 101,
{
    match v {
        SpecValue::Bytes(b) => {
            lemma_spec_digits(b.len());
            assert(spec_enc(v)[0] == spec_digits(b.len())[0]);
            assert(is_digit(spec_digits(b.len())[0]));
        },
        SpecValue::Int(i) => {},
        SpecValue::List(items) => {},
        SpecValue::Dict(prs) => {},
    }
}

proof fn lemma_dec_bytes_enc(b: Seq<u8>, s: Seq<u8>, pos: int)
    requires
        0 <= pos,
        pos + spec_enc_bytes(b).len() <= s.len(),
        s.subrange(pos, pos + spec_enc_bytes(b).len() as int) == spec_enc_bytes(b),
    ensures
        spec_dec_bytes(s, pos) == Some((b, pos + spec_enc_bytes(b).len() as int)),
{
    let e = spec_enc_bytes(b);
    let d = spec_digits(b.len());
    let dl = d.len() as int;
    lemma_spec_digits(b.len());
    assert forall|i: int| pos <= i < pos + dl implies is_digit(#[trigger] s[i]) by {
        lemma_index_of_eq(s, pos, e, i - pos);
        assert(e[i - pos] == d[i - pos]);
    }
    lemma_index_of_eq(s, pos, e, dl);
    assert(e[dl] == 58);
    assert(s[pos + dl] == 58);
    lemma_digit_run(s, pos, d.len());
    lemma_slice_of_eq(s, pos, e, 0, dl);
    assert(e.subrange(0, dl) =~= d);
    assert(digits_val(s.subrange(pos, pos + dl)) == b.len());
    assert(canonical_digits(s, pos, pos + dl)) by {
        if b.len() >= 1 {
            lemma_index_of_eq(s, pos, e, 0);
        }
    }
    lemma_slice_of_eq(s, pos, e, dl + 1, e.len() as int);
    assert(e.subrange(dl + 1, e.len() as int) =~= b);
    assert(spec_dec_bytes(s, pos) == Some((b, pos + e.len() as int)));
}

proof fn lemma_dec_int_enc(i: int, s: Seq<u8>, pos: int)
    requires
        0 <= pos,
        -0x8000_0000_0000_0000 <= i <= 0x7fff_ffff_ffff_ffff,
        pos + spec_enc(SpecValue::Int(i)).len() <= s.len(),
        s.subrange(pos, pos + spec_enc(SpecValue::Int(i)).len() as int) == spec_enc(
            SpecValue::Int(i),
        ),
    ensures
        spec_dec(s, pos) == Some(
            (SpecValue::Int(i), pos + spec_enc(SpecValue::Int(i)).len() as int),
        ),
{
    let e = spec_enc(SpecValue::Int(i));
    let m: nat = if i < 0 {
        (-i) as nat
    } else {
        i as nat
    };
    let d = spec_digits(m);
    let dl = d.len() as int;
    lemma_spec_digits(m);
    lemma_index_of_eq(s, pos, e, 0);
    assert(s[pos] == 105);
    let dstart = if i < 0 {
        pos + 2
    } else {
        pos + 1
    };
    if i < 0 {
        lemma_index_of_eq(s, pos, e, 1);
        assert(e[1] == 45);
        assert(s[pos + 1] == 45);
    } else {
        if pos + 1 < s.len() {
            lemma_index_of_eq(s, pos, e, 1);
            assert(e[1] == d[0]);
            assert(s[pos + 1] != 45);
        }
    }
    assert forall|j: int| dstart <= j < dstart + dl implies is_digit(#[trigger] s[j]) by {
        lemma_index_of_eq(s, pos, e, j - pos);
        assert(e[j - pos] == d[j - (dstart as int)]);
    }
    lemma_index_of_eq(s, pos, e, dstart - pos + dl);
    assert(e[dstart - pos + dl] == 101);
    assert(s[dstart + dl] == 101);
    lemma_digit_run(s, dstart, d.len());
    lemma_slice_of_eq(s, pos, e, dstart - pos, dstart - pos + dl);
    assert(e.subrange(dstart - pos, dstart - pos + dl) =~= d);
    assert(digits_val(s.subrange(dstart, dstart + dl)) == m);
    assert(canonical_digits(s, dstart, dstart + dl)) by {
        if m >= 1 {
            lemma_index_of_eq(s, pos, e, dstart - pos);
        }
    }
    if i < 0 {
        assert(m >= 1);
    }
    assert(spec_dec_int(s, pos) == Some((SpecValue::Int(i), pos + e.len() as int)));
}

/// Decoding reads back exactly what encoding wrote: from any position
/// where the wire form of `v` sits, the decoder returns `v` and stops
/// at the first byte after it.
proof fn lemma_dec_enc(v: SpecValue, s: Seq<u8>, pos: int)
    requires
        0 <= pos,
        spec_int_bounded(v),
        pos + spec_enc(v).len() <= s.len(),
        s.subrange(pos, pos + spec_enc(v).len() as int) == spec_enc(v),
    ensures
        spec_dec(s, pos) == Some((v, pos + spec_enc(v).len() as int)),
    decreases v, 0int,
{
    let e = spec_enc(v);
    match v {
        SpecValue::Bytes(b) => {
            lemma_spec_digits(b.len());
            lemma_index_of_eq(s, pos, e, 0);
            assert(e[0] == spec_digits(b.len())[0]);
            assert(is_digit(s[pos]) && s[pos] != 105 && s[pos] != 108 && s[pos] != 100);
            lemma_dec_bytes_enc(b, s, pos);
        },
        SpecValue::Int(i) => {
            lemma_dec_int_enc(i, s, pos);
        },
        SpecValue::List(items) => {
            lemma_index_of_eq(s, pos, e, 0);
            assert(s[pos] == 108);
            lemma_slice_of_eq(s, pos, e, 1, e.len() as int);
            assert(e.subrange(1, e.len() as int) =~= spec_enc_items(items) + seq![101u8]);
            lemma_dec_items_enc(items, s, pos + 1);
        },
        SpecValue::Dict(prs) => {
            lemma_index_of_eq(s, pos, e, 0);
            assert(s[pos] == 100);
            lemma_slice_of_eq(s, pos, e, 1, e.len() as int);
            assert(e.subrange(1, e.len() as int) =~= spec_enc_pairs(prs) + seq![101u8]);
            lemma_dec_pairs_enc(prs, s, pos + 1);
        },
    }
}

proof fn lemma_dec_items_enc(items: Seq<SpecValue>, s: Seq<u8>, pos: int)
    requires
        0 <= pos,
        forall|i: int| 0 <= i < items.len() ==> spec_int_bounded(#[trigger] items[i]),
        pos + spec_enc_items(items).len() + 1 <= s.len(),
        s.subrange(pos, pos + spec_enc_items(items).len() + 1) == spec_enc_items(items)
            + seq![101u8],
    ensures
        spec_dec_items(s, pos) == Some((items, pos + spec_enc_items(items).len() + 1)),
    decreases items, 1int,
{
    let e = spec_enc_items(items) + seq![101u8];
    if items.len() == 0 {
        lemma_index_of_eq(s, pos, e, 0);
        assert(s[pos] == 101);
    } else {
        let v0 = items[0];
        let e0 = spec_enc(v0);
        lemma_enc_shape(v0);
        lemma_index_of_eq(s, pos, e, 0);
        assert(e[0] == e0[0]);
        assert(s[pos] != 101);
        lemma_slice_of_eq(s, pos, e, 0, e0.len() as int);
        assert(e.subrange(0, e0.len() as int) =~= e0);
        lemma_dec_enc(v0, s, pos);
        let mid = pos + e0.len() as int;
        lemma_slice_of_eq(s, pos, e, e0.len() as int, e.len() as int);
        assert(e.subrange(e0.len() as int, e.len() as int) =~= spec_enc_items(items.drop_first())
            + seq![101u8]);
        lemma_dec_items_enc(items.drop_first(), s, mid);
        assert(seq![v0] + items.drop_first() =~= items);
    }
}

proof fn lemma_dec_pairs_enc(prs: Seq<(Seq<u8>, SpecValue)>, s: Seq<u8>, pos: int)
    requires
        0 <= pos,
        forall|i: int| 0 <= i < prs.len() ==> spec_int_bounded(#[trigger] prs[i].1),
        pos + spec_enc_pairs(prs).len() + 1 <= s.len(),
        s.subrange(pos, pos + spec_enc_pairs(prs).len() + 1) == spec_enc_pairs(prs) + seq![101u8],
    ensures
        spec_dec_pairs(s, pos) == Some((prs, pos + spec_enc_pairs(prs).len() + 1)),
    decreases prs, 1int,
{
    let e = spec_enc_pairs(prs) + seq![101u8];
    if prs.len() == 0 {
        lemma_index_of_eq(s, pos, e, 0);
        assert(s[pos] == 101);
    } else {
        let k0 = prs[0].0;
        let v0 = prs[0].1;
        let ek = spec_enc_bytes(k0);
        let ev = spec_enc(v0);
        lemma_spec_digits(k0.len());
        lemma_index_of_eq(s, pos, e, 0);
        assert(e[0] == ek[0]);
        assert(ek[0] == spec_digits(k0.len())[0]);
        assert(s[pos] != 101 && is_digit(s[pos]));
        lemma_slice_of_eq(s, pos, e, 0, ek.len() as int);
        assert(e.subrange(0, ek.len() as int) =~= ek);
        lemma_dec_bytes_enc(k0, s, pos);
        let mid = pos + ek.len() as int;
        lemma_slice_of_eq(s, pos, e, ek.len() as int, ek.len() + ev.len() as int);
        assert(e.subrange(ek.len() as int, ek.len() + ev.len() as int) =~= ev);
        lemma_dec_enc(v0, s, mid);
        let mid2 = mid + ev.len() as int;
        lemma_enc_shape(v0);
        lemma_slice_of_eq(s, pos, e, ek.len() + ev.len() as int, e.len() as int);
        assert(e.subrange(ek.len() + ev.len() as int, e.len() as int) =~= spec_enc_pairs(
            prs.drop_first(),
        ) + seq![101u8]);
        lemma_dec_pairs_enc(prs.drop_first(), s, mid2);
        assert(seq![(k0, v0)] + prs.drop_first() =~= prs);
        assert(spec_dec_pairs(s, pos) == Some((prs, pos + spec_enc_pairs(prs).len() + 1)));
    }
}

/// Codec round trip, first half: decoding the encoding of any value
/// (whose integers fit the signed 64-bit wire form) yields that value
/// back and consumes exactly its encoding, whatever follows it.
pub proof fn lemma_decode_encode(v: SpecValue, rest: Seq<u8>)
    requires
        spec_int_bounded(v),
    ensures
        spec_dec(spec_enc(v) + rest, 0) == Some((v, spec_enc(v).len() as int)),
{
    let s = spec_enc(v) + rest;
    assert(s.subrange(0, spec_enc(v).len() as int) =~= spec_enc(v));
    lemma_dec_enc(v, s, 0);
}


pub proof fn lemma_digit_run_props(s: Seq<u8>, pos: int)
    requires
        0 <= pos <= s.len(),
    ensures
        pos <= digit_run_end(s, pos) <= s.len(),
        forall|i: int| pos <= i < digit_run_end(s, pos) ==> is_digit(#[trigger] s[i]),
        digit_run_end(s, pos) < s.len() ==> !is_digit(s[digit_run_end(s, pos)]),
    decreases s.len() - pos,
{
    if pos < s.len() && is_digit(s[pos]) {
        lemma_digit_run_props(s, pos + 1);
    }
}

proof fn lemma_dec_sound(s: Seq<u8>, pos: int)
    requires
        spec_dec(s, pos) is Some,
    ensures
        ({
            let (v, end) = spec_dec(s, pos)->Some_0;
            &&& pos < end <= s.len()
            &&& spec_enc(v) =~= s.subrange(pos, end)
            &&& spec_int_bounded(v)
        }),
    decreases s.len() - pos, 0int,
{
    let (v, end) = spec_dec(s, pos)->Some_0;
    if s[pos] == 105 {
        let neg = pos + 1 < s.len() && s[pos + 1] == 45;
        let dstart = if neg {
            pos + 2
        } else {
            pos + 1
        };
        let dend = digit_run_end(s, dstart);
        lemma_digit_run_props(s, dstart);
        let run = s.subrange(dstart, dend);
        assert(forall|i: int| 0 <= i < run.len() ==> is_digit(#[trigger] run[i]));
        assert(run.len() == 1 || run[0] != 48);
        lemma_digits_canonical(run);
        let m = digits_val(run);
        assert(spec_digits(m) =~= run);
        if neg {
            assert(spec_enc(v) =~= seq![105u8] + (seq![45u8] + run) + seq![101u8]);
        } else {
            assert(spec_enc(v) =~= seq![105u8] + run + seq![101u8]);
        }
        assert(spec_enc(v) =~= s.subrange(pos, dend + 1));
    } else if s[pos] == 108 {
        lemma_dec_items_sound(s, pos + 1);
        let (items, iend) = spec_dec_items(s, pos + 1)->Some_0;
        assert(spec_enc(v) =~= seq![108u8] + (spec_enc_items(items) + seq![101u8]));
        assert(spec_enc(v) =~= s.subrange(pos, iend));
    } else if s[pos] == 100 {
        lemma_dec_pairs_sound(s, pos + 1);
        let (prs, pend) = spec_dec_pairs(s, pos + 1)->Some_0;
        assert(spec_enc(v) =~= seq![100u8] + (spec_enc_pairs(prs) + seq![101u8]));
        assert(spec_enc(v) =~= s.subrange(pos, pend));
    } else {
        lemma_dec_bytes_sound(s, pos);
    }
}

proof fn lemma_dec_bytes_sound(s: Seq<u8>, pos: int)
    requires
        0 <= pos,
        spec_dec_bytes(s, pos) is Some,
    ensures
        ({
            let (b, end) = spec_dec_bytes(s, pos)->Some_0;
            &&& pos < end <= s.len()
            &&& spec_enc_bytes(b) =~= s.subrange(pos, end)
        }),
{
    let dend = digit_run_end(s, pos);
    lemma_digit_run_props(s, pos);
    let run = s.subrange(pos, dend);
    assert(forall|i: int| 0 <= i < run.len() ==> is_digit(#[trigger] run[i]));
    lemma_digits_canonical(run);
    let (b, end) = spec_dec_bytes(s, pos)->Some_0;
    assert(spec_digits(b.len()) =~= run);
    assert(spec_enc_bytes(b) =~= run + seq![58u8] + b);
    assert(spec_enc_bytes(b) =~= s.subrange(pos, end));
}

proof fn lemma_dec_items_sound(s: Seq<u8>, pos: int)
    requires
        0 <= pos,
        spec_dec_items(s, pos) is Some,
    ensures
        ({
            let (items, end) = spec_dec_items(s, pos)->Some_0;
            &&& pos < end <= s.len()
            &&& spec_enc_items(items) + seq![101u8] =~= s.subrange(pos, end)
            &&& forall|i: int| 0 <= i < items.len() ==> spec_int_bounded(#[trigger] items[i])
        }),
    decreases s.len() - pos, 1int,
{
    let (items, end) = spec_dec_items(s, pos)->Some_0;
    if s[pos] == 101 {
        assert(spec_enc_items(items) + seq![101u8] =~= s.subrange(pos, pos + 1));
    } else {
        lemma_dec_sound(s, pos);
        let (v, mid) = spec_dec(s, pos)->Some_0;
        lemma_dec_items_sound(s, mid);
        let (rest, rend) = spec_dec_items(s, mid)->Some_0;
        assert(items =~= seq![v] + rest);
        assert(items.drop_first() =~= rest);
        assert(items[0] == v);
        assert(spec_enc_items(items) =~= spec_enc(v) + spec_enc_items(rest));
        assert(spec_enc_items(items) + seq![101u8] =~= s.subrange(pos, mid) + s.subrange(
            mid,
            rend,
        ));
        assert(s.subrange(pos, mid) + s.subrange(mid, rend) =~= s.subrange(pos, rend));
        assert forall|i: int| 0 <= i < items.len() implies spec_int_bounded(
            #[trigger] items[i],
        ) by {
            if i > 0 {
                assert(items[i] == rest[i - 1]);
            }
        }
    }
}

proof fn lemma_dec_pairs_sound(s: Seq<u8>, pos: int)
    requires
        0 <= pos,
        spec_dec_pairs(s, pos) is Some,
    ensures
        ({
            let (prs, end) = spec_dec_pairs(s, pos)->Some_0;
            &&& pos < end <= s.len()
            &&& spec_enc_pairs(prs) + seq![101u8] =~= s.subrange(pos, end)
            &&& forall|i: int| 0 <= i < prs.len() ==> spec_int_bounded(#[trigger] prs[i].1)
        }),
    decreases s.len() - pos, 1int,
{
    let (prs, end) = spec_dec_pairs(s, pos)->Some_0;
    if s[pos] == 101 {
        assert(spec_enc_pairs(prs) + seq![101u8] =~= s.subrange(pos, pos + 1));
    } else {
        lemma_dec_bytes_sound(s, pos);
        let (k, mid) = spec_dec_bytes(s, pos)->Some_0;
        lemma_dec_sound(s, mid);
        let (v, mid2) = spec_dec(s, mid)->Some_0;
        lemma_dec_pairs_sound(s, mid2);
        let (rest, rend) = spec_dec_pairs(s, mid2)->Some_0;
        assert(prs =~= seq![(k, v)] + rest);
        assert(prs.drop_first() =~= rest);
        assert(prs[0] == (k, v));
        assert(spec_enc_pairs(prs) =~= spec_enc_bytes(k) + spec_enc(v) + spec_enc_pairs(rest));
        assert(spec_enc_pairs(prs) + seq![101u8] =~= s.subrange(pos, mid) + s.subrange(mid, mid2)
            + s.subrange(mid2, rend));
        assert(s.subrange(pos, mid) + s.subrange(mid, mid2) + s.subrange(mid2, rend) =~= s.subrange(
            pos,
            rend,
        ));
        assert forall|i: int| 0 <= i < prs.len() implies spec_int_bounded(#[trigger] prs[i].1) by {
            if i > 0 {
                assert(prs[i] == rest[i - 1]);
            }
        }
    }
}

/// Codec round trip, second half: whenever the decoder accepts a byte
/// string, re-encoding the result reproduces the consumed bytes
/// exactly. With full consumption, `spec_enc` of the decoded value is
/// the whole input.
pub proof fn lemma_encode_decode(s: Seq<u8>, v: SpecValue, end: int)
    requires
        spec_dec(s, 0) == Some((v, end)),
    ensures
        0 < end <= s.len(),
        spec_enc(v) == s.subrange(0, end),
        spec_int_bounded(v),
        end == s.len() ==> spec_enc(v) == s,
{
    lemma_dec_sound(s, 0);
    if end == s.len() {
        assert(s.subrange(0, end) =~= s);
    }
}

proof fn lemma_lex_lt_trans(a: Seq<u8>, b: Seq<u8>, c: Seq<u8>)
    requires
        spec_lex_lt(a, b),
        spec_lex_lt(b, c),
    ensures
        spec_lex_lt(a, c),
    decreases a,
{
    if b.len() != 0 && a.len() != 0 && c.len() != 0 && a[0] == b[0] && b[0] == c[0] {
        lemma_lex_lt_trans(a.drop_first(), b.drop_first(), c.drop_first());
    }
}

/// Key ordering: in a well-formed dictionary the keys stand in strictly
/// ascending byte-wise lexicographic order, pairwise and not only
/// between neighbours; the encoder emits them in exactly that order.
pub proof fn lemma_dict_keys_ascending(prs: Seq<(Seq<u8>, SpecValue)>, i: int, j: int)
    requires
        spec_keys_ascending(prs),
        0 <= i < j < prs.len(),
    ensures
        spec_lex_lt(prs[i].0, prs[j].0),
    decreases j,
{
    if i > 0 {
        lemma_dict_keys_ascending(prs.drop_first(), i - 1, j - 1);
        assert(prs.drop_first()[i - 1] == prs[i]);
        assert(prs.drop_first()[j - 1] == prs[j]);
    } else if j == 1 {
        assert(spec_lex_lt(prs[0].0, prs[1].0));
    } else {
        lemma_dict_keys_ascending(prs.drop_first(), 0, j - 1);
        assert(prs.drop_first()[0] == prs[1]);
        assert(prs.drop_first()[j - 1] == prs[j]);
        lemma_lex_lt_trans(prs[0].0, prs[1].0, prs[j].0);
    }
}


/// The model of any in-memory value keeps its integers within the
/// signed 64-bit wire range, so the codec round trip applies to it.
pub proof fn lemma_value_view_bounded(v: BencodeValue)
    ensures
        spec_int_bounded(value_view(v)),
    decreases v,
{
    match v {
        BencodeValue::String(_) => {},
        BencodeValue::Integer(_) => {},
        BencodeValue::List(l) => {
            lemma_list_view_props(l@);
            assert forall|i: int|
                0 <= i < list_view(l@).len() implies spec_int_bounded(
                #[trigger] list_view(l@)[i],
            ) by {
                lemma_value_view_bounded(l@[i]);
            }
        },
        BencodeValue::Dictionary(d) => {
            lemma_dict_view_props(d@);
            assert forall|i: int|
                0 <= i < dict_view(d@).len() implies spec_int_bounded(
                #[trigger] dict_view(d@)[i].1,
            ) by {
                lemma_value_view_bounded(d@[i].1);
            }
        },
    }
}

/// The model of a list of values is element-wise.
pub proof fn lemma_list_view_props(l: Seq<BencodeValue>)
    ensures
        list_view(l).len() == l.len(),
        forall|i: int| 0 <= i < l.len() ==> #[trigger] list_view(l)[i] == value_view(l[i]),
    decreases l,
{
    if l.len() > 0 {
        lemma_list_view_props(l.drop_first());
        assert forall|i: int| 0 <= i < l.len() implies #[trigger] list_view(l)[i] == value_view(
            l[i],
        ) by {
            if i > 0 {
                assert(list_view(l)[i] == list_view(l.drop_first())[i - 1]);
                assert(l.drop_first()[i - 1] == l[i]);
            }
        }
    }
}

/// The model of a pair sequence is element-wise.
pub proof fn lemma_dict_view_props(d: Seq<(Vec<u8>, BencodeValue)>)
    ensures
        dict_view(d).len() == d.len(),
        forall|i: int|
            0 <= i < d.len() ==> #[trigger] dict_view(d)[i] == (d[i].0@, value_view(d[i].1)),
    decreases d,
{
    if d.len() > 0 {
        lemma_dict_view_props(d.drop_first());
        assert forall|i: int| 0 <= i < d.len() implies #[trigger] dict_view(d)[i] == (
            d[i].0@,
            value_view(d[i].1),
        ) by {
            if i > 0 {
                assert(dict_view(d)[i] == dict_view(d.drop_first())[i - 1]);
                assert(d.drop_first()[i - 1] == d[i]);
            }
        }
    }
}

/// Appending one element extends the concatenated wire form at the end.
pub proof fn lemma_enc_items_push(a: Seq<SpecValue>, x: SpecValue)
    ensures
        spec_enc_items(a.push(x)) =~= spec_enc_items(a) + spec_enc(x),
    decreases a,
{
    if a.len() == 0 {
        assert(a.push(x)[0] == x);
        assert(a.push(x).drop_first() =~= Seq::<SpecValue>::empty());
        assert(spec_enc_items(Seq::<SpecValue>::empty()) == Seq::<u8>::empty());
    } else {
        assert(a.push(x)[0] == a[0]);
        assert(a.push(x).drop_first() =~= a.drop_first().push(x));
        lemma_enc_items_push(a.drop_first(), x);
    }
}

/// Appending one pair extends the concatenated wire form at the end.
pub proof fn lemma_enc_pairs_push(a: Seq<(Seq<u8>, SpecValue)>, k: Seq<u8>, v: SpecValue)
    ensures
        spec_enc_pairs(a.push((k, v))) =~= spec_enc_pairs(a) + spec_enc_bytes(k) + spec_enc(v),
    decreases a,
{
    if a.len() == 0 {
        assert(a.push((k, v))[0] == (k, v));
        assert(a.push((k, v)).drop_first() =~= Seq::<(Seq<u8>, SpecValue)>::empty());
        assert(spec_enc_pairs(Seq::<(Seq<u8>, SpecValue)>::empty()) == Seq::<u8>::empty());
    } else {
        assert(a.push((k, v))[0] == a[0]);
        assert(a.push((k, v)).drop_first() =~= a.drop_first().push((k, v)));
        lemma_enc_pairs_push(a.drop_first(), k, v);
    }
}


/// Pushing one element extends the list model at the end.
pub proof fn lemma_list_view_push(l: Seq<BencodeValue>, x: BencodeValue)
    ensures
        list_view(l.push(x)) =~= list_view(l).push(value_view(x)),
{
    lemma_list_view_props(l.push(x));
    lemma_list_view_props(l);
    assert forall|i: int| 0 <= i < l.len() + 1 implies list_view(l.push(x))[i] == list_view(
        l,
    ).push(value_view(x))[i] by {
        assert(list_view(l.push(x))[i] == value_view(l.push(x)[i]));
        if i < l.len() {
            assert(l.push(x)[i] == l[i]);
            assert(list_view(l)[i] == value_view(l[i]));
        } else {
            assert(l.push(x)[i] == x);
        }
    }
}

/// Pushing one pair extends the dictionary model at the end.
pub proof fn lemma_dict_view_push(d: Seq<(Vec<u8>, BencodeValue)>, k: Vec<u8>, x: BencodeValue)
    ensures
        dict_view(d.push((k, x))) =~= dict_view(d).push((k@, value_view(x))),
{
    lemma_dict_view_props(d.push((k, x)));
    lemma_dict_view_props(d);
    assert forall|i: int| 0 <= i < d.len() + 1 implies dict_view(d.push((k, x)))[i] == dict_view(
        d,
    ).push((k@, value_view(x)))[i] by {
        assert(dict_view(d.push((k, x)))[i] == (
            d.push((k, x))[i].0@,
            value_view(d.push((k, x))[i].1),
        ));
        if i < d.len() {
            assert(d.push((k, x))[i] == d[i]);
            assert(dict_view(d)[i] == (d[i].0@, value_view(d[i].1)));
        } else {
            assert(d.push((k, x))[i] == (k, x));
        }
    }
}


/// Look a key up in a dictionary's pairs: the first pair with that key
/// wins.
pub open spec fn dict_get(prs: Seq<(Seq<u8>, SpecValue)>, key: Seq<u8>) -> Option<SpecValue>
    decreases prs,
{
    if prs.len() == 0 {
        None
    } else if prs[0].0 == key {
        Some(prs[0].1)
    } else {
        dict_get(prs.drop_first(), key)
    }
}

/// Two byte strings that agree before `k` and differ at `k` order by
/// the byte there.
pub proof fn lemma_lex_lt_at(a: Seq<u8>, b: Seq<u8>, k: int)
    requires
        0 <= k < a.len(),
        k < b.len(),
        forall|i: int| 0 <= i < k ==> a[i] == b[i],
        a[k] < b[k],
    ensures
        spec_lex_lt(a, b),
    decreases k,
{
    if k > 0 {
        lemma_lex_lt_at(a.drop_first(), b.drop_first(), k - 1);
    }
}

/// Find a key in a dictionary value's pairs; the first match wins, as
/// in [`dict_get`].
#[verifier::loop_isolation(false)]
pub fn dict_find<'a>(pairs: &'a Vec<(Vec<u8>, BencodeValue)>, key: &[u8]) -> (r: Option<
    &'a BencodeValue,
>)
    ensures
        match r {
            Some(v) => dict_get(dict_view(pairs@), key@) == Some(value_view(*v)),
            None => dict_get(dict_view(pairs@), key@) is None,
        },
{
    let ghost dv = dict_view(pairs@);
    proof {
        lemma_dict_view_props(pairs@);
        assert(dv.skip(0) =~= dv);
    }
    let mut i: usize = 0;
    while i < pairs.len()
        invariant
            i <= pairs.len(),
            dict_get(dv, key@) == dict_get(dv.skip(i as int), key@),
        decreases pairs.len() - i,
    {
        proof {
            assert(dv.skip(i as int)[0] == dv[i as int]);
        }
        if crate::hashing::bytes_eq(pairs[i].0.as_slice(), key) {
            return Some(&pairs[i].1);
        }
        proof {
            assert(dv.skip(i as int).drop_first() =~= dv.skip(i as int + 1));
        }
        i = i + 1;
    }
    None
}

} // verus!

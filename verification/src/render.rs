use vstd::prelude::*;

use crate::bencode::dict_view;
use crate::bencode::lemma_dict_view_props;
use crate::bencode::lemma_list_view_props;
use crate::bencode::list_view;
use crate::bencode::BencodeValue;
use crate::bencode::SpecValue;
use crate::text::dec_chars;
use crate::text::u64_string;
use vstd::string::StringExecFns;

verus! {

/// What std's lossy UTF-8 reading makes of a byte string: a name for
/// the outside function's result, which depends on the bytes alone.
pub uninterp spec fn lossy_chars(b: Seq<u8>) -> Seq<char>;

/// Relies on String::from_utf8_lossy: text comes through as its
/// characters, ill-formed sequences as replacement characters, as a
/// function of the bytes alone.
#[verifier::external_body]
pub fn lossy_string(data: &[u8]) -> (r: String)
    ensures
        r@ == lossy_chars(data@),
{
    String::from_utf8_lossy(data).to_string()
}

/// The characters of a signed integer in decimal.
pub open spec fn int_chars(i: int) -> Seq<char> {
    if i < 0 {
        seq!['-'] + dec_chars((-i) as nat)
    } else {
        dec_chars(i as nat)
    }
}

/// The display form of a value: byte strings quoted (read as lossy
/// UTF-8), lists bracketed, dictionaries braced, elements separated by
/// commas.
pub open spec fn spec_render(v: SpecValue) -> Seq<char>
    decreases v, 0int,
{
    match v {
        SpecValue::Bytes(b) => seq!['"'] + lossy_chars(b) + seq!['"'],
        SpecValue::Int(i) => int_chars(i),
        SpecValue::List(items) => seq!['['] + spec_render_items(items) + seq![']'],
        SpecValue::Dict(prs) => seq!['{'] + spec_render_pairs(prs) + seq!['}'],
    }
}

/// List elements, comma-separated.
pub open spec fn spec_render_items(items: Seq<SpecValue>) -> Seq<char>
    decreases items, 0int,
{
    if items.len() == 0 {
        Seq::empty()
    } else if items.len() == 1 {
        spec_render(items[0])
    } else {
        spec_render(items[0]) + seq![','] + spec_render_items(items.drop_first())
    }
}

/// Dictionary pairs as quoted key, colon, value, comma-separated.
pub open spec fn spec_render_pair(key: Seq<u8>, v: SpecValue) -> Seq<char>
    decreases v, 1int,
{
    seq!['"'] + lossy_chars(key) + seq!['"'] + seq![':'] + spec_render(v)
}

pub open spec fn spec_render_pairs(prs: Seq<(Seq<u8>, SpecValue)>) -> Seq<char>
    decreases prs, 0int,
{
    if prs.len() == 0 {
        Seq::empty()
    } else if prs.len() == 1 {
        spec_render_pair(prs[0].0, prs[0].1)
    } else {
        spec_render_pair(prs[0].0, prs[0].1) + seq![','] + spec_render_pairs(prs.drop_first())
    }
}

proof fn lemma_render_items_push(a: Seq<SpecValue>, x: SpecValue)
    ensures
        spec_render_items(a.push(x)) =~= if a.len() == 0 {
            spec_render(x)
        } else {
            spec_render_items(a) + seq![','] + spec_render(x)
        },
    decreases a,
{
    if a.len() == 0 {
        assert(a.push(x)[0] == x);
    } else {
        assert(a.push(x)[0] == a[0]);
        assert(a.push(x).drop_first() =~= a.drop_first().push(x));
        lemma_render_items_push(a.drop_first(), x);
    }
}

proof fn lemma_render_pairs_push(a: Seq<(Seq<u8>, SpecValue)>, k: Seq<u8>, x: SpecValue)
    ensures
        spec_render_pairs(a.push((k, x))) =~= if a.len() == 0 {
            spec_render_pair(k, x)
        } else {
            spec_render_pairs(a) + seq![','] + spec_render_pair(k, x)
        },
    decreases a,
{
    if a.len() == 0 {
        assert(a.push((k, x))[0] == (k, x));
    } else {
        assert(a.push((k, x))[0] == a[0]);
        assert(a.push((k, x)).drop_first() =~= a.drop_first().push((k, x)));
        lemma_render_pairs_push(a.drop_first(), k, x);
    }
}

/// Format a signed integer in decimal.
pub fn i64_string(v: i64) -> (r: String)
    ensures
        r@ == int_chars(v as int),
{
    if v < 0 {
        let m: u64 = if v == i64::MIN {
            0x8000_0000_0000_0000u64
        } else {
            (-v) as u64
        };
        let mut out = String::from_str("-");
        let digits = u64_string(m);
        out.append(digits.as_str());
        proof {
            reveal_strlit("-");
        }
        out
    } else {
        u64_string(v as u64)
    }
}

/// Render a value for display, as the `decode` command prints it.
#[verifier::loop_isolation(false)]
pub fn render(v: &BencodeValue) -> (r: String)
    ensures
        r@ == spec_render(v@),
    decreases v,
{
    match v {
        BencodeValue::String(s) => {
            let mut out = String::from_str("\"");
            let body = lossy_string(s.as_slice());
            out.append(body.as_str());
            out.append("\"");
            proof {
                reveal_strlit("\"");
            }
            out
        },
        BencodeValue::Integer(i) => i64_string(*i),
        BencodeValue::List(l) => {
            proof {
                lemma_list_view_props(l@);
            }
            let ghost views = list_view(l@);
            let mut out = String::from_str("[");
            proof {
                reveal_strlit("[");
                reveal_strlit("]");
                reveal_strlit(",");
                assert(out@ =~= seq!['[']);
                assert(views.take(0) =~= Seq::<SpecValue>::empty());
                assert(spec_render_items(Seq::<SpecValue>::empty()) == Seq::<char>::empty());
            }
            let mut idx: usize = 0;
            while idx < l.len()
                invariant
                    idx <= l.len(),
                    out@ == seq!['['] + spec_render_items(views.take(idx as int)),
                decreases l.len() - idx,
            {
                proof {
                    assert(decreases_to!(*v => *l));
                    assert(decreases_to!(*l => l@[idx as int]));
                    lemma_render_items_push(views.take(idx as int), views[idx as int]);
                    assert(views.take(idx as int).push(views[idx as int]) =~= views.take(
                        idx as int + 1,
                    ));
                }
                if idx > 0 {
                    out.append(",");
                }
                let piece = render(&l[idx]);
                out.append(piece.as_str());
                idx = idx + 1;
            }
            out.append("]");
            proof {
                assert(views.take(l@.len() as int) =~= views);
            }
            out
        },
        BencodeValue::Dictionary(d) => {
            proof {
                lemma_dict_view_props(d@);
            }
            let ghost views = dict_view(d@);
            let mut out = String::from_str("{");
            proof {
                reveal_strlit("{");
                reveal_strlit("}");
                reveal_strlit(",");
                reveal_strlit("\"");
                reveal_strlit(":");
                assert(out@ =~= seq!['{']);
                assert(views.take(0) =~= Seq::<(Seq<u8>, SpecValue)>::empty());
                assert(spec_render_pairs(Seq::<(Seq<u8>, SpecValue)>::empty())
                    == Seq::<char>::empty());
            }
            let mut idx: usize = 0;
            while idx < d.len()
                invariant
                    idx <= d.len(),
                    out@ == seq!['{'] + spec_render_pairs(views.take(idx as int)),
                decreases d.len() - idx,
            {
                proof {
                    assert(decreases_to!(*v => *d));
                    assert(decreases_to!(*d => d@[idx as int]));
                    assert(decreases_to!(d@[idx as int] => d@[idx as int].1));
                    lemma_render_pairs_push(
                        views.take(idx as int),
                        views[idx as int].0,
                        views[idx as int].1,
                    );
                    assert(views.take(idx as int).push(views[idx as int]) =~= views.take(
                        idx as int + 1,
                    ));
                }
                if idx > 0 {
                    out.append(",");
                }
                out.append("\"");
                let key = lossy_string(d[idx].0.as_slice());
                out.append(key.as_str());
                out.append("\"");
                out.append(":");
                let piece = render(&d[idx].1);
                out.append(piece.as_str());
                idx = idx + 1;
            }
            out.append("}");
            proof {
                assert(views.take(d@.len() as int) =~= views);
            }
            out
        },
    }
}

} // verus!

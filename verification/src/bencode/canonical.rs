//! The strict parser accepts only canonical text: the bytes it consumes for
//! a value are that value's encoding, so a decoder call consumes exactly one
//! value and nothing beyond it.

use vstd::prelude::*;
use crate::error::RcoError;
use crate::bencode::model::{
    BencodeTerm, is_digit, decimal, int_text, encode, encode_bytes, encode_items, encode_entries,
    digit_end, digits_value, parse_bytes, parse_integer, parse_value, parse_items, parse_entries,
    decode_spec,
};
use crate::bencode::lemmas::{
    lemma_digit_end, lemma_digits_value_mono, lemma_parse_advances, lemma_items_advance,
    lemma_entries_advance,
};
use crate::bencode::laws::{law_decode_encode, lemma_parsed_value};

verus! {

/// A run of digits without a leading zero (or a lone digit) is the decimal
/// text of its value.
proof fn lemma_canonical_digits(s: Seq<u8>, p: int, q: int)
    requires
        0 <= p < q <= s.len(),
        forall|k: int| p <= k < q ==> is_digit(#[trigger] s[k]),
        q - p == 1 || s[p] != 48,
    ensures
        s.subrange(p, q) == decimal(digits_value(s, p, q)),
    decreases q - p,
{
    let v = digits_value(s, p, q);
    assert(is_digit(s[q - 1]));
    let d = (s[q - 1] - 48) as nat;
    assert(d < 10);
    assert(digits_value(s, p, p) == 0);
    if q - p == 1 {
        assert(v == d);
        assert(s.subrange(p, q) =~= seq![s[p]]);
        assert(decimal(v) == seq![(v + 48) as u8]);
    } else {
        let w = digits_value(s, p, q - 1);
        assert(v == w * 10 + d);
        lemma_canonical_digits(s, p, q - 1);
        lemma_digits_value_mono(s, p, p + 1, q - 1);
        assert(is_digit(s[p]));
        assert(digits_value(s, p, p + 1) == digits_value(s, p, p) * 10 + (s[p] - 48) as nat);
        assert(w >= 1);
        assert(v / 10 == w && v % 10 == d) by (nonlinear_arith)
            requires
                v == w * 10 + d,
                d < 10,
        ;
        assert(v >= 10);
        assert(decimal(v) == decimal(v / 10) + seq![((v % 10) + 48) as u8]);
        assert(s.subrange(p, q) =~= s.subrange(p, q - 1) + seq![s[q - 1]]);
    }
}

/// The bytes a string consumes are its encoding.
proof fn lemma_bytes_canonical(s: Seq<u8>, p: int)
    requires
        0 <= p,
    ensures
        parse_bytes(s, p) matches Ok((b, q)) ==> p < q <= s.len() && s.subrange(p, q) == encode_bytes(b),
{
    if let Ok((b, q)) = parse_bytes(s, p) {
        let q1 = digit_end(s, p);
        assert(p < s.len());
        lemma_digit_end(s, p);
        lemma_canonical_digits(s, p, q1);
        let n = digits_value(s, p, q1);
        assert(s[q1] == 58);
        assert(b == s.subrange(q1 + 1, q1 + 1 + n));
        assert(s.subrange(p, q) =~= s.subrange(p, q1) + seq![58u8] + b);
    }
}

/// The bytes an integer consumes are its encoding.
proof fn lemma_integer_canonical(s: Seq<u8>, p: int)
    requires
        0 <= p < s.len(),
        s[p] == 105,
    ensures
        parse_integer(s, p) matches Ok((n, q)) ==> q <= s.len() && s.subrange(p, q) == encode(BencodeTerm::Integer(n)),
{
    if let Ok((n, q)) = parse_integer(s, p) {
        let a = p + 1;
        let neg = s[a] == 45;
        let ds = if neg { a + 1 } else { a };
        lemma_digit_end(s, ds);
        let de = digit_end(s, ds);
        let v = digits_value(s, ds, de);
        lemma_canonical_digits(s, ds, de);
        assert(s[de] == 101);
        assert(q == de + 1);
        if neg {
            if v == 0 {
                assert(decimal(0) == seq![48u8]);
                assert(s.subrange(ds, de).len() == 1);
                assert(s[ds] == s.subrange(ds, de)[0]);
            }
            assert(n == -v);
            assert(int_text(n) == seq![45u8] + decimal(v));
            assert(s.subrange(p, q) =~= seq![105u8] + (seq![45u8] + s.subrange(ds, de)) + seq![101u8]);
        } else {
            assert(n == v);
            assert(int_text(n) == decimal(v));
            assert(s.subrange(p, q) =~= seq![105u8] + s.subrange(ds, de) + seq![101u8]);
        }
    }
}

/// The bytes the parser consumes for a value are that value's encoding.
pub proof fn lemma_parse_canonical(s: Seq<u8>, p: int, depth: int)
    requires
        0 <= p,
    ensures
        parse_value(s, p, depth) matches Ok((t, q)) ==> s.subrange(p, q) == encode(t),
    decreases 17 - depth, s.len() - p, 1int,
{
    if depth <= 16 && p < s.len() {
        if s[p] == 105 {
            lemma_integer_canonical(s, p);
        } else if s[p] == 108 {
            lemma_items_canonical(s, p + 1, depth);
            lemma_items_advance(s, p + 1, depth);
            if let Ok((items, q)) = parse_items(s, p + 1, depth) {
                assert(s.subrange(p, q) =~= seq![108u8] + s.subrange(p + 1, q));
            }
        } else if s[p] == 100 {
            lemma_entries_canonical(s, p + 1, depth, None);
            lemma_entries_advance(s, p + 1, depth, None);
            if let Ok((es, q)) = parse_entries(s, p + 1, depth, None) {
                assert(s.subrange(p, q) =~= seq![100u8] + s.subrange(p + 1, q));
            }
        } else if is_digit(s[p]) {
            lemma_bytes_canonical(s, p);
        }
    }
}

proof fn lemma_items_canonical(s: Seq<u8>, q: int, depth: int)
    requires
        0 <= q,
    ensures
        parse_items(s, q, depth) matches Ok((items, q3)) ==> s.subrange(q, q3) == encode_items(items) + seq![101u8],
    decreases 17 - depth, s.len() - q, 0int,
{
    if depth <= 16 && q < s.len() {
        if s[q] == 101 {
            assert(s.subrange(q, q + 1) =~= seq![101u8]);
            assert(encode_items(Seq::<BencodeTerm>::empty()) + seq![101u8] =~= seq![101u8]);
        } else {
            lemma_parse_canonical(s, q, depth + 1);
            if let Ok((t, q2)) = parse_value(s, q, depth + 1) {
                if q < q2 <= s.len() {
                    lemma_items_canonical(s, q2, depth);
                    lemma_items_advance(s, q2, depth);
                    if let Ok((rest, q3)) = parse_items(s, q2, depth) {
                        let items = seq![t] + rest;
                        assert(items.drop_first() =~= rest);
                        assert(items[0] == t);
                        assert(encode_items(items) == encode(t) + encode_items(rest));
                        assert(s.subrange(q, q3) =~= s.subrange(q, q2) + s.subrange(q2, q3));
                    }
                }
            }
        }
    }
}

proof fn lemma_entries_canonical(s: Seq<u8>, q: int, depth: int, last: Option<Seq<u8>>)
    requires
        0 <= q,
    ensures
        parse_entries(s, q, depth, last) matches Ok((es, q3)) ==> s.subrange(q, q3) == encode_entries(es) + seq![101u8],
    decreases 17 - depth, s.len() - q, 0int,
{
    if depth <= 16 && q < s.len() {
        if s[q] == 101 {
            assert(s.subrange(q, q + 1) =~= seq![101u8]);
            assert(encode_entries(Seq::<(Seq<u8>, BencodeTerm)>::empty()) + seq![101u8] =~= seq![101u8]);
        } else {
            lemma_bytes_canonical(s, q);
            if let Ok((key, q1)) = parse_bytes(s, q) {
                lemma_parse_canonical(s, q1, depth + 1);
                lemma_parse_advances(s, q1, depth + 1);
                if let Ok((t, q2)) = parse_value(s, q1, depth + 1) {
                    if q < q2 <= s.len() {
                        lemma_entries_canonical(s, q2, depth, Some(key));
                        lemma_entries_advance(s, q2, depth, Some(key));
                        if let Ok((rest, q3)) = parse_entries(s, q2, depth, Some(key)) {
                            let es = seq![(key, t)] + rest;
                            assert(es.drop_first() =~= rest);
                            assert(es[0] == (key, t));
                            assert(encode_entries(es) == encode_bytes(key) + encode(t) + encode_entries(rest));
                            assert(s.subrange(q, q3) =~= s.subrange(q, q1) + s.subrange(q1, q2) + s.subrange(q2, q3));
                        }
                    }
                }
            }
        }
    }
}

/// Law: a decoder call at `p` that succeeds consumes exactly one value and
/// nothing beyond it: it stops after `p`, within the input, and the bytes
/// from `p` to where it stops decode, on their own, to the same value.
pub proof fn law_decode_consumes_one_value(s: Seq<u8>, p: int)
    requires
        0 <= p,
        s.len() <= usize::MAX,
        parse_value(s, p, 0) is Ok,
    ensures
        p < parse_value(s, p, 0)->Ok_0.1 <= s.len(),
        decode_spec(s.subrange(p, parse_value(s, p, 0)->Ok_0.1))
            == Ok::<BencodeTerm, RcoError>(parse_value(s, p, 0)->Ok_0.0),
{
    lemma_parse_advances(s, p, 0);
    lemma_parse_canonical(s, p, 0);
    lemma_parsed_value(s, p, 0);
    let t = parse_value(s, p, 0)->Ok_0.0;
    let q = parse_value(s, p, 0)->Ok_0.1;
    assert(encode(t).len() == q - p);
    law_decode_encode(t);
}

} // verus!
